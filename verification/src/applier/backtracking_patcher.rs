//! Backtracking application of a sequence of hunks to a file's lines.
//!
//! The engine locates every hunk by its local context, pins hunks with a
//! single valid placement, explores the remaining assignments exhaustively
//! under a node budget, and replays the unique solution. It fails with a
//! conflict when no placement set works and with an ambiguity when two
//! placement sets produce materially distinct outputs.

use crate::applier::state::BacktrackingState;
use crate::applier::whitespace_mode::WhitespaceMode;
use crate::data::chunk::{Chunk, ChunkView};
use crate::data::line_type::LineType;
use crate::error::ZenpatchError;
use crate::text::{
    chars_eq, fold_punct, fold_punct_vec, join_words, join_words_exec, str_words, string_vec_eq,
    trim_chars, trim_ws, words, words_eq,
};
use vstd::multiset::Multiset;
use vstd::prelude::*;

verus! {

/// Maximum number of solver entries before the search gives up and reports
/// the patch as ambiguous.
pub const MAX_BACKTRACK_NODES: usize = 100000;

/// A line after whitespace folding: its words rejoined with single spaces.
pub open spec fn norm_ws(s: Seq<char>) -> Seq<char> {
    join_words(words(s))
}

/// A line after whitespace folding followed by punctuation folding.
pub open spec fn norm_super(s: Seq<char>) -> Seq<char> {
    fold_punct(trim_ws(norm_ws(s)))
}

/// Whether two lines match under the given mode: equal character for
/// character, equal after whitespace folding, or equal after whitespace and
/// punctuation folding.
pub open spec fn line_eq(a: Seq<char>, b: Seq<char>, mode: WhitespaceMode) -> bool {
    match mode {
        WhitespaceMode::Strict => a == b,
        WhitespaceMode::Lenient => words(a) == words(b),
        WhitespaceMode::SuperLenient => norm_super(a) == norm_super(b),
    }
}

/// Whitespace folding of a line, executably.
pub fn normalize(s: &str) -> (r: Vec<char>)
    ensures
        r@ == norm_ws(s@),
{
    let w = str_words(s);
    join_words_exec(&w)
}

/// Punctuation folding of a trimmed line, executably: trims the input and
/// maps the Unicode dash, quote and space families to ASCII. The loosest
/// comparison applies this to an already whitespace-folded line.
pub fn super_normalise(s: &str) -> (r: Vec<char>)
    ensures
        r@ == fold_punct(trim_ws(s@)),
{
    let cs = crate::text::chars_of(s);
    let t = trim_chars(&cs);
    fold_punct_vec(&t)
}

/// Decides whether two lines match under the given mode.
pub fn match_line(a: &String, b: &String, mode: WhitespaceMode) -> (r: bool)
    ensures
        r == line_eq(a@, b@, mode),
{
    match mode {
        WhitespaceMode::Strict => *a == *b,
        WhitespaceMode::Lenient => {
            let wa = str_words(a.as_str());
            let wb = str_words(b.as_str());
            words_eq(&wa, &wb)
        },
        WhitespaceMode::SuperLenient => {
            let na = fold_punct_vec(&trim_chars(&normalize(a.as_str())));
            let nb = fold_punct_vec(&trim_chars(&normalize(b.as_str())));
            chars_eq(&na, &nb)
        },
    }
}

/// Two lines that match strictly also match under whitespace folding, and
/// two that match under whitespace folding also match under whitespace and
/// punctuation folding: each mode only loosens the previous one.
pub proof fn lemma_line_eq_mode_monotone(a: Seq<char>, b: Seq<char>)
    ensures
        line_eq(a, b, WhitespaceMode::Strict) ==> line_eq(a, b, WhitespaceMode::Lenient),
        line_eq(a, b, WhitespaceMode::Lenient) ==> line_eq(a, b, WhitespaceMode::SuperLenient),
{
}

proof fn lemma_filter_push<A>(s: Seq<A>, x: A, pred: spec_fn(A) -> bool)
    ensures
        s.push(x).filter(pred) == if pred(x) {
            s.filter(pred).push(x)
        } else {
            s.filter(pred)
        },
{
    reveal(Seq::filter);
    assert(s.push(x).drop_last() =~= s);
}

/// The leading contiguous `Context` contents of a hunk: its pre-context
/// anchor.
pub open spec fn pre_ctx(c: ChunkView) -> Seq<Seq<char>> {
    c.lines.take(c.pre_len() as int).map_values(|p: (LineType, Seq<char>)| p.1)
}

proof fn lemma_pre_ctx_len_at(ls: Seq<(LineType, Seq<char>)>, i: int)
    requires
        0 <= i <= ls.len(),
        forall|k: int| 0 <= k < i ==> ls[k].0 is Context,
        i < ls.len() ==> !(ls[i].0 is Context),
    ensures
        crate::data::chunk::pre_ctx_len(ls) == i,
    decreases i,
{
    if i == 0 {
    } else {
        assert(ls[0].0 is Context);
        lemma_pre_ctx_len_at(ls.skip(1), i - 1);
    }
}

/// Computes the length of the leading `Context` run of a hunk.
pub fn pre_context_len(chunk: &Chunk) -> (r: usize)
    ensures
        r == chunk@.pre_len(),
        r <= chunk@.lines.len(),
        forall|k: int| 0 <= k < r ==> chunk@.lines[k].0 is Context,
        r < chunk@.lines.len() ==> !(chunk@.lines[r as int].0 is Context),
{
    let n = chunk.lines.len();
    let mut i: usize = 0;
    while i < n && matches!((&chunk.lines[i]).0, LineType::Context)
        invariant
            n == chunk.lines.len(),
            i <= n,
            chunk@.lines.len() == n,
            forall|k: int| 0 <= k < i ==> chunk@.lines[k].0 is Context,
        decreases n - i,
    {
        proof {
            assert(chunk@.lines[i as int] == (chunk.lines@[i as int].0, chunk.lines@[i as int].1@));
        }
        i += 1;
    }
    proof {
        if i < n {
            assert(chunk@.lines[i as int] == (chunk.lines@[i as int].0, chunk.lines@[i as int].1@));
        }
        lemma_pre_ctx_len_at(chunk@.lines, i as int);
    }
    i
}

/// Collects the leading `Context` contents of a hunk.
pub fn get_pre_context_lines(chunk: &Chunk) -> (r: Vec<String>)
    ensures
        r.deep_view() == pre_ctx(chunk@),
        r@.len() == chunk@.pre_len(),
{
    let p = pre_context_len(chunk);
    let mut r: Vec<String> = Vec::new();
    let mut i: usize = 0;
    while i < p
        invariant
            p == chunk@.pre_len() <= chunk.lines.len(),
            chunk@.lines.len() == chunk.lines@.len(),
            i <= p,
            r@.len() == i,
            forall|k: int| 0 <= k < i ==> r.deep_view()[k] == chunk@.lines[k].1,
        decreases p - i,
    {
        let line = &chunk.lines[i];
        let ghost prev = r.deep_view();
        r.push(line.1.clone());
        proof {
            assert(chunk@.lines[i as int] == (chunk.lines@[i as int].0, chunk.lines@[i as int].1@));
            assert(r.deep_view() =~~= prev.push(chunk.lines@[i as int].1@));
        }
        i += 1;
    }
    proof {
        assert(r.deep_view() =~~= pre_ctx(chunk@));
    }
    r
}

/// The effective pre-context length: one less than the pre-context when its
/// last line matches the first deleted line under the active mode, a common
/// transcription artefact in patches.
pub open spec fn adj_pre(c: ChunkView, mode: WhitespaceMode) -> nat {
    let p = c.pre_len();
    if p > 0 && c.del_lines.len() > 0 && p < c.lines.len() && c.lines[p as int].0 is Deletion
        && line_eq(c.lines[p - 1].1, c.lines[p as int].1, mode) {
        (p - 1) as nat
    } else {
        p
    }
}

/// Computes the effective pre-context length of a hunk.
pub fn adj_pre_len(chunk: &Chunk, mode: WhitespaceMode) -> (r: usize)
    ensures
        r == adj_pre(chunk@, mode),
{
    let p = pre_context_len(chunk);
    if p > 0 && chunk.del_lines.len() > 0 && p < chunk.lines.len() {
        proof {
            assert(chunk@.lines[p - 1] == (chunk.lines@[p - 1].0, chunk.lines@[p - 1].1@));
            assert(chunk@.lines[p as int] == (chunk.lines@[p as int].0, chunk.lines@[p as int].1@));
            assert(chunk@.del_lines.len() == chunk.del_lines@.len());
        }
        let prev = &chunk.lines[p - 1];
        let at = &chunk.lines[p];
        if matches!(at.0, LineType::Deletion) && match_line(&prev.1, &at.1, mode) {
            return p - 1;
        }
        p
    } else {
        proof {
            assert(chunk@.del_lines.len() == chunk.del_lines@.len());
        }
        p
    }
}

/// Whether the `j`-th deleted line of a hunk placed at `pos` is in bounds
/// and matches the file under the given mode.
pub open spec fn del_line_ok(
    lines: Seq<Seq<char>>,
    c: ChunkView,
    pos: int,
    mode: WhitespaceMode,
    j: int,
) -> bool {
    &&& pos + adj_pre(c, mode) + j < lines.len()
    &&& line_eq(lines[pos + adj_pre(c, mode) + j], c.del_lines[j], mode)
}

/// Whether the deletion block of a hunk placed at `pos` matches the file
/// line for line under the given mode, entirely within bounds.
pub open spec fn del_matches_at(
    lines: Seq<Seq<char>>,
    c: ChunkView,
    pos: int,
    mode: WhitespaceMode,
) -> bool {
    forall|j: int| 0 <= j < c.del_lines.len() ==> #[trigger] del_line_ok(lines, c, pos, mode, j)
}

/// Checks that the deletion block of `chunk` placed at `pos` matches the
/// file under the given mode.
pub fn deletion_matches(
    lines: &Vec<String>,
    chunk: &Chunk,
    pos: usize,
    mode: WhitespaceMode,
) -> (r: bool)
    ensures
        r == del_matches_at(lines.deep_view(), chunk@, pos as int, mode),
{
    let ghost d = lines.deep_view();
    let m = chunk.del_lines.len();
    let n = lines.len();
    proof {
        assert(chunk@.del_lines.len() == m);
        assert(d.len() == lines@.len());
    }
    if m == 0 {
        return true;
    }
    let adj = adj_pre_len(chunk, mode);
    let base = match pos.checked_add(adj) {
        Some(b) => b,
        None => {
            proof {
                if del_matches_at(d, chunk@, pos as int, mode) {
                    assert(del_line_ok(d, chunk@, pos as int, mode, 0));
                }
            }
            return false;
        },
    };
    let mut j: usize = 0;
    while j < m
        invariant
            m == chunk.del_lines.len() == chunk@.del_lines.len(),
            base == pos + adj_pre(chunk@, mode),
            j <= m,
            n == lines@.len(),
            d == lines.deep_view(),
            d.len() == n,
            forall|k: int| 0 <= k < j ==> #[trigger] del_line_ok(d, chunk@, pos as int, mode, k),
        decreases m - j,
    {
        let idx = match base.checked_add(j) {
            Some(x) => x,
            None => {
                proof {
                    if del_matches_at(d, chunk@, pos as int, mode) {
                        assert(del_line_ok(d, chunk@, pos as int, mode, j as int));
                    }
                }
                return false;
            },
        };
        if idx >= n {
            proof {
                if del_matches_at(d, chunk@, pos as int, mode) {
                    assert(del_line_ok(d, chunk@, pos as int, mode, j as int));
                }
            }
            return false;
        }
        proof {
            assert(d[idx as int] == lines@[idx as int]@);
            assert(chunk@.del_lines[j as int] == chunk.del_lines@[j as int]@);
        }
        let matched = match_line(&lines[idx], &chunk.del_lines[j], mode);
        proof {
            if matched {
                assert(del_line_ok(d, chunk@, pos as int, mode, j as int));
            } else if del_matches_at(d, chunk@, pos as int, mode) {
                assert(del_line_ok(d, chunk@, pos as int, mode, j as int));
            }
        }
        if !matched {
            return false;
        }
        j += 1;
    }
    proof {
        assert forall|j2: int| 0 <= j2 < chunk@.del_lines.len() implies #[trigger] del_line_ok(
            d,
            chunk@,
            pos as int,
            mode,
            j2,
        ) by {
            assert(0 <= j2 < m);
        }
    }
    true
}

/// The set of original-line indices the deletion block of a placed hunk
/// consumes: its footprint.
pub open spec fn footprint(c: ChunkView, pos: int, mode: WhitespaceMode) -> Set<usize> {
    Set::new(
        |i: usize|
            pos + adj_pre(c, mode) <= i < pos + adj_pre(c, mode) + c.del_lines.len(),
    )
}

/// Lists the original-line indices the deletion block of `chunk` placed at
/// `pos` would consume.
pub fn get_affected_indices(chunk: &Chunk, pos: usize, mode: WhitespaceMode) -> (r: Vec<usize>)
    requires
        chunk@.del_lines.len() > 0 ==> pos + adj_pre(chunk@, mode) + chunk@.del_lines.len()
            <= usize::MAX,
    ensures
        r@.len() == chunk@.del_lines.len(),
        forall|j: int| 0 <= j < r@.len() ==> r@[j] == pos + adj_pre(chunk@, mode) + j,
        forall|u: usize| footprint(chunk@, pos as int, mode).contains(u) <==> r@.contains(u),
{
    let m = chunk.del_lines.len();
    proof {
        assert(chunk@.del_lines.len() == m);
    }
    let mut r: Vec<usize> = Vec::new();
    if m == 0 {
        proof {
            assert(forall|u: usize| !footprint(chunk@, pos as int, mode).contains(u));
        }
        return r;
    }
    let adj = adj_pre_len(chunk, mode);
    let start = pos + adj;
    let mut j: usize = 0;
    while j < m
        invariant
            m == chunk@.del_lines.len(),
            start == pos + adj_pre(chunk@, mode),
            start + m <= usize::MAX,
            j <= m,
            r@.len() == j,
            forall|k: int| 0 <= k < j ==> r@[k] == start + k,
        decreases m - j,
    {
        r.push(start + j);
        j += 1;
    }
    proof {
        assert forall|u: usize| footprint(chunk@, pos as int, mode).contains(u) implies r@.contains(
            u,
        ) by {
            let k = u - start;
            assert(r@[k as int] == u);
        }
        assert forall|u: usize| r@.contains(u) implies footprint(
            chunk@,
            pos as int,
            mode,
        ).contains(u) by {
            let k = choose|k: int| 0 <= k < r@.len() && r@[k] == u;
        }
    }
    r
}

/// The offsets `0, 1, ..., n-1` as a sequence, or empty when `n` is not
/// positive.
pub open spec fn range_seq(n: int) -> Seq<usize> {
    Seq::new(
        if n >= 0 {
            n as nat
        } else {
            0
        },
        |k: int| k as usize,
    )
}

/// Whether line `i + j` of the file matches the `j`-th line of a block.
pub open spec fn block_line_ok(
    lines: Seq<Seq<char>>,
    block: Seq<Seq<char>>,
    i: int,
    mode: WhitespaceMode,
    j: int,
) -> bool {
    line_eq(lines[i + j], block[j], mode)
}

/// Whether the deletion block of a hunk with no pre-context matches the file
/// at offset `i`, line for line.
pub open spec fn del_block_at(
    lines: Seq<Seq<char>>,
    del: Seq<Seq<char>>,
    i: int,
    mode: WhitespaceMode,
) -> bool {
    forall|j: int| 0 <= j < del.len() ==> #[trigger] block_line_ok(lines, del, i, mode, j)
}

/// Whether the pre-context of a hunk matches the file at offset `i`, line
/// for line.
pub open spec fn pre_at(
    lines: Seq<Seq<char>>,
    pre: Seq<Seq<char>>,
    i: int,
    mode: WhitespaceMode,
) -> bool {
    forall|k: int| 0 <= k < pre.len() ==> #[trigger] block_line_ok(lines, pre, i, mode, k)
}

/// Length of the trailing contiguous `Context` run of a line list.
pub open spec fn post_ctx_len(ls: Seq<(LineType, Seq<char>)>) -> nat
    decreases ls.len(),
{
    if ls.len() == 0 || !(ls.last().0 is Context) {
        0
    } else {
        1 + post_ctx_len(ls.drop_last())
    }
}

/// The trailing `Context` contents of a hunk with blank lines removed: its
/// post-context anchor candidates.
pub open spec fn post_ctx(c: ChunkView) -> Seq<Seq<char>> {
    c.lines.skip(c.lines.len() - post_ctx_len(c.lines)).map_values(
        |p: (LineType, Seq<char>)| p.1,
    ).filter(|s: Seq<char>| trim_ws(s).len() != 0)
}

/// Whether some line in a short window after the pre-context placed at `i`
/// matches the first non-blank post-context line of the hunk.
pub open spec fn post_anchor_ok(
    lines: Seq<Seq<char>>,
    c: ChunkView,
    i: int,
    mode: WhitespaceMode,
) -> bool {
    let anchor = post_ctx(c)[0];
    let start = i + c.pre_len();
    let windowed = start + c.pre_len() + 10;
    let end = if windowed <= lines.len() {
        windowed
    } else {
        lines.len() as int
    };
    exists|k: int| start <= k < end && #[trigger] anchor_hit(lines, c, mode, k)
}

/// Whether line `k` of the file matches the hunk's first non-blank
/// post-context line.
pub open spec fn anchor_hit(lines: Seq<Seq<char>>, c: ChunkView, mode: WhitespaceMode, k: int) -> bool {
    line_eq(lines[k], post_ctx(c)[0], mode)
}

/// The candidate offsets before post-context disambiguation: the sole
/// hint-derived offset for a pure insertion, every deletion-block match for
/// a hunk without pre-context, and every pre-context match otherwise.
pub open spec fn base_positions(
    lines: Seq<Seq<char>>,
    c: ChunkView,
    mode: WhitespaceMode,
) -> Seq<usize> {
    let pre = pre_ctx(c);
    if pre.len() == 0 {
        if c.del_lines.len() == 0 {
            seq![
                (if c.orig_index <= lines.len() {
                    c.orig_index
                } else {
                    lines.len() as int
                }) as usize,
            ]
        } else if lines.len() >= c.del_lines.len() {
            range_seq(lines.len() - c.del_lines.len() + 1).filter(
                |i: usize| del_block_at(lines, c.del_lines, i as int, mode),
            )
        } else {
            Seq::empty()
        }
    } else {
        range_seq(lines.len() - pre.len() + 1).filter(
            |i: usize| pre_at(lines, pre, i as int, mode),
        )
    }
}

/// The fallback offsets used only in `Lenient` mode with no post-context and
/// no base candidate: every match of the last pre-context line alone, pulled
/// back by the pre-context length, saturating at the start of the file.
pub open spec fn fallback_positions(lines: Seq<Seq<char>>, c: ChunkView) -> Seq<usize> {
    let pre = pre_ctx(c);
    let a = pre.len() - 1;
    range_seq(lines.len() as int).filter(
        |k: usize| line_eq(lines[k as int], pre.last(), WhitespaceMode::Lenient),
    ).map_values(
        |k: usize|
            if k >= a {
                (k - a) as usize
            } else {
                0
            },
    )
}

/// Every offset at which the hunk could be placed, in the order the search
/// tries them.
pub open spec fn match_positions(
    lines: Seq<Seq<char>>,
    c: ChunkView,
    mode: WhitespaceMode,
) -> Seq<usize> {
    let pre = pre_ctx(c);
    if pre.len() == 0 {
        base_positions(lines, c, mode)
    } else if lines.len() < pre.len() {
        Seq::empty()
    } else {
        let base = base_positions(lines, c, mode);
        let pc = post_ctx(c);
        let filtered = if c.del_lines.len() == 0 && c.ins_lines.len() > 0 && pc.len() > 0 {
            base.filter(|i: usize| post_anchor_ok(lines, c, i as int, mode))
        } else {
            base
        };
        if pc.len() == 0 && filtered.len() == 0 && mode is Lenient {
            fallback_positions(lines, c)
        } else {
            filtered
        }
    }
}

/// True when a line entry is a `Context` line.
fn line_is_context(p: &(LineType, String)) -> (r: bool)
    ensures
        r == (p.0 is Context),
{
    matches!(p.0, LineType::Context)
}

proof fn lemma_post_ctx_len_at(ls: Seq<(LineType, Seq<char>)>, i: int)
    requires
        0 <= i <= ls.len(),
        forall|k: int| ls.len() - i <= k < ls.len() ==> ls[k].0 is Context,
        i < ls.len() ==> !(ls[ls.len() - i - 1].0 is Context),
    ensures
        post_ctx_len(ls) == i,
    decreases i,
{
    if i == 0 {
    } else {
        assert(ls.last().0 is Context);
        lemma_post_ctx_len_at(ls.drop_last(), i - 1);
    }
}

/// The post-context gathered so far: contents of the `Context` entries in
/// `ls[a..t)` with blank lines removed.
pub open spec fn post_ctx_partial(ls: Seq<(LineType, Seq<char>)>, a: int, t: int) -> Seq<
    Seq<char>,
> {
    ls.subrange(a, t).map_values(|p: (LineType, Seq<char>)| p.1).filter(
        |s: Seq<char>| trim_ws(s).len() != 0,
    )
}

/// Collects the non-blank trailing `Context` contents of a hunk.
pub fn get_post_context_lines(chunk: &Chunk) -> (r: Vec<String>)
    ensures
        r.deep_view() == post_ctx(chunk@),
{
    let n = chunk.lines.len();
    proof {
        assert(chunk@.lines.len() == n);
    }
    let mut q: usize = 0;
    while q < n && line_is_context(&chunk.lines[n - 1 - q])
        invariant
            n == chunk.lines.len() == chunk@.lines.len(),
            q <= n,
            forall|k: int| n - q <= k < n ==> chunk@.lines[k].0 is Context,
        decreases n - q,
    {
        proof {
            let k = n - 1 - q;
            assert(chunk@.lines[k as int] == (chunk.lines@[k as int].0, chunk.lines@[k as int].1@));
        }
        q += 1;
    }
    proof {
        if q < n {
            let k = n - 1 - q;
            assert(chunk@.lines[k as int] == (chunk.lines@[k as int].0, chunk.lines@[k as int].1@));
        }
        lemma_post_ctx_len_at(chunk@.lines, q as int);
    }
    let a = n - q;
    let mut r: Vec<String> = Vec::new();
    let mut t: usize = a;
    proof {
        assert(chunk@.lines.subrange(a as int, a as int) =~= Seq::<(LineType, Seq<char>)>::empty());
        assert(Seq::<(LineType, Seq<char>)>::empty().map_values(
            |p: (LineType, Seq<char>)| p.1,
        ) =~= Seq::<Seq<char>>::empty());
        reveal(Seq::filter);
    }
    while t < n
        invariant
            a <= t <= n,
            n == chunk.lines.len() == chunk@.lines.len(),
            r.deep_view() == post_ctx_partial(chunk@.lines, a as int, t as int),
        decreases n - t,
    {
        let ghost pre_sub = chunk@.lines.subrange(a as int, t as int).map_values(
            |p: (LineType, Seq<char>)| p.1,
        );
        let line = &chunk.lines[t];
        proof {
            assert(chunk@.lines[t as int] == (chunk.lines@[t as int].0, chunk.lines@[t as int].1@));
            assert(chunk@.lines.subrange(a as int, t + 1) =~= chunk@.lines.subrange(
                a as int,
                t as int,
            ).push(chunk@.lines[t as int]));
            assert(chunk@.lines.subrange(a as int, t + 1).map_values(
                |p: (LineType, Seq<char>)| p.1,
            ) =~= pre_sub.push(chunk@.lines[t as int].1));
            lemma_filter_push(pre_sub, chunk@.lines[t as int].1, |s: Seq<char>| trim_ws(s).len() != 0);
        }
        if !crate::text::is_blank(line.1.as_str()) {
            let ghost prev = r.deep_view();
            r.push(line.1.clone());
            proof {
                assert(r.deep_view() =~~= prev.push(chunk.lines@[t as int].1@));
            }
        }
        t += 1;
    }
    proof {
        assert(chunk@.lines.subrange(a as int, n as int) =~= chunk@.lines.skip(
            chunk@.lines.len() - post_ctx_len(chunk@.lines),
        ));
    }
    r
}

/// Checks whether the block `block` matches the file at offset `i`, line
/// for line, under the given mode.
fn block_matches_at(lines: &Vec<String>, block: &Vec<String>, i: usize, mode: WhitespaceMode) -> (r:
    bool)
    requires
        i + block@.len() <= lines@.len(),
    ensures
        r == del_block_at(lines.deep_view(), block.deep_view(), i as int, mode),
        r == pre_at(lines.deep_view(), block.deep_view(), i as int, mode),
{
    let ghost d = lines.deep_view();
    let ghost b = block.deep_view();
    let m = block.len();
    let n = lines.len();
    proof {
        assert(b.len() == m);
        assert(d.len() == lines@.len());
    }
    let mut j: usize = 0;
    while j < m
        invariant
            m == block.len() == b.len(),
            n == lines@.len(),
            i + m <= lines@.len(),
            d == lines.deep_view(),
            b == block.deep_view(),
            d.len() == lines@.len(),
            j <= m,
            forall|k: int| 0 <= k < j ==> #[trigger] block_line_ok(d, b, i as int, mode, k),
        decreases m - j,
    {
        proof {
            assert(d[i + j] == lines@[i + j]@);
            assert(b[j as int] == block@[j as int]@);
        }
        let matched = match_line(&lines[i + j], &block[j], mode);
        proof {
            if matched {
                assert(block_line_ok(d, b, i as int, mode, j as int));
            }
        }
        if !matched {
            proof {
                if del_block_at(d, b, i as int, mode) {
                    assert(block_line_ok(d, b, i as int, mode, j as int));
                }
                if pre_at(d, b, i as int, mode) {
                    assert(block_line_ok(d, b, i as int, mode, j as int));
                }
            }
            return false;
        }
        j += 1;
    }
    proof {
        assert forall|j2: int| 0 <= j2 < b.len() implies #[trigger] block_line_ok(
            d,
            b,
            i as int,
            mode,
            j2,
        ) by {
            assert(0 <= j2 < m);
        }
    }
    true
}

/// Enumerates every offset at which the hunk could be placed: the
/// hint-derived offset for a pure insertion, every deletion-block match for
/// a hunk without leading context, and every pre-context match otherwise,
/// disambiguated by the trailing context of a pure insertion and, in
/// `Lenient` mode only, falling back to a one-line anchor scan.
pub fn find_match_positions(lines: &Vec<String>, chunk: &Chunk, mode: WhitespaceMode) -> (r: Vec<
    usize,
>)
    ensures
        r@ == match_positions(lines.deep_view(), chunk@, mode),
        forall|t: int| 0 <= t < r@.len() ==> r@[t] <= lines@.len(),
{
    let ghost d = lines.deep_view();
    let n = lines.len();
    proof {
        assert(d.len() == n);
    }
    let pre = get_pre_context_lines(chunk);
    let mut positions: Vec<usize> = Vec::new();
    if pre.len() == 0 {
        if chunk.del_lines.is_empty() {
            proof {
                assert(chunk@.del_lines.len() == 0);
            }
            let p = if chunk.orig_index < n {
                chunk.orig_index
            } else {
                n
            };
            positions.push(p);
            proof {
                assert(positions@ =~= match_positions(d, chunk@, mode));
            }
            return positions;
        }
        let del_len = chunk.del_lines.len();
        proof {
            assert(chunk@.del_lines.len() == del_len);
        }
        if n >= del_len {
            let max = n - del_len;
            let ghost pred = |x: usize| del_block_at(d, chunk@.del_lines, x as int, mode);
            let mut i: usize = 0;
            proof {
                assert(range_seq(0).filter(pred) =~= Seq::<usize>::empty());
                reveal(Seq::filter);
            }
            while i <= max
                invariant
                    max == n - del_len,
                    del_len == chunk.del_lines.len(),
                    del_len >= 1,
                    n == lines.len() == lines@.len(),
                    d == lines.deep_view(),
                    chunk@.del_lines == chunk.del_lines.deep_view(),
                    i <= max + 1,
                    pred == (|x: usize| del_block_at(d, chunk@.del_lines, x as int, mode)),
                    positions@ == range_seq(i as int).filter(pred),
                    forall|t: int| 0 <= t < positions@.len() ==> positions@[t] <= max,
                decreases max + 1 - i,
            {
                let ok = block_matches_at(lines, &chunk.del_lines, i, mode);
                proof {
                    assert(range_seq(i + 1) =~= range_seq(i as int).push(i));
                    lemma_filter_push(range_seq(i as int), i, pred);
                }
                if ok {
                    positions.push(i);
                }
                i += 1;
            }
            proof {
                assert(positions@ == match_positions(d, chunk@, mode));
            }
        } else {
            proof {
                assert(positions@ =~= match_positions(d, chunk@, mode));
            }
        }
        return positions;
    }
    let clen = pre.len();
    proof {
        assert(pre_ctx(chunk@).len() == clen);
    }
    if n < clen {
        proof {
            assert(positions@ =~= match_positions(d, chunk@, mode));
        }
        return positions;
    }
    let max_start = n - clen;
    let ghost pred = |x: usize| pre_at(d, pre_ctx(chunk@), x as int, mode);
    let mut i: usize = 0;
    proof {
        assert(range_seq(0).filter(pred) =~= Seq::<usize>::empty());
        reveal(Seq::filter);
    }
    while i <= max_start
        invariant
            max_start == n - clen,
            clen == pre.len(),
            clen >= 1,
            n == lines.len() == lines@.len(),
            d == lines.deep_view(),
            pre.deep_view() == pre_ctx(chunk@),
            i <= max_start + 1,
            pred == (|x: usize| pre_at(d, pre_ctx(chunk@), x as int, mode)),
            positions@ == range_seq(i as int).filter(pred),
            forall|t: int| 0 <= t < positions@.len() ==> positions@[t] <= max_start,
        decreases max_start + 1 - i,
    {
        let ok = block_matches_at(lines, &pre, i, mode);
        proof {
            assert(range_seq(i + 1) =~= range_seq(i as int).push(i));
            lemma_filter_push(range_seq(i as int), i, pred);
        }
        if ok {
            positions.push(i);
        }
        i += 1;
    }
    proof {
        assert(positions@ == base_positions(d, chunk@, mode));
    }
    let post_context = get_post_context_lines(chunk);

    if chunk.del_lines.is_empty() && !chunk.ins_lines.is_empty() && !post_context.is_empty() {
        let anchor = &post_context[0];
        proof {
            assert(anchor@ == post_ctx(chunk@)[0]);
            assert(chunk@.del_lines.len() == 0);
            assert(chunk@.ins_lines.len() == chunk.ins_lines@.len());
        }
        let pre_full_len = pre.len();
        let ghost apred = |x: usize| post_anchor_ok(d, chunk@, x as int, mode);
        let ghost base = positions@;
        let mut filtered: Vec<usize> = Vec::new();
        let mut t: usize = 0;
        proof {
            assert(base.take(0).filter(apred) =~= Seq::<usize>::empty());
            reveal(Seq::filter);
        }
        while t < positions.len()
            invariant
                base == positions@,
                t <= positions@.len(),
                n == lines.len() == lines@.len(),
                d == lines.deep_view(),
                pre_full_len == pre_ctx(chunk@).len() >= 1,
                pre_full_len == chunk@.pre_len(),
                chunk@.del_lines.len() == 0,
                apred == (|x: usize| post_anchor_ok(d, chunk@, x as int, mode)),
                anchor@ == post_ctx(chunk@)[0],
                filtered@ == base.take(t as int).filter(apred),
                forall|u: int| 0 <= u < positions@.len() ==> positions@[u] + pre_full_len
                    <= lines@.len(),
                forall|u: int| 0 <= u < filtered@.len() ==> filtered@[u] <= lines@.len(),
            decreases positions@.len() - t,
        {
            let pos = positions[t];
            let start = pos + pre_full_len;
            let windowed = start.saturating_add(pre_full_len).saturating_add(10);
            let end = if windowed < n {
                windowed
            } else {
                n
            };
            let ghost send = if start + pre_full_len + 10 <= d.len() {
                start + pre_full_len + 10
            } else {
                d.len() as int
            };
            proof {
                assert(send == end as int);
            }
            let mut k: usize = start;
            let mut hit = false;
            while k < end && !hit
                invariant
                    start <= k <= end || (start > end && k == start),
                    end as int == send,
                    n == lines.len() == lines@.len(),
                    d == lines.deep_view(),
                    end <= n,
                    anchor@ == post_ctx(chunk@)[0],
                    hit ==> exists|k2: int|
                        start <= k2 < send && #[trigger] anchor_hit(d, chunk@, mode, k2),
                    !hit ==> forall|k2: int|
                        start <= k2 < k ==> !(#[trigger] anchor_hit(d, chunk@, mode, k2)),
                decreases end - k,
            {
                proof {
                    assert(d[k as int] == lines@[k as int]@);
                }
                if match_line(&lines[k], anchor, mode) {
                    proof {
                        assert(anchor_hit(d, chunk@, mode, k as int));
                    }
                    hit = true;
                } else {
                    proof {
                        assert(!anchor_hit(d, chunk@, mode, k as int));
                    }
                }
                k += 1;
            }
            proof {
                assert(hit == post_anchor_ok(d, chunk@, pos as int, mode));
                assert(base.take(t + 1) =~= base.take(t as int).push(base[t as int]));
                lemma_filter_push(base.take(t as int), base[t as int], apred);
            }
            if hit {
                filtered.push(pos);
            }
            t += 1;
        }
        proof {
            assert(base.take(base.len() as int) =~= base);
        }
        positions = filtered;
    }

    if post_context.is_empty() && positions.is_empty() && matches!(mode, WhitespaceMode::Lenient) {
        proof {
            assert(post_ctx(chunk@).len() == 0);
        }
        let anchor_idx = pre.len() - 1;
        let anchor_line = &pre[anchor_idx];
        proof {
            assert(anchor_line@ == pre_ctx(chunk@).last());
        }
        let ghost fpred = |k: usize| line_eq(d[k as int], pre_ctx(chunk@).last(), WhitespaceMode::Lenient);
        let ghost fmap = |k: usize|
            if k >= pre_ctx(chunk@).len() - 1 {
                (k - (pre_ctx(chunk@).len() - 1)) as usize
            } else {
                0
            };
        let mut k: usize = 0;
        proof {
            assert(range_seq(0).filter(fpred).map_values(fmap) =~= Seq::<usize>::empty());
            reveal(Seq::filter);
        }
        while k < n
            invariant
                n == lines.len() == lines@.len(),
                d == lines.deep_view(),
                anchor_idx == pre_ctx(chunk@).len() - 1,
                anchor_idx < pre.len(),
                pre.deep_view() == pre_ctx(chunk@),
                anchor_line@ == pre_ctx(chunk@).last(),
                k <= n,
                fpred == (|k2: usize| line_eq(
                    d[k2 as int],
                    pre_ctx(chunk@).last(),
                    WhitespaceMode::Lenient,
                )),
                fmap == (|k2: usize|
                    if k2 >= pre_ctx(chunk@).len() - 1 {
                        (k2 - (pre_ctx(chunk@).len() - 1)) as usize
                    } else {
                        0
                    }),
                positions@ == range_seq(k as int).filter(fpred).map_values(fmap),
                forall|t2: int| 0 <= t2 < positions@.len() ==> positions@[t2] <= lines@.len(),
            decreases n - k,
        {
            proof {
                assert(d[k as int] == lines@[k as int]@);
                assert(range_seq(k + 1) =~= range_seq(k as int).push(k));
                lemma_filter_push(range_seq(k as int), k, fpred);
                assert(range_seq(k as int).filter(fpred).push(k).map_values(fmap)
                    =~= range_seq(k as int).filter(fpred).map_values(fmap).push(fmap(k)));
            }
            if match_line(&lines[k], anchor_line, WhitespaceMode::Lenient) {
                let v = k.saturating_sub(anchor_idx);
                proof {
                    assert(v == fmap(k));
                }
                positions.push(v);
            }
            k += 1;
        }
        proof {
            assert(positions@ == fallback_positions(d, chunk@));
            assert(positions@ == match_positions(d, chunk@, mode));
        }
        return positions;
    }
    proof {
        assert(positions@ == match_positions(d, chunk@, mode));
    }
    positions
}

/// Copies a slice of lines into a fresh vector.
fn clone_lines(lines: &[String]) -> (r: Vec<String>)
    ensures
        r@ == lines@,
{
    let n = lines.len();
    let mut r: Vec<String> = Vec::new();
    let mut i: usize = 0;
    while i < n
        invariant
            n == lines@.len(),
            i <= n,
            r@ == lines@.take(i as int),
        decreases n - i,
    {
        r.push(lines[i].clone());
        proof {
            assert(lines@.take(i + 1) =~= lines@.take(i as int).push(lines@[i as int]));
        }
        i += 1;
    }
    proof {
        assert(lines@.take(n as int) =~= lines@);
    }
    r
}

/// Copies a placement list.
fn clone_path(path: &Vec<(usize, usize)>) -> (r: Vec<(usize, usize)>)
    ensures
        r@ == path@,
{
    let n = path.len();
    let mut r: Vec<(usize, usize)> = Vec::new();
    let mut i: usize = 0;
    while i < n
        invariant
            n == path@.len(),
            i <= n,
            r@ == path@.take(i as int),
        decreases n - i,
    {
        let e = path[i];
        r.push(e);
        proof {
            assert(path@.take(i + 1) =~= path@.take(i as int).push(path@[i as int]));
        }
        i += 1;
    }
    proof {
        assert(path@.take(n as int) =~= path@);
    }
    r
}

/// The file lines after one hunk is applied at (possibly shifted) offset
/// `pos`: the prefix before the effective pre-context, then the insertion
/// lines, then everything after the deletion block, each boundary clipped to
/// the current length.
pub open spec fn apply_chunk_spec(
    lines: Seq<Seq<char>>,
    c: ChunkView,
    pos: int,
    mode: WhitespaceMode,
) -> Seq<Seq<char>> {
    let a = adj_pre(c, mode);
    let start = if pos + a <= lines.len() {
        pos + a
    } else {
        lines.len() as int
    };
    let endd = if pos + a + c.del_lines.len() <= lines.len() {
        pos + a + c.del_lines.len()
    } else {
        lines.len() as int
    };
    lines.take(start) + c.ins_lines + lines.skip(endd)
}

/// Applies one hunk to the lines at offset `pos`.
pub fn apply_chunk(lines: &Vec<String>, chunk: &Chunk, pos: usize, mode: WhitespaceMode) -> (r:
    Vec<String>)
    ensures
        r.deep_view() == apply_chunk_spec(lines.deep_view(), chunk@, pos as int, mode),
{
    let ghost d = lines.deep_view();
    let n = lines.len();
    proof {
        assert(d.len() == n);
    }
    let adj = adj_pre_len(chunk, mode);
    let s0 = pos.saturating_add(adj);
    let start_copy = if s0 < n {
        s0
    } else {
        n
    };
    let e0 = s0.saturating_add(chunk.del_lines.len());
    let end_del = if e0 < n {
        e0
    } else {
        n
    };
    proof {
        assert(chunk@.del_lines.len() == chunk.del_lines@.len());
        assert(start_copy as int == if pos + adj_pre(chunk@, mode) <= d.len() {
            pos + adj_pre(chunk@, mode)
        } else {
            d.len() as int
        });
        assert(end_del as int == if pos + adj_pre(chunk@, mode) + chunk@.del_lines.len()
            <= d.len() {
            pos + adj_pre(chunk@, mode) + chunk@.del_lines.len()
        } else {
            d.len() as int
        });
    }
    let mut r: Vec<String> = Vec::new();
    let mut i: usize = 0;
    while i < start_copy
        invariant
            start_copy <= n == lines@.len(),
            d == lines.deep_view(),
            i <= start_copy,
            r.deep_view() == d.take(i as int),
        decreases start_copy - i,
    {
        let ghost prev = r.deep_view();
        r.push(lines[i].clone());
        proof {
            assert(r.deep_view() =~~= prev.push(d[i as int]));
            assert(d.take(i + 1) =~= d.take(i as int).push(d[i as int]));
        }
        i += 1;
    }
    let m = chunk.ins_lines.len();
    let mut j: usize = 0;
    while j < m
        invariant
            m == chunk.ins_lines.len(),
            chunk@.ins_lines.len() == m,
            start_copy <= n == lines@.len(),
            d == lines.deep_view(),
            j <= m,
            r.deep_view() == d.take(start_copy as int) + chunk@.ins_lines.take(j as int),
        decreases m - j,
    {
        let ghost prev = r.deep_view();
        r.push(chunk.ins_lines[j].clone());
        proof {
            assert(chunk@.ins_lines[j as int] == chunk.ins_lines@[j as int]@);
            assert(r.deep_view() =~~= prev.push(chunk@.ins_lines[j as int]));
            assert(d.take(start_copy as int) + chunk@.ins_lines.take(j + 1) =~= (d.take(
                start_copy as int,
            ) + chunk@.ins_lines.take(j as int)).push(chunk@.ins_lines[j as int]));
        }
        j += 1;
    }
    proof {
        assert(chunk@.ins_lines.take(m as int) =~= chunk@.ins_lines);
    }
    let mut k: usize = end_del;
    while k < n
        invariant
            end_del <= n == lines@.len(),
            chunk@.ins_lines.len() == m,
            d == lines.deep_view(),
            end_del <= k <= n,
            r.deep_view() == d.take(start_copy as int) + chunk@.ins_lines + d.subrange(
                end_del as int,
                k as int,
            ),
        decreases n - k,
    {
        let ghost prev = r.deep_view();
        r.push(lines[k].clone());
        proof {
            assert(r.deep_view() =~~= prev.push(d[k as int]));
            assert(d.subrange(end_del as int, k + 1) =~= d.subrange(end_del as int, k as int).push(
                d[k as int],
            ));
            assert(d.take(start_copy as int) + chunk@.ins_lines + d.subrange(
                end_del as int,
                k + 1,
            ) =~= (d.take(start_copy as int) + chunk@.ins_lines + d.subrange(
                end_del as int,
                k as int,
            )).push(d[k as int]));
        }
        k += 1;
    }
    proof {
        assert(d.subrange(end_del as int, n as int) =~= d.skip(end_del as int));
        assert(r.deep_view() =~= apply_chunk_spec(d, chunk@, pos as int, mode));
    }
    r
}

/// A placement inserted into a position-sorted placement list, after every
/// entry whose offset is not greater: the step of a stable insertion sort.
pub open spec fn insert_by_pos(s: Seq<(usize, usize)>, x: (usize, usize)) -> Seq<(usize, usize)>
    decreases s.len(),
{
    if s.len() == 0 {
        seq![x]
    } else if s.last().1 <= x.1 {
        s.push(x)
    } else {
        insert_by_pos(s.drop_last(), x).push(s.last())
    }
}

/// A placement list stably sorted by ascending offset; entries with equal
/// offsets keep their input order.
pub open spec fn sort_by_pos(s: Seq<(usize, usize)>) -> Seq<(usize, usize)>
    decreases s.len(),
{
    if s.len() == 0 {
        Seq::empty()
    } else {
        insert_by_pos(sort_by_pos(s.drop_last()), s.last())
    }
}

proof fn lemma_insert_by_pos_at(s: Seq<(usize, usize)>, x: (usize, usize), j: int)
    requires
        0 <= j <= s.len(),
        forall|k: int| j <= k < s.len() ==> (#[trigger] s[k]).1 > x.1,
        j > 0 ==> s[j - 1].1 <= x.1,
    ensures
        insert_by_pos(s, x) == s.take(j) + seq![x] + s.skip(j),
    decreases s.len(),
{
    if j == s.len() {
        if s.len() == 0 {
            assert(insert_by_pos(s, x) =~= s.take(j) + seq![x] + s.skip(j));
        } else {
            assert(s.last().1 <= x.1);
            assert(s.push(x) =~= s.take(j) + seq![x] + s.skip(j));
        }
    } else {
        assert(s[s.len() - 1].1 > x.1);
        lemma_insert_by_pos_at(s.drop_last(), x, j);
        assert(s.drop_last().take(j) =~= s.take(j));
        assert((s.drop_last().take(j) + seq![x] + s.drop_last().skip(j)).push(s.last()) =~= s.take(
            j,
        ) + seq![x] + s.skip(j));
    }
}

/// Sorts a placement list by ascending offset with a stable insertion sort.
pub fn sort_placements_by_pos(v: &Vec<(usize, usize)>) -> (r: Vec<(usize, usize)>)
    ensures
        r@ == sort_by_pos(v@),
{
    let n = v.len();
    let mut r: Vec<(usize, usize)> = Vec::new();
    let mut t: usize = 0;
    while t < n
        invariant
            n == v@.len(),
            t <= n,
            r@ == sort_by_pos(v@.take(t as int)),
            r@.len() == t,
            forall|a: int, b: int| 0 <= a < b < r@.len() ==> (#[trigger] r@[a]).1 <= (#[trigger] r@[b]).1,
        decreases n - t,
    {
        let x = v[t];
        let mut j: usize = r.len();
        while j > 0 && r[j - 1].1 > x.1
            invariant
                j <= r@.len(),
                forall|k: int| j <= k < r@.len() ==> (#[trigger] r@[k]).1 > x.1,
                forall|a: int, b: int| 0 <= a < b < r@.len() ==> (#[trigger] r@[a]).1 <= (
                #[trigger] r@[b]).1,
            decreases j,
        {
            j -= 1;
        }
        let ghost prev = r@;
        r.insert(j, x);
        proof {
            lemma_insert_by_pos_at(prev, x, j as int);
            assert(r@ =~= prev.take(j as int) + seq![x] + prev.skip(j as int));
            assert(v@.take(t + 1).drop_last() =~= v@.take(t as int));
            assert(r@ == insert_by_pos(sort_by_pos(v@.take(t as int)), x));
            assert forall|a: int, b: int| 0 <= a < b < r@.len() implies (#[trigger] r@[a]).1 <= (
            #[trigger] r@[b]).1 by {
                if b < j {
                } else if a < j && b == j {
                    if a < j - 1 {
                        assert(prev[a].1 <= prev[j - 1].1);
                    }
                } else if a < j && b > j {
                    assert(prev[b - 1].1 > x.1);
                } else if a == j {
                    assert(prev[b - 1].1 > x.1);
                } else {
                }
            }
        }
        t += 1;
    }
    proof {
        assert(v@.take(n as int) =~= v@);
    }
    r
}

/// The position a placement shifts to after earlier replays changed the
/// length by `delta`, clamped to the representable range.
pub open spec fn clamp_pos(opos: int, delta: int) -> int {
    let p = opos + delta;
    if p < 0 {
        0
    } else if p > usize::MAX {
        usize::MAX as int
    } else {
        p
    }
}

/// An integer clipped to the range of `i128`.
pub open spec fn sat_i128(x: int) -> int {
    if x > i128::MAX {
        i128::MAX as int
    } else if x < i128::MIN {
        i128::MIN as int
    } else {
        x
    }
}

fn sat_add_i128(a: i128, b: i128) -> (r: i128)
    ensures
        r as int == sat_i128(a + b),
{
    match a.checked_add(b) {
        Some(x) => x,
        None => {
            if b > 0 {
                i128::MAX
            } else {
                i128::MIN
            }
        },
    }
}

fn shifted_pos(opos: usize, delta: i128) -> (r: usize)
    ensures
        r as int == clamp_pos(opos as int, delta as int),
{
    if delta >= 0 {
        match (opos as i128).checked_add(delta) {
            Some(x) => {
                if x > usize::MAX as i128 {
                    usize::MAX
                } else {
                    x as usize
                }
            },
            None => usize::MAX,
        }
    } else {
        let s = opos as i128 + delta;
        if s < 0 {
            0
        } else {
            s as usize
        }
    }
}

/// The file lines after replaying a list of placements in order, tracking
/// the running length change `delta` and shifting each original offset by
/// it.
pub open spec fn replay_spec(
    lines: Seq<Seq<char>>,
    chunks: Seq<ChunkView>,
    ordered: Seq<(usize, usize)>,
    delta: int,
    mode: WhitespaceMode,
) -> Seq<Seq<char>>
    decreases ordered.len(),
{
    if ordered.len() == 0 {
        lines
    } else {
        let c = chunks[ordered[0].0 as int];
        let p = clamp_pos(ordered[0].1 as int, delta);
        replay_spec(
            apply_chunk_spec(lines, c, p, mode),
            chunks,
            ordered.skip(1),
            sat_i128(delta + c.ins_lines.len() - c.del_lines.len()),
            mode,
        )
    }
}

/// Replays an offset-ordered placement list over the lines.
pub fn replay_chunks(
    lines: &Vec<String>,
    chunks: &[Chunk],
    ordered: &Vec<(usize, usize)>,
    mode: WhitespaceMode,
) -> (r: Vec<String>)
    requires
        forall|t: int| 0 <= t < ordered@.len() ==> (#[trigger] ordered@[t]).0 < chunks@.len(),
    ensures
        r.deep_view() == replay_spec(lines.deep_view(), chunks.deep_view(), ordered@, 0, mode),
{
    let mut result = clone_lines(lines.as_slice());
    proof {
        assert(result.deep_view() =~~= lines.deep_view());
    }
    let mut delta: i128 = 0;
    let n = ordered.len();
    let mut t: usize = 0;
    proof {
        assert(ordered@.skip(0) =~= ordered@);
    }
    while t < n
        invariant
            n == ordered@.len(),
            t <= n,
            forall|u: int| 0 <= u < ordered@.len() ==> (#[trigger] ordered@[u]).0 < chunks@.len(),
            replay_spec(lines.deep_view(), chunks.deep_view(), ordered@, 0, mode) == replay_spec(
                result.deep_view(),
                chunks.deep_view(),
                ordered@.skip(t as int),
                delta as int,
                mode,
            ),
        decreases n - t,
    {
        let (chunk_idx, orig_pos) = ordered[t];
        let chunk = &chunks[chunk_idx];
        let p = shifted_pos(orig_pos, delta);
        let next = apply_chunk(&result, chunk, p, mode);
        let diff = chunk.ins_lines.len() as i128 - chunk.del_lines.len() as i128;
        let delta2 = sat_add_i128(delta, diff);
        proof {
            let co = ordered@.skip(t as int);
            assert(co[0] == ordered@[t as int]);
            assert(co.skip(1) =~= ordered@.skip(t + 1));
            assert(chunks.deep_view()[chunk_idx as int] == chunks@[chunk_idx as int]@);
            assert(chunk@.ins_lines.len() == chunk.ins_lines@.len());
            assert(chunk@.del_lines.len() == chunk.del_lines@.len());
            assert(delta2 as int == sat_i128(
                delta + chunk@.ins_lines.len() - chunk@.del_lines.len(),
            ));
        }
        result = next;
        delta = delta2;
        t += 1;
    }
    proof {
        assert(ordered@.skip(n as int) =~= Seq::<(usize, usize)>::empty());
    }
    result
}

/// The set of hunk indices a placement list has placed.
pub open spec fn applied_set(path: Seq<(usize, usize)>) -> Set<usize>
    decreases path.len(),
{
    if path.len() == 0 {
        Set::empty()
    } else {
        applied_set(path.drop_last()).insert(path.last().0)
    }
}

/// The union of the deletion footprints of a placement list.
pub open spec fn claimed_set(
    chunks: Seq<ChunkView>,
    path: Seq<(usize, usize)>,
    mode: WhitespaceMode,
) -> Set<usize>
    decreases path.len(),
{
    if path.len() == 0 {
        Set::empty()
    } else {
        claimed_set(chunks, path.drop_last(), mode) + footprint(
            chunks[path.last().0 as int],
            path.last().1 as int,
            mode,
        )
    }
}

proof fn lemma_applied_set_contains(path: Seq<(usize, usize)>, c: usize)
    ensures
        applied_set(path).contains(c) <==> exists|t: int|
            0 <= t < path.len() && (#[trigger] path[t]).0 == c,
    decreases path.len(),
{
    if path.len() > 0 {
        let dl = path.drop_last();
        lemma_applied_set_contains(dl, c);
        if applied_set(path).contains(c) {
            if path.last().0 == c {
                assert(path[path.len() - 1].0 == c);
            } else {
                let t = choose|t: int| 0 <= t < dl.len() && (#[trigger] dl[t]).0 == c;
                assert(path[t].0 == c);
            }
        }
        if exists|t: int| 0 <= t < path.len() && (#[trigger] path[t]).0 == c {
            let t = choose|t: int| 0 <= t < path.len() && (#[trigger] path[t]).0 == c;
            if t < path.len() - 1 {
                assert(dl[t].0 == c);
            }
        }
    }
}

proof fn lemma_claimed_set_contains(
    chunks: Seq<ChunkView>,
    path: Seq<(usize, usize)>,
    mode: WhitespaceMode,
    u: usize,
)
    ensures
        claimed_set(chunks, path, mode).contains(u) <==> exists|t: int|
            0 <= t < path.len() && footprint(
                chunks[(#[trigger] path[t]).0 as int],
                path[t].1 as int,
                mode,
            ).contains(u),
    decreases path.len(),
{
    if path.len() > 0 {
        let dl = path.drop_last();
        lemma_claimed_set_contains(chunks, dl, mode, u);
        if claimed_set(chunks, path, mode).contains(u) {
            if footprint(chunks[path.last().0 as int], path.last().1 as int, mode).contains(u) {
                assert(footprint(
                    chunks[path[path.len() - 1].0 as int],
                    path[path.len() - 1].1 as int,
                    mode,
                ).contains(u));
            } else {
                let t = choose|t: int|
                    0 <= t < dl.len() && footprint(
                        chunks[(#[trigger] dl[t]).0 as int],
                        dl[t].1 as int,
                        mode,
                    ).contains(u);
                assert(path[t] == dl[t]);
                assert(footprint(chunks[path[t].0 as int], path[t].1 as int, mode).contains(u));
            }
        }
        if exists|t: int|
            0 <= t < path.len() && footprint(
                chunks[(#[trigger] path[t]).0 as int],
                path[t].1 as int,
                mode,
            ).contains(u) {
            let t = choose|t: int|
                0 <= t < path.len() && footprint(
                    chunks[(#[trigger] path[t]).0 as int],
                    path[t].1 as int,
                    mode,
                ).contains(u);
            if t < path.len() - 1 {
                assert(dl[t] == path[t]);
                assert(footprint(chunks[dl[t].0 as int], dl[t].1 as int, mode).contains(u));
            }
        }
    }
}

/// Whether placing hunk `ci` at offset `pos` is acceptable: the hunk exists
/// and its deletion block matches the file there.
pub open spec fn placement_ok(
    lines: Seq<Seq<char>>,
    chunks: Seq<ChunkView>,
    ci: int,
    pos: int,
    mode: WhitespaceMode,
) -> bool {
    &&& 0 <= ci < chunks.len()
    &&& pos >= 0
    &&& del_matches_at(lines, chunks[ci], pos, mode)
}

/// Whether the `t`-th entry of a placement list is an acceptable placement.
pub open spec fn place_ok_at(
    lines: Seq<Seq<char>>,
    chunks: Seq<ChunkView>,
    path: Seq<(usize, usize)>,
    mode: WhitespaceMode,
    t: int,
) -> bool {
    placement_ok(lines, chunks, path[t].0 as int, path[t].1 as int, mode)
}

/// Whether the `t`-th and `u`-th entries of a placement list place different
/// hunks with disjoint deletion footprints.
pub open spec fn pair_ok(
    chunks: Seq<ChunkView>,
    path: Seq<(usize, usize)>,
    mode: WhitespaceMode,
    t: int,
    u: int,
) -> bool {
    &&& path[t].0 != path[u].0
    &&& footprint(chunks[path[t].0 as int], path[t].1 as int, mode).disjoint(
        footprint(chunks[path[u].0 as int], path[u].1 as int, mode),
    )
}

/// A placement list is acceptable when every entry is an acceptable
/// placement, no hunk is placed twice, and deletion footprints are pairwise
/// disjoint.
pub open spec fn path_ok(
    lines: Seq<Seq<char>>,
    chunks: Seq<ChunkView>,
    path: Seq<(usize, usize)>,
    mode: WhitespaceMode,
) -> bool {
    &&& forall|t: int| 0 <= t < path.len() ==> #[trigger] place_ok_at(lines, chunks, path, mode, t)
    &&& forall|t: int, u: int|
        0 <= t < u < path.len() ==> #[trigger] pair_ok(chunks, path, mode, t, u)
}

/// The search state agrees with the placement list on the current path: the
/// applied set is exactly the placed hunks and the claimed indices are
/// exactly the union of their footprints.
pub open spec fn search_state_ok(
    lines: Seq<Seq<char>>,
    chunks: Seq<ChunkView>,
    st: BacktrackingState,
    path: Seq<(usize, usize)>,
    mode: WhitespaceMode,
) -> bool {
    &&& path_ok(lines, chunks, path, mode)
    &&& st.applied_chunks@ == applied_set(path)
    &&& st.modified_indices@ == claimed_set(chunks, path, mode)
    &&& path.len() <= chunks.len()
}

/// When exactly one solution has been recorded, it is a complete acceptable
/// placement of every hunk and the stored output is its replay in ascending
/// offset order.
pub open spec fn solution_ok(
    lines: Seq<Seq<char>>,
    chunks: Seq<ChunkView>,
    st: BacktrackingState,
    mode: WhitespaceMode,
) -> bool {
    st.solution_count == 1 ==> {
        &&& st.solution_path is Some
        &&& st.first_solution_result is Some
        &&& st.solution_path->0@.len() == chunks.len()
        &&& path_ok(lines, chunks, st.solution_path->0@, mode)
        &&& st.first_solution_result->0.deep_view() == replay_spec(
            lines,
            chunks,
            sort_by_pos(st.solution_path->0@),
            0,
            mode,
        )
    }
}

proof fn lemma_take_to_set_push(s: Seq<usize>, k: int)
    requires
        0 <= k < s.len(),
    ensures
        s.take(k + 1).to_set() == s.take(k).to_set().insert(s[k]),
{
    assert forall|a: usize| s.take(k + 1).to_set().contains(a) implies s.take(k).to_set().insert(
        s[k],
    ).contains(a) by {
        let i = choose|i: int| 0 <= i < s.take(k + 1).len() && #[trigger] s.take(k + 1)[i] == a;
        if i < k {
            assert(s.take(k)[i] == a);
            assert(s.take(k).contains(a));
        }
    }
    assert forall|a: usize| s.take(k).to_set().insert(s[k]).contains(a) implies s.take(
        k + 1,
    ).to_set().contains(a) by {
        if s.take(k).to_set().contains(a) {
            let i = choose|i: int| 0 <= i < s.take(k).len() && #[trigger] s.take(k)[i] == a;
            assert(s.take(k + 1)[i] == a);
            assert(s.take(k + 1).contains(a));
        } else {
            assert(s.take(k + 1)[k] == a);
            assert(s.take(k + 1).contains(a));
        }
    }
    assert(s.take(k + 1).to_set() =~= s.take(k).to_set().insert(s[k]));
}

/// Inserts the listed indices into a set.
fn add_indices(set: &mut std::collections::HashSet<usize>, idxs: &Vec<usize>)
    ensures
        final(set)@ == old(set)@ + idxs@.to_set(),
{
    broadcast use vstd::std_specs::hash::group_hash_axioms;

    let n = idxs.len();
    let mut k: usize = 0;
    proof {
        assert(idxs@.take(0).to_set() =~= Set::<usize>::empty());
        assert(old(set)@ + idxs@.take(0).to_set() =~= old(set)@);
    }
    while k < n
        invariant
            n == idxs@.len(),
            k <= n,
            set@ == old(set)@ + idxs@.take(k as int).to_set(),
        decreases n - k,
    {
        set.insert(idxs[k]);
        proof {
            lemma_take_to_set_push(idxs@, k as int);
            assert(set@ =~= old(set)@ + idxs@.take(k + 1).to_set());
        }
        k += 1;
    }
    proof {
        assert(idxs@.take(n as int) =~= idxs@);
    }
}

/// Removes the listed indices from a set.
fn remove_indices(set: &mut std::collections::HashSet<usize>, idxs: &Vec<usize>)
    ensures
        final(set)@ == old(set)@.difference(idxs@.to_set()),
{
    broadcast use vstd::std_specs::hash::group_hash_axioms;
    broadcast use vstd::seq_lib::group_seq_lib_default;

    let n = idxs.len();
    let mut k: usize = 0;
    proof {
        assert(idxs@.take(0).to_set() =~= Set::<usize>::empty());
        assert(old(set)@.difference(idxs@.take(0).to_set()) =~= old(set)@);
    }
    while k < n
        invariant
            n == idxs@.len(),
            k <= n,
            set@ == old(set)@.difference(idxs@.take(k as int).to_set()),
        decreases n - k,
    {
        set.remove(&idxs[k]);
        proof {
            lemma_take_to_set_push(idxs@, k as int);
            assert(set@ =~= old(set)@.difference(idxs@.take(k + 1).to_set()));
        }
        k += 1;
    }
    proof {
        assert(idxs@.take(n as int) =~= idxs@);
    }
}

/// True when any of the listed indices is in the set.
fn any_in_set(set: &std::collections::HashSet<usize>, idxs: &Vec<usize>) -> (r: bool)
    ensures
        r == !set@.disjoint(idxs@.to_set()),
{
    broadcast use vstd::std_specs::hash::group_hash_axioms;
    broadcast use vstd::seq_lib::group_seq_lib_default;

    let n = idxs.len();
    let mut k: usize = 0;
    while k < n
        invariant
            n == idxs@.len(),
            k <= n,
            forall|j: int| 0 <= j < k ==> !set@.contains(#[trigger] idxs@[j]),
        decreases n - k,
    {
        if set.contains(&idxs[k]) {
            proof {
                assert(idxs@.to_set().contains(idxs@[k as int]));
                assert(!set@.disjoint(idxs@.to_set()));
            }
            return true;
        }
        k += 1;
    }
    proof {
        assert forall|u: usize| idxs@.to_set().contains(u) implies !set@.contains(u) by {
            let j = choose|j: int| 0 <= j < idxs@.len() && #[trigger] idxs@[j] == u;
        }
        assert(set@.disjoint(idxs@.to_set()));
    }
    false
}

/// The candidate offsets of a hunk whose deletion block also matches there:
/// the placements the fixation pass and the solver accept.
pub open spec fn valid_positions_spec(
    lines: Seq<Seq<char>>,
    c: ChunkView,
    mode: WhitespaceMode,
) -> Seq<usize> {
    del_ok_filter(lines, c, mode, match_positions(lines, c, mode))
}

/// The offsets of `s` at which the hunk's deletion block matches the file.
pub open spec fn del_ok_filter(
    lines: Seq<Seq<char>>,
    c: ChunkView,
    mode: WhitespaceMode,
    s: Seq<usize>,
) -> Seq<usize> {
    s.filter(|p: usize| del_matches_at(lines, c, p as int, mode))
}

proof fn lemma_del_ok_filter_push(
    lines: Seq<Seq<char>>,
    c: ChunkView,
    mode: WhitespaceMode,
    s: Seq<usize>,
    x: usize,
)
    ensures
        del_ok_filter(lines, c, mode, s.push(x)) == if del_matches_at(lines, c, x as int, mode) {
            del_ok_filter(lines, c, mode, s).push(x)
        } else {
            del_ok_filter(lines, c, mode, s)
        },
{
    reveal(Seq::filter);
    assert(s.push(x).drop_last() =~= s);
}

/// What one step of the fixation pass does: pin hunk `i` when it has exactly
/// one acceptable placement whose footprint is disjoint from everything
/// already claimed, and leave it to the solver otherwise.
pub open spec fn fix_step(
    lines: Seq<Seq<char>>,
    chunks: Seq<ChunkView>,
    mode: WhitespaceMode,
    path: Seq<(usize, usize)>,
    i: int,
) -> Seq<(usize, usize)> {
    let vp = valid_positions_spec(lines, chunks[i], mode);
    if vp.len() == 1 && footprint(chunks[i], vp[0] as int, mode).disjoint(
        claimed_set(chunks, path, mode),
    ) {
        path.push((i as usize, vp[0]))
    } else {
        path
    }
}

/// The placements the fixation pass pins after walking the first `i` hunks
/// in input order.
pub open spec fn fixation_path(
    lines: Seq<Seq<char>>,
    chunks: Seq<ChunkView>,
    mode: WhitespaceMode,
    i: int,
) -> Seq<(usize, usize)>
    decreases i,
{
    if i <= 0 {
        Seq::empty()
    } else {
        fix_step(lines, chunks, mode, fixation_path(lines, chunks, mode, i - 1), i - 1)
    }
}

/// Whether the fixation pass alone pins every hunk: each hunk, in input
/// order, has exactly one acceptable placement, and those placements do not
/// overlap.
pub open spec fn fixation_complete(
    lines: Seq<Seq<char>>,
    chunks: Seq<ChunkView>,
    mode: WhitespaceMode,
) -> bool {
    fixation_path(lines, chunks, mode, chunks.len() as int).len() == chunks.len()
}

proof fn lemma_path_extend(
    lines: Seq<Seq<char>>,
    chunks: Seq<ChunkView>,
    path: Seq<(usize, usize)>,
    mode: WhitespaceMode,
    ci: usize,
    pos: usize,
)
    requires
        path_ok(lines, chunks, path, mode),
        placement_ok(lines, chunks, ci as int, pos as int, mode),
        !applied_set(path).contains(ci),
        claimed_set(chunks, path, mode).disjoint(footprint(chunks[ci as int], pos as int, mode)),
    ensures
        path_ok(lines, chunks, path.push((ci, pos)), mode),
        applied_set(path.push((ci, pos))) == applied_set(path).insert(ci),
        claimed_set(chunks, path.push((ci, pos)), mode) == claimed_set(chunks, path, mode)
            + footprint(chunks[ci as int], pos as int, mode),
{
    let np = path.push((ci, pos));
    assert(np.drop_last() =~= path);
    assert(np.last() == (ci, pos));
    assert forall|t: int| 0 <= t < np.len() implies #[trigger] place_ok_at(
        lines,
        chunks,
        np,
        mode,
        t,
    ) by {
        if t < path.len() {
            assert(place_ok_at(lines, chunks, path, mode, t));
            assert(np[t] == path[t]);
        } else {
            assert(np[t] == (ci, pos));
        }
    }
    assert forall|t: int, u: int| 0 <= t < u < np.len() implies #[trigger] pair_ok(
        chunks,
        np,
        mode,
        t,
        u,
    ) by {
        if u < path.len() {
            assert(pair_ok(chunks, path, mode, t, u));
            assert(np[t] == path[t]);
            assert(np[u] == path[u]);
        } else {
            assert(np[t] == path[t]);
            assert(np[u] == (ci, pos));
            lemma_applied_set_contains(path, path[t].0);
            assert(applied_set(path).contains(path[t].0));
            let fp_t = footprint(chunks[path[t].0 as int], path[t].1 as int, mode);
            let fp_n = footprint(chunks[ci as int], pos as int, mode);
            assert forall|w: usize| fp_t.contains(w) implies !fp_n.contains(w) by {
                lemma_claimed_set_contains(chunks, path, mode, w);
                assert(claimed_set(chunks, path, mode).contains(w));
            }
            assert(fp_t.disjoint(fp_n));
        }
    }
}

/// Walks the hunks in input order and pins every hunk that has exactly one
/// acceptable placement whose footprint does not overlap what earlier pinned
/// hunks claimed. A pure optimisation ahead of the backtracking search: a
/// pinned hunk is one the search would have to place there anyway.
pub fn find_fixed_mappings(
    original_lines: &Vec<String>,
    chunks: &[Chunk],
    mode: WhitespaceMode,
) -> (r: (Vec<(usize, usize)>, BacktrackingState))
    ensures
        search_state_ok(original_lines.deep_view(), chunks.deep_view(), r.1, r.0@, mode),
        r.1.solution_count == 0,
        r.1.first_solution_result is None,
        r.1.solution_path is None,
        r.0@ == fixation_path(
            original_lines.deep_view(),
            chunks.deep_view(),
            mode,
            chunks@.len() as int,
        ),
{
    broadcast use vstd::std_specs::hash::group_hash_axioms;

    let ghost d = original_lines.deep_view();
    let ghost cv = chunks.deep_view();
    let n_lines = original_lines.len();
    let mut result_path: Vec<(usize, usize)> = Vec::new();
    let mut state = BacktrackingState::new();
    let nc = chunks.len();
    proof {
        assert(cv.len() == nc);
        assert(d.len() == n_lines);
        assert(applied_set(result_path@) =~= Set::<usize>::empty());
        assert(claimed_set(cv, result_path@, mode) =~= Set::<usize>::empty());
    }
    let mut chunk_idx: usize = 0;
    while chunk_idx < nc
        invariant
            nc == chunks@.len() == cv.len(),
            d == original_lines.deep_view(),
            cv == chunks.deep_view(),
            d.len() == n_lines,
            chunk_idx <= nc,
            search_state_ok(d, cv, state, result_path@, mode),
            state.solution_count == 0,
            state.first_solution_result is None,
            state.solution_path is None,
            forall|t: int|
                0 <= t < result_path@.len() ==> (#[trigger] result_path@[t]).0 < chunk_idx,
            result_path@.len() <= chunk_idx,
            result_path@ == fixation_path(d, cv, mode, chunk_idx as int),
        decreases nc - chunk_idx,
    {
        let chunk = &chunks[chunk_idx];
        proof {
            assert(cv[chunk_idx as int] == chunks@[chunk_idx as int]@);
        }
        let positions = find_match_positions(original_lines, chunk, mode);
        let np = positions.len();
        let mut valid_positions: Vec<usize> = Vec::new();
        let mut pi: usize = 0;
        proof {
            reveal(Seq::filter);
            assert(positions@.take(0) =~= Seq::<usize>::empty());
            assert(del_ok_filter(d, cv[chunk_idx as int], mode, positions@.take(0)) =~= Seq::<
                usize,
            >::empty());
        }
        while pi < np
            invariant
                np == positions@.len(),
                d == original_lines.deep_view(),
                chunk@ == cv[chunk_idx as int],
                pi <= np,
                valid_positions@ == del_ok_filter(
                    d,
                    cv[chunk_idx as int],
                    mode,
                    positions@.take(pi as int),
                ),
                forall|t: int|
                    0 <= t < valid_positions@.len() ==> del_matches_at(
                        d,
                        cv[chunk_idx as int],
                        #[trigger] valid_positions@[t] as int,
                        mode,
                    ),
            decreases np - pi,
        {
            let pos = positions[pi];
            proof {
                assert(positions@.take(pi + 1) =~= positions@.take(pi as int).push(
                    positions@[pi as int],
                ));
                lemma_del_ok_filter_push(
                    d,
                    cv[chunk_idx as int],
                    mode,
                    positions@.take(pi as int),
                    positions@[pi as int],
                );
            }
            if deletion_matches(original_lines, chunk, pos, mode) {
                valid_positions.push(pos);
            }
            pi += 1;
        }
        proof {
            assert(positions@.take(np as int) =~= positions@);
            assert(valid_positions@ == valid_positions_spec(d, cv[chunk_idx as int], mode));
        }
        if valid_positions.len() == 1 {
            let pos = valid_positions[0];
            proof {
                assert(del_matches_at(d, cv[chunk_idx as int], pos as int, mode));
                if chunk@.del_lines.len() > 0 {
                    assert(del_line_ok(
                        d,
                        cv[chunk_idx as int],
                        pos as int,
                        mode,
                        chunk@.del_lines.len() - 1,
                    ));
                }
            }
            let affected = get_affected_indices(chunk, pos, mode);
            if !any_in_set(&state.modified_indices, &affected) {
                let ghost prev_path = result_path@;
                let ghost prev_applied = state.applied_chunks@;
                let ghost prev_claimed = state.modified_indices@;
                proof {
                    lemma_applied_set_contains(prev_path, chunk_idx);
                    assert(!applied_set(prev_path).contains(chunk_idx));
                    assert(footprint(cv[chunk_idx as int], pos as int, mode) =~= affected@.to_set());
                    lemma_path_extend(d, cv, prev_path, mode, chunk_idx, pos);
                }
                state.applied_chunks.insert(chunk_idx);
                add_indices(&mut state.modified_indices, &affected);
                result_path.push((chunk_idx, pos));
                proof {
                    assert(result_path@ == prev_path.push((chunk_idx, pos)));
                    assert(state.applied_chunks@ =~= applied_set(result_path@));
                    assert(state.modified_indices@ =~= claimed_set(cv, result_path@, mode));
                    let fp = footprint(cv[chunk_idx as int], pos as int, mode);
                    assert forall|w: usize| fp.contains(w) implies !claimed_set(
                        cv,
                        prev_path,
                        mode,
                    ).contains(w) by {
                        assert(affected@.to_set().contains(w));
                    }
                    assert(fp.disjoint(claimed_set(cv, prev_path, mode)));
                    assert(result_path@ == fixation_path(d, cv, mode, chunk_idx + 1));
                }
            } else {
                proof {
                    let fp = footprint(cv[chunk_idx as int], pos as int, mode);
                    let cl = claimed_set(cv, result_path@, mode);
                    assert(!state.modified_indices@.disjoint(affected@.to_set()));
                    let w = choose|w: usize|
                        #![auto]
                        state.modified_indices@.contains(w) && affected@.to_set().contains(w);
                    assert(footprint(cv[chunk_idx as int], pos as int, mode) =~= affected@.to_set());
                    assert(fp.contains(w) && cl.contains(w));
                    assert(!fp.disjoint(cl));
                    assert(result_path@ == fixation_path(d, cv, mode, chunk_idx + 1));
                }
            }
        } else {
            proof {
                assert(result_path@ == fixation_path(d, cv, mode, chunk_idx + 1));
            }
        }
        chunk_idx += 1;
    }
    (result_path, state)
}

proof fn lemma_insert_by_pos_to_multiset(s: Seq<(usize, usize)>, x: (usize, usize))
    ensures
        insert_by_pos(s, x).to_multiset() == s.to_multiset().insert(x),
    decreases s.len(),
{
    broadcast use vstd::seq_lib::group_to_multiset_ensures;

    if s.len() == 0 {
        assert(seq![x] =~= Seq::<(usize, usize)>::empty().push(x));
        assert(s.to_multiset() =~= Multiset::<(usize, usize)>::empty());
    } else if s.last().1 <= x.1 {
    } else {
        lemma_insert_by_pos_to_multiset(s.drop_last(), x);
        assert(s.drop_last().push(s.last()) =~= s);
        assert(s.drop_last().push(s.last()).to_multiset() == s.drop_last().to_multiset().insert(
            s.last(),
        ));
        assert(insert_by_pos(s, x).to_multiset() == s.drop_last().to_multiset().insert(x).insert(
            s.last(),
        ));
        assert(s.drop_last().to_multiset().insert(x).insert(s.last())
            =~= s.drop_last().to_multiset().insert(s.last()).insert(x));
    }
}

proof fn lemma_sort_by_pos_to_multiset(s: Seq<(usize, usize)>)
    ensures
        sort_by_pos(s).to_multiset() == s.to_multiset(),
    decreases s.len(),
{
    broadcast use vstd::seq_lib::group_to_multiset_ensures;

    if s.len() > 0 {
        lemma_sort_by_pos_to_multiset(s.drop_last());
        lemma_insert_by_pos_to_multiset(sort_by_pos(s.drop_last()), s.last());
        assert(s.drop_last().push(s.last()) =~= s);
        assert(s.drop_last().push(s.last()).to_multiset() == s.drop_last().to_multiset().insert(
            s.last(),
        ));
    }
}

/// Every entry of the offset-sorted list is an entry of the original list.
proof fn lemma_sort_by_pos_membership(s: Seq<(usize, usize)>, t: int)
    requires
        0 <= t < sort_by_pos(s).len(),
    ensures
        s.contains(sort_by_pos(s)[t]),
{
    broadcast use vstd::seq_lib::group_to_multiset_ensures;

    lemma_sort_by_pos_to_multiset(s);
    let e = sort_by_pos(s)[t];
    assert(sort_by_pos(s).contains(e));
    assert(sort_by_pos(s).to_multiset().contains(e));
    assert(s.to_multiset().contains(e));
}

/// Explores every assignment of the not-yet-applied hunks to candidate
/// offsets, hunks with the smallest positional hint first and offsets in
/// ascending order, extending the current placement list and undoing each
/// trial on return. Counts materially distinct complete outcomes, saturating
/// at two; exhausting the node budget saturates the count as well.
pub fn backtrack_with_mode(
    lines: &Vec<String>,
    chunks: &[Chunk],
    state: &mut BacktrackingState,
    current_path: &mut Vec<(usize, usize)>,
    node_count: &mut usize,
    mode: WhitespaceMode,
)
    requires
        search_state_ok(
            lines.deep_view(),
            chunks.deep_view(),
            *old(state),
            old(current_path)@,
            mode,
        ),
        solution_ok(lines.deep_view(), chunks.deep_view(), *old(state), mode),
    ensures
        final(current_path)@ == old(current_path)@,
        search_state_ok(
            lines.deep_view(),
            chunks.deep_view(),
            *final(state),
            final(current_path)@,
            mode,
        ),
        solution_ok(lines.deep_view(), chunks.deep_view(), *final(state), mode),
        (old(current_path)@.len() == chunks@.len() && old(state).solution_count == 0 && old(
            node_count,
        ) < MAX_BACKTRACK_NODES) ==> (final(state).solution_count == 1
            && final(state).solution_path is Some
            && final(state).solution_path->0@ == old(current_path)@),
        old(node_count) >= MAX_BACKTRACK_NODES ==> final(state).solution_count == 2,
    decreases chunks@.len() - old(current_path)@.len(),
{
    broadcast use vstd::std_specs::hash::group_hash_axioms;

    let ghost d = lines.deep_view();
    let ghost cv = chunks.deep_view();
    let n_lines = lines.len();
    proof {
        assert(d.len() == n_lines);
    }
    *node_count = node_count.saturating_add(1);
    if *node_count > MAX_BACKTRACK_NODES || state.solution_count > 1 {
        state.solution_count = 2;
        return;
    }
    proof {
        assert(old(node_count) < MAX_BACKTRACK_NODES);
    }
    let nc = chunks.len();
    proof {
        assert(cv.len() == nc);
    }
    if current_path.len() == nc {
        let ordered = sort_placements_by_pos(current_path);
        proof {
            assert forall|t: int| 0 <= t < ordered@.len() implies (#[trigger] ordered@[t]).0
                < chunks@.len() by {
                lemma_sort_by_pos_membership(current_path@, t);
                let u = choose|u: int|
                    0 <= u < current_path@.len() && current_path@[u] == ordered@[t];
                assert(place_ok_at(d, cv, current_path@, mode, u));
            }
        }
        let candidate = replay_chunks(lines, chunks, &ordered, mode);
        if state.solution_count == 0 {
            state.solution_count = 1;
            state.first_solution_result = Option::Some(candidate);
            state.solution_path = Option::Some(clone_path(current_path));
            return;
        }
        let benign = match &state.first_solution_result {
            Option::Some(first) => string_vec_eq(first, &candidate),
            Option::None => false,
        };
        if benign {
            return;
        }
        state.solution_count = 2;
        return;
    }
    let mut min_orig: Option<usize> = Option::None;
    let mut i2: usize = 0;
    while i2 < nc
        invariant
            nc == chunks@.len(),
        decreases nc - i2,
    {
        if !state.applied_chunks.contains(&i2) {
            let oi = chunks[i2].orig_index;
            min_orig = match min_orig {
                Option::None => Option::Some(oi),
                Option::Some(mo) => {
                    if oi < mo {
                        Option::Some(oi)
                    } else {
                        Option::Some(mo)
                    }
                },
            };
        }
        i2 += 1;
    }
    let mut i: usize = 0;
    while i < nc
        invariant
            nc == chunks@.len() == cv.len(),
            d == lines.deep_view(),
            cv == chunks.deep_view(),
            i <= nc,
            d.len() == n_lines,
            old(node_count) < MAX_BACKTRACK_NODES,
            current_path@ == old(current_path)@,
            current_path@.len() < nc,
            search_state_ok(d, cv, *state, current_path@, mode),
            solution_ok(d, cv, *state, mode),
        decreases nc - i,
    {
        let mut skip_chunk = state.applied_chunks.contains(&i);
        if !skip_chunk {
            if let Option::Some(mo) = min_orig {
                if chunks[i].orig_index != mo {
                    skip_chunk = true;
                }
            }
        }
        if !skip_chunk {
            let chunk = &chunks[i];
            proof {
                assert(cv[i as int] == chunks@[i as int]@);
            }
            let positions = find_match_positions(lines, chunk, mode);
            let npos = positions.len();
            let mut t: usize = 0;
            while t < npos
                invariant
                    nc == chunks@.len() == cv.len(),
                    d == lines.deep_view(),
                    cv == chunks.deep_view(),
                    i < nc,
                    chunk@ == cv[i as int],
                    npos == positions@.len(),
                    t <= npos,
                    d.len() == n_lines,
                    old(node_count) < MAX_BACKTRACK_NODES,
                    current_path@ == old(current_path)@,
                    current_path@.len() < nc,
                    search_state_ok(d, cv, *state, current_path@, mode),
                    solution_ok(d, cv, *state, mode),
                    !state.applied_chunks@.contains(i),
                decreases npos - t,
            {
                let pos = positions[t];
                if deletion_matches(lines, chunk, pos, mode) {
                    proof {
                        if chunk@.del_lines.len() > 0 {
                            assert(del_line_ok(
                                d,
                                cv[i as int],
                                pos as int,
                                mode,
                                chunk@.del_lines.len() - 1,
                            ));
                            assert(d.len() == lines@.len());
                        }
                    }
                    let affected = get_affected_indices(chunk, pos, mode);
                    if !any_in_set(&state.modified_indices, &affected) {
                        let ghost prev_path = current_path@;
                        let ghost prev_applied = state.applied_chunks@;
                        let ghost prev_claimed = state.modified_indices@;
                        proof {
                            assert(footprint(cv[i as int], pos as int, mode)
                                =~= affected@.to_set());
                            lemma_path_extend(d, cv, prev_path, mode, i, pos);
                        }
                        state.applied_chunks.insert(i);
                        add_indices(&mut state.modified_indices, &affected);
                        current_path.push((i, pos));
                        proof {
                            assert(current_path@ == prev_path.push((i, pos)));
                            assert(state.applied_chunks@ =~= applied_set(current_path@));
                            assert(state.modified_indices@ =~= claimed_set(cv, current_path@, mode));
                        }
                        backtrack_with_mode(lines, chunks, state, current_path, node_count, mode);
                        let _ = current_path.pop();
                        state.applied_chunks.remove(&i);
                        remove_indices(&mut state.modified_indices, &affected);
                        proof {
                            assert(current_path@ =~= prev_path);
                            assert(state.applied_chunks@ =~= prev_applied);
                            assert(state.modified_indices@ =~= prev_claimed);
                        }
                        if state.solution_count > 1 {
                            return;
                        }
                    }
                }
                t += 1;
            }
        }
        i += 1;
    }
}

/// Whether every hunk of the list deletes nothing.
pub open spec fn all_dels_empty(chunks: Seq<ChunkView>) -> bool {
    forall|i: int| 0 <= i < chunks.len() ==> (#[trigger] chunks[i]).del_lines.len() == 0
}

/// The insertion lines of all hunks, concatenated in hunk order.
pub open spec fn concat_ins(chunks: Seq<ChunkView>) -> Seq<Seq<char>>
    decreases chunks.len(),
{
    if chunks.len() == 0 {
        Seq::empty()
    } else {
        concat_ins(chunks.drop_last()) + chunks.last().ins_lines
    }
}

/// A successful engine outcome: some complete placement of every hunk is
/// acceptable — each deletion block matches where it lands and no two
/// footprints overlap — and the output is its replay in ascending offset
/// order.
pub open spec fn engine_success(
    lines: Seq<Seq<char>>,
    chunks: Seq<ChunkView>,
    mode: WhitespaceMode,
    out: Seq<Seq<char>>,
) -> bool {
    exists|p: Seq<(usize, usize)>|
        {
            &&& (#[trigger] p.len()) == chunks.len()
            &&& path_ok(lines, chunks, p, mode)
            &&& out == replay_spec(lines, chunks, sort_by_pos(p), 0, mode)
        }
}

/// Applies the hunks to the lines under the given matching mode.
///
/// When the file is empty and no hunk deletes anything, the result is the
/// concatenation of all insertion lines in hunk order. Any other success is
/// the replay of an acceptable complete placement of every hunk. A conflict
/// is reported when the search found no acceptable placement set, an
/// ambiguity when it found two materially distinct outcomes or exhausted its
/// node budget.
pub fn apply_patch_backtracking_mode(
    original_lines: &[String],
    chunks: &[Chunk],
    mode: WhitespaceMode,
) -> (r: Result<Vec<String>, ZenpatchError>)
    ensures
        (original_lines@.len() == 0 && all_dels_empty(chunks.deep_view())) ==> (r is Ok
            && r->Ok_0.deep_view() == concat_ins(chunks.deep_view())),
        fixation_complete(original_lines.deep_view(), chunks.deep_view(), mode) ==> r is Ok,
        (fixation_complete(original_lines.deep_view(), chunks.deep_view(), mode)
            && !(original_lines@.len() == 0 && all_dels_empty(chunks.deep_view())))
            ==> r->Ok_0.deep_view() == replay_spec(
            original_lines.deep_view(),
            chunks.deep_view(),
            sort_by_pos(
                fixation_path(
                    original_lines.deep_view(),
                    chunks.deep_view(),
                    mode,
                    chunks@.len() as int,
                ),
            ),
            0,
            mode,
        ),
        r is Ok ==> {
            ||| (original_lines@.len() == 0 && all_dels_empty(chunks.deep_view())
                && r->Ok_0.deep_view() == concat_ins(chunks.deep_view()))
            ||| engine_success(
                original_lines.deep_view(),
                chunks.deep_view(),
                mode,
                r->Ok_0.deep_view(),
            )
        },
        r is Err ==> (r->Err_0 is PatchConflict || r->Err_0 is AmbiguousPatch),
{
    let ghost cv = chunks.deep_view();
    let nc = chunks.len();
    proof {
        assert(cv.len() == nc);
    }
    let mut every_del_empty = true;
    let mut ci: usize = 0;
    while ci < nc
        invariant
            nc == chunks@.len() == cv.len(),
            cv == chunks.deep_view(),
            ci <= nc,
            every_del_empty <==> forall|k: int|
                0 <= k < ci ==> (#[trigger] cv[k]).del_lines.len() == 0,
        decreases nc - ci,
    {
        proof {
            assert(cv[ci as int] == chunks@[ci as int]@);
        }
        if !chunks[ci].del_lines.is_empty() {
            proof {
                assert(cv[ci as int].del_lines.len() > 0);
            }
            every_del_empty = false;
        }
        ci += 1;
    }
    if original_lines.is_empty() && every_del_empty {
        let mut result: Vec<String> = Vec::new();
        let mut t: usize = 0;
        proof {
            assert(result.deep_view() =~~= concat_ins(cv.take(0)));
        }
        while t < nc
            invariant
                nc == chunks@.len() == cv.len(),
                cv == chunks.deep_view(),
                t <= nc,
                result.deep_view() == concat_ins(cv.take(t as int)),
            decreases nc - t,
        {
            let chunk = &chunks[t];
            proof {
                assert(chunk@ == cv[t as int]);
            }
            let m = chunk.ins_lines.len();
            let mut j: usize = 0;
            while j < m
                invariant
                    m == chunk.ins_lines.len(),
                    chunk@ == cv[t as int],
                    chunk@.ins_lines.len() == m,
                    t < nc == cv.len(),
                    cv == chunks.deep_view(),
                    j <= m,
                    result.deep_view() == concat_ins(cv.take(t as int)) + chunk@.ins_lines.take(
                        j as int,
                    ),
                decreases m - j,
            {
                let ghost prev = result.deep_view();
                result.push(chunk.ins_lines[j].clone());
                proof {
                    assert(chunk@.ins_lines[j as int] == chunk.ins_lines@[j as int]@);
                    assert(result.deep_view() =~~= prev.push(chunk@.ins_lines[j as int]));
                    assert(concat_ins(cv.take(t as int)) + chunk@.ins_lines.take(j + 1) =~= (
                    concat_ins(cv.take(t as int)) + chunk@.ins_lines.take(j as int)).push(
                        chunk@.ins_lines[j as int],
                    ));
                }
                j += 1;
            }
            proof {
                assert(chunk@.ins_lines.take(m as int) =~= chunk@.ins_lines);
                assert(cv.take(t + 1).drop_last() =~= cv.take(t as int));
                assert(cv.take(t + 1).last() == cv[t as int]);
            }
            t += 1;
        }
        proof {
            assert(cv.take(nc as int) =~= cv);
        }
        return Result::Ok(result);
    }
    proof {
        if original_lines@.len() == 0 && all_dels_empty(cv) {
            if !every_del_empty {
                let k = choose|k: int| 0 <= k < nc && (#[trigger] cv[k]).del_lines.len() != 0;
                assert(false);
            }
        }
    }
    let lines_vec = clone_lines(original_lines);
    proof {
        assert(lines_vec.deep_view() =~~= original_lines.deep_view());
    }
    let (fixed_path, mut state) = find_fixed_mappings(&lines_vec, chunks, mode);
    let mut current_path = fixed_path;
    let mut node_count: usize = 0;
    proof {
        if fixation_complete(original_lines.deep_view(), cv, mode) {
            assert(current_path@.len() == chunks@.len());
        }
    }
    backtrack_with_mode(&lines_vec, chunks, &mut state, &mut current_path, &mut node_count, mode);
    proof {
        if fixation_complete(original_lines.deep_view(), cv, mode) {
            assert(state.solution_count == 1);
            assert(state.solution_path->0@ == fixation_path(
                original_lines.deep_view(),
                cv,
                mode,
                chunks@.len() as int,
            ));
        }
    }
    if state.solution_count == 0 {
        return Result::Err(
            ZenpatchError::PatchConflict(
                String::from_str(
                    "No valid patch application sequence found - please fix the patch include more context",
                ),
            ),
        );
    }
    if state.solution_count > 1 {
        return Result::Err(
            ZenpatchError::AmbiguousPatch(
                String::from_str(
                    "Patch application is ambiguous - please include more context before or after insertions or deletions",
                ),
            ),
        );
    }
    proof {
        assert(state.solution_count == 1);
        assert(lines_vec.deep_view() =~~= original_lines.deep_view());
    }
    match state.first_solution_result {
        Option::Some(solution) => {
            proof {
                let ghost p = state.solution_path->0@;
                assert(p.len() == chunks.deep_view().len());
                assert(path_ok(original_lines.deep_view(), chunks.deep_view(), p, mode));
                assert(solution.deep_view() == replay_spec(
                    original_lines.deep_view(),
                    chunks.deep_view(),
                    sort_by_pos(p),
                    0,
                    mode,
                ));
            }
            Result::Ok(solution)
        },
        Option::None => vstd::pervasive::unreached(),
    }
}

/// Applies the hunks to the lines with strict, character-for-character
/// matching.
pub fn apply_patch_backtracking(original_lines: &[String], chunks: &[Chunk]) -> (r: Result<
    Vec<String>,
    ZenpatchError,
>)
    ensures
        (original_lines@.len() == 0 && all_dels_empty(chunks.deep_view())) ==> (r is Ok
            && r->Ok_0.deep_view() == concat_ins(chunks.deep_view())),
        fixation_complete(
            original_lines.deep_view(),
            chunks.deep_view(),
            WhitespaceMode::Strict,
        ) ==> r is Ok,
        (fixation_complete(
            original_lines.deep_view(),
            chunks.deep_view(),
            WhitespaceMode::Strict,
        ) && !(original_lines@.len() == 0 && all_dels_empty(chunks.deep_view())))
            ==> r->Ok_0.deep_view() == replay_spec(
            original_lines.deep_view(),
            chunks.deep_view(),
            sort_by_pos(
                fixation_path(
                    original_lines.deep_view(),
                    chunks.deep_view(),
                    WhitespaceMode::Strict,
                    chunks@.len() as int,
                ),
            ),
            0,
            WhitespaceMode::Strict,
        ),
        r is Ok ==> {
            ||| (original_lines@.len() == 0 && all_dels_empty(chunks.deep_view())
                && r->Ok_0.deep_view() == concat_ins(chunks.deep_view()))
            ||| engine_success(
                original_lines.deep_view(),
                chunks.deep_view(),
                WhitespaceMode::Strict,
                r->Ok_0.deep_view(),
            )
        },
        r is Err ==> (r->Err_0 is PatchConflict || r->Err_0 is AmbiguousPatch),
{
    apply_patch_backtracking_mode(original_lines, chunks, WhitespaceMode::Strict)
}

/// Non-overlap: in an acceptable placement set the deletion footprints of
/// any two placements are disjoint, and every consumed index lies within the
/// original lines.
pub proof fn lemma_footprints_disjoint_in_bounds(
    lines: Seq<Seq<char>>,
    chunks: Seq<ChunkView>,
    path: Seq<(usize, usize)>,
    mode: WhitespaceMode,
    t: int,
    u: int,
)
    requires
        path_ok(lines, chunks, path, mode),
        0 <= t < path.len(),
        0 <= u < path.len(),
        t != u,
    ensures
        footprint(chunks[path[t].0 as int], path[t].1 as int, mode).disjoint(
            footprint(chunks[path[u].0 as int], path[u].1 as int, mode),
        ),
        forall|w: usize|
            footprint(chunks[path[t].0 as int], path[t].1 as int, mode).contains(w) ==> 0 <= w
                < lines.len(),
{
    if t < u {
        assert(pair_ok(chunks, path, mode, t, u));
    } else {
        assert(pair_ok(chunks, path, mode, u, t));
        let fp_t = footprint(chunks[path[t].0 as int], path[t].1 as int, mode);
        let fp_u = footprint(chunks[path[u].0 as int], path[u].1 as int, mode);
        assert forall|w: usize| fp_t.contains(w) implies !fp_u.contains(w) by {}
        assert(fp_t.disjoint(fp_u));
    }
    assert(place_ok_at(lines, chunks, path, mode, t));
    let c = chunks[path[t].0 as int];
    let pos = path[t].1 as int;
    assert forall|w: usize| footprint(c, pos, mode).contains(w) implies 0 <= w < lines.len() by {
        let j = w - (pos + adj_pre(c, mode));
        assert(del_line_ok(lines, c, pos, mode, j));
    }
}

/// Applying a hunk whose insertion lines equal its deletion lines, where
/// its deletion block matches strictly, leaves the lines unchanged.
pub proof fn lemma_identity_chunk(lines: Seq<Seq<char>>, c: ChunkView, pos: int)
    requires
        c.ins_lines == c.del_lines,
        pos >= 0,
        del_matches_at(lines, c, pos, WhitespaceMode::Strict),
    ensures
        apply_chunk_spec(lines, c, pos, WhitespaceMode::Strict) == lines,
{
    let a = adj_pre(c, WhitespaceMode::Strict) as int;
    let dl = c.del_lines.len() as int;
    if dl == 0 {
        assert(apply_chunk_spec(lines, c, pos, WhitespaceMode::Strict) =~= lines);
    } else {
        assert(del_line_ok(lines, c, pos, WhitespaceMode::Strict, 0));
        assert(del_line_ok(lines, c, pos, WhitespaceMode::Strict, dl - 1));
        assert(pos + a + dl <= lines.len());
        let r = apply_chunk_spec(lines, c, pos, WhitespaceMode::Strict);
        assert forall|i: int| 0 <= i < lines.len() implies r[i] == lines[i] by {
            if pos + a <= i < pos + a + dl {
                assert(del_line_ok(lines, c, pos, WhitespaceMode::Strict, i - (pos + a)));
                assert(c.ins_lines[i - (pos + a)] == c.del_lines[i - (pos + a)]);
            }
        }
        assert(r =~= lines);
    }
}

/// Replaying placements of identity hunks — insertion lines equal to
/// deletion lines — that all match strictly in the original leaves the lines
/// unchanged.
pub proof fn lemma_identity_replay(
    lines: Seq<Seq<char>>,
    chunks: Seq<ChunkView>,
    ordered: Seq<(usize, usize)>,
)
    requires
        forall|t: int|
            0 <= t < ordered.len() ==> placement_ok(
                lines,
                chunks,
                (#[trigger] ordered[t]).0 as int,
                ordered[t].1 as int,
                WhitespaceMode::Strict,
            ),
        forall|i: int|
            0 <= i < chunks.len() ==> (#[trigger] chunks[i]).ins_lines == chunks[i].del_lines,
    ensures
        replay_spec(lines, chunks, ordered, 0, WhitespaceMode::Strict) == lines,
    decreases ordered.len(),
{
    if ordered.len() > 0 {
        let ci = ordered[0].0 as int;
        let opos = ordered[0].1 as int;
        let c = chunks[ci];
        assert(placement_ok(lines, chunks, ci, opos, WhitespaceMode::Strict));
        assert(clamp_pos(opos, 0) == opos) by {
            if c.del_lines.len() > 0 {
                assert(del_line_ok(lines, c, opos, WhitespaceMode::Strict, 0));
            }
            if opos > usize::MAX {
                assert(false);
            }
        }
        lemma_identity_chunk(lines, c, opos);
        assert(sat_i128(0 + c.ins_lines.len() - c.del_lines.len()) == 0);
        assert forall|t: int| 0 <= t < ordered.skip(1).len() implies placement_ok(
            lines,
            chunks,
            (#[trigger] ordered.skip(1)[t]).0 as int,
            ordered.skip(1)[t].1 as int,
            WhitespaceMode::Strict,
        ) by {
            assert(ordered.skip(1)[t] == ordered[t + 1]);
        }
        lemma_identity_replay(lines, chunks, ordered.skip(1));
    }
}

/// When every hunk's insertion lines equal its deletion lines, any
/// successful strict outcome of the engine is the original line sequence:
/// such a patch leaves the content invariant.
pub proof fn lemma_identity_patch(
    lines: Seq<Seq<char>>,
    chunks: Seq<ChunkView>,
    out: Seq<Seq<char>>,
)
    requires
        forall|i: int|
            0 <= i < chunks.len() ==> (#[trigger] chunks[i]).ins_lines == chunks[i].del_lines,
        engine_success(lines, chunks, WhitespaceMode::Strict, out) || (lines.len() == 0
            && all_dels_empty(chunks) && out == concat_ins(chunks)),
    ensures
        out == lines,
{
    if engine_success(lines, chunks, WhitespaceMode::Strict, out) {
        let p = choose|p: Seq<(usize, usize)>|
            {
                &&& (#[trigger] p.len()) == chunks.len()
                &&& path_ok(lines, chunks, p, WhitespaceMode::Strict)
                &&& out == replay_spec(lines, chunks, sort_by_pos(p), 0, WhitespaceMode::Strict)
            };
        let sp = sort_by_pos(p);
        assert forall|t: int| 0 <= t < sp.len() implies placement_ok(
            lines,
            chunks,
            (#[trigger] sp[t]).0 as int,
            sp[t].1 as int,
            WhitespaceMode::Strict,
        ) by {
            lemma_sort_by_pos_membership(p, t);
            let u = choose|u: int| 0 <= u < p.len() && p[u] == sp[t];
            assert(place_ok_at(lines, chunks, p, WhitespaceMode::Strict, u));
        }
        lemma_identity_replay(lines, chunks, sp);
    } else {
        lemma_concat_ins_all_empty(chunks);
        assert(out =~= lines);
    }
}

proof fn lemma_concat_ins_all_empty(chunks: Seq<ChunkView>)
    requires
        forall|i: int|
            0 <= i < chunks.len() ==> (#[trigger] chunks[i]).ins_lines == chunks[i].del_lines,
        all_dels_empty(chunks),
    ensures
        concat_ins(chunks).len() == 0,
    decreases chunks.len(),
{
    if chunks.len() > 0 {
        assert(chunks[chunks.len() - 1].ins_lines.len() == 0);
        lemma_concat_ins_all_empty(chunks.drop_last());
        assert(forall|i: int|
            0 <= i < chunks.drop_last().len() ==> #[trigger] chunks.drop_last()[i] == chunks[i]);
    }
}

/// The net length change a placement list asks for: the sum over its hunks
/// of insertion lines minus deletion lines.
pub open spec fn ins_del_delta(chunks: Seq<ChunkView>, ordered: Seq<(usize, usize)>) -> int
    decreases ordered.len(),
{
    if ordered.len() == 0 {
        0
    } else {
        chunks[ordered[0].0 as int].ins_lines.len() - chunks[ordered[0].0 as int].del_lines.len()
            + ins_del_delta(chunks, ordered.skip(1))
    }
}

/// Whether a replay stays within bounds: at every step the shifted offset is
/// non-negative and the deletion window lies inside the current lines, and
/// the running delta stays representable.
pub open spec fn replay_in_bounds(
    lines: Seq<Seq<char>>,
    chunks: Seq<ChunkView>,
    ordered: Seq<(usize, usize)>,
    delta: int,
    mode: WhitespaceMode,
) -> bool
    decreases ordered.len(),
{
    if ordered.len() == 0 {
        true
    } else {
        let ci = ordered[0].0 as int;
        let c = chunks[ci];
        let p = clamp_pos(ordered[0].1 as int, delta);
        let d2 = delta + c.ins_lines.len() - c.del_lines.len();
        &&& 0 <= ci < chunks.len()
        &&& ordered[0].1 + delta >= 0
        &&& ordered[0].1 + delta <= usize::MAX
        &&& ordered[0].1 + delta + adj_pre(c, mode) + c.del_lines.len() <= lines.len()
        &&& i128::MIN <= d2 <= i128::MAX
        &&& replay_in_bounds(apply_chunk_spec(lines, c, p, mode), chunks, ordered.skip(1), d2, mode)
    }
}

/// Length arithmetic of a replay: when every step's deletion window stays in
/// bounds, the replayed lines are exactly as long as the original plus the
/// sum over the placed hunks of insertion lines minus deletion lines.
pub proof fn lemma_replay_length(
    lines: Seq<Seq<char>>,
    chunks: Seq<ChunkView>,
    ordered: Seq<(usize, usize)>,
    delta: int,
    mode: WhitespaceMode,
)
    requires
        replay_in_bounds(lines, chunks, ordered, delta, mode),
        i128::MIN <= delta <= i128::MAX,
    ensures
        replay_spec(lines, chunks, ordered, delta, mode).len() == lines.len() + ins_del_delta(
            chunks,
            ordered,
        ),
    decreases ordered.len(),
{
    if ordered.len() > 0 {
        let ci = ordered[0].0 as int;
        let c = chunks[ci];
        let opos = ordered[0].1 as int;
        let p = clamp_pos(opos, delta);
        assert(p == opos + delta);
        let next = apply_chunk_spec(lines, c, p, mode);
        assert(next.len() == lines.len() + c.ins_lines.len() - c.del_lines.len());
        let d2 = delta + c.ins_lines.len() - c.del_lines.len();
        assert(sat_i128(d2) == d2);
        lemma_replay_length(next, chunks, ordered.skip(1), d2, mode);
    }
}

proof fn lemma_insert_by_pos_sorted(s: Seq<(usize, usize)>, x: (usize, usize))
    requires
        forall|t: int, u: int| 0 <= t < u < s.len() ==> (#[trigger] s[t]).1 <= (#[trigger] s[u]).1,
    ensures
        insert_by_pos(s, x).len() == s.len() + 1,
        forall|t: int, u: int|
            0 <= t < u < insert_by_pos(s, x).len() ==> (#[trigger] insert_by_pos(s, x)[t]).1 <= (
            #[trigger] insert_by_pos(s, x)[u]).1,
    decreases s.len(),
{
    if s.len() == 0 {
    } else if s.last().1 <= x.1 {
        assert forall|t: int, u: int| 0 <= t < u < s.push(x).len() implies (#[trigger] s.push(x)[
            t
        ]).1 <= (#[trigger] s.push(x)[u]).1 by {
            if u < s.len() {
            } else {
                if t < s.len() - 1 {
                    assert(s[t].1 <= s[s.len() - 1].1);
                }
            }
        }
    } else {
        assert forall|t: int, u: int| 0 <= t < u < s.drop_last().len() implies (
        #[trigger] s.drop_last()[t]).1 <= (#[trigger] s.drop_last()[u]).1 by {
            assert(s[t].1 <= s[u].1);
        }
        lemma_insert_by_pos_sorted(s.drop_last(), x);
        let ib = insert_by_pos(s.drop_last(), x);
        assert forall|t: int| 0 <= t < ib.len() implies (#[trigger] ib[t]).1 <= s.last().1 by {
            lemma_insert_by_pos_le(s.drop_last(), x, t);
        }
        assert forall|t: int, u: int| 0 <= t < u < ib.push(s.last()).len() implies (
        #[trigger] ib.push(s.last())[t]).1 <= (#[trigger] ib.push(s.last())[u]).1 by {
            if u < ib.len() {
            } else {
                assert(ib[t].1 <= s.last().1);
            }
        }
    }
}

proof fn lemma_insert_by_pos_le(s: Seq<(usize, usize)>, x: (usize, usize), t: int)
    requires
        0 <= t < insert_by_pos(s, x).len(),
    ensures
        insert_by_pos(s, x)[t].1 <= x.1 || exists|u: int|
            0 <= u < s.len() && (#[trigger] s[u]).1 == insert_by_pos(s, x)[t].1,
    decreases s.len(),
{
    if s.len() == 0 {
    } else if s.last().1 <= x.1 {
        if t < s.len() {
            assert(s[t].1 == insert_by_pos(s, x)[t].1);
        }
    } else {
        let ib = insert_by_pos(s.drop_last(), x);
        if t < ib.len() {
            lemma_insert_by_pos_le(s.drop_last(), x, t);
            if exists|u: int|
                0 <= u < s.drop_last().len() && (#[trigger] s.drop_last()[u]).1 == ib[t].1 {
                let u = choose|u: int|
                    0 <= u < s.drop_last().len() && (#[trigger] s.drop_last()[u]).1 == ib[t].1;
                assert(s[u].1 == insert_by_pos(s, x)[t].1);
            }
        } else {
            assert(insert_by_pos(s, x)[t] == s.last());
            assert(s[s.len() - 1].1 == insert_by_pos(s, x)[t].1);
        }
    }
}

/// The entries of a placement list that share one offset, in order.
pub open spec fn key_filter(s: Seq<(usize, usize)>, k: usize) -> Seq<(usize, usize)> {
    s.filter(|e: (usize, usize)| e.1 == k)
}

proof fn lemma_key_filter_push(s: Seq<(usize, usize)>, x: (usize, usize), k: usize)
    ensures
        key_filter(s.push(x), k) == if x.1 == k {
            key_filter(s, k).push(x)
        } else {
            key_filter(s, k)
        },
{
    reveal(Seq::filter);
    assert(s.push(x).drop_last() =~= s);
}

proof fn lemma_insert_by_pos_key_filter(s: Seq<(usize, usize)>, x: (usize, usize), k: usize)
    ensures
        key_filter(insert_by_pos(s, x), k) == if x.1 == k {
            key_filter(s, k).push(x)
        } else {
            key_filter(s, k)
        },
    decreases s.len(),
{
    if s.len() == 0 {
        assert(seq![x] =~= Seq::<(usize, usize)>::empty().push(x));
        lemma_key_filter_push(Seq::<(usize, usize)>::empty(), x, k);
        reveal(Seq::filter);
    } else if s.last().1 <= x.1 {
        lemma_key_filter_push(s, x, k);
    } else {
        lemma_insert_by_pos_key_filter(s.drop_last(), x, k);
        lemma_key_filter_push(insert_by_pos(s.drop_last(), x), s.last(), k);
        lemma_key_filter_push(s.drop_last(), s.last(), k);
        assert(s.drop_last().push(s.last()) =~= s);
        if s.last().1 == k {
            assert(x.1 != k);
        }
    }
}

/// Order stability of the replay order: sorting a placement list by offset
/// keeps its length and its entries, orders offsets ascending, and keeps the
/// input order among entries that share an offset.
pub proof fn lemma_sort_by_pos_stable(s: Seq<(usize, usize)>)
    ensures
        sort_by_pos(s).len() == s.len(),
        sort_by_pos(s).to_multiset() == s.to_multiset(),
        forall|t: int, u: int|
            0 <= t < u < sort_by_pos(s).len() ==> (#[trigger] sort_by_pos(s)[t]).1 <= (
            #[trigger] sort_by_pos(s)[u]).1,
        forall|k: usize| #[trigger] key_filter(sort_by_pos(s), k) == key_filter(s, k),
    decreases s.len(),
{
    lemma_sort_by_pos_to_multiset(s);
    if s.len() == 0 {
        assert forall|k: usize| #[trigger] key_filter(sort_by_pos(s), k) == key_filter(s, k) by {
            reveal(Seq::filter);
            assert(sort_by_pos(s) =~= s);
        }
    } else {
        lemma_sort_by_pos_stable(s.drop_last());
        lemma_insert_by_pos_sorted(sort_by_pos(s.drop_last()), s.last());
        assert forall|k: usize| #[trigger]
            key_filter(sort_by_pos(s), k) == key_filter(s, k) by {
            lemma_insert_by_pos_key_filter(sort_by_pos(s.drop_last()), s.last(), k);
            lemma_key_filter_push(s.drop_last(), s.last(), k);
            assert(s.drop_last().push(s.last()) =~= s);
            assert(key_filter(sort_by_pos(s.drop_last()), k) == key_filter(s.drop_last(), k));
        }
    }
}

} // verus!
