//! Character- and line-level text utilities.
//!
//! The matching modes of the engine compare lines after *whitespace folding*
//! (split on Unicode white space, discard empty fragments, rejoin with a
//! single space) and, in the loosest mode, *punctuation folding* (map Unicode
//! dash, quote and space families to ASCII equivalents). This module defines
//! those foldings as specification functions over `Seq<char>` and provides
//! verified executable counterparts, together with the small string
//! primitives (prefix tests, trimming, line splitting and joining) that the
//! parser and the multi-file driver need.

use vstd::prelude::*;

verus! {

use vstd::std_specs::iter::IteratorSpec;

broadcast use vstd::string::group_string_axioms;

/// A Unicode white-space character: the White_Space property, the class that
/// `char::is_whitespace`, `str::trim` and `str::split_whitespace` use.
pub open spec fn is_ws_char(c: char) -> bool {
    ||| c == '\u{0009}'
    ||| c == '\u{000a}'
    ||| c == '\u{000b}'
    ||| c == '\u{000c}'
    ||| c == '\u{000d}'
    ||| c == ' '
    ||| c == '\u{0085}'
    ||| c == '\u{00a0}'
    ||| c == '\u{1680}'
    ||| c == '\u{2000}'
    ||| c == '\u{2001}'
    ||| c == '\u{2002}'
    ||| c == '\u{2003}'
    ||| c == '\u{2004}'
    ||| c == '\u{2005}'
    ||| c == '\u{2006}'
    ||| c == '\u{2007}'
    ||| c == '\u{2008}'
    ||| c == '\u{2009}'
    ||| c == '\u{200a}'
    ||| c == '\u{2028}'
    ||| c == '\u{2029}'
    ||| c == '\u{202f}'
    ||| c == '\u{205f}'
    ||| c == '\u{3000}'
}

/// Decides [`is_ws_char`] executably.
pub fn char_is_ws(c: char) -> (r: bool)
    ensures
        r == is_ws_char(c),
{
    c == '\u{0009}' || c == '\u{000a}' || c == '\u{000b}' || c == '\u{000c}' || c == '\u{000d}'
        || c == ' ' || c == '\u{0085}' || c == '\u{00a0}' || c == '\u{1680}' || c == '\u{2000}'
        || c == '\u{2001}' || c == '\u{2002}' || c == '\u{2003}' || c == '\u{2004}'
        || c == '\u{2005}' || c == '\u{2006}' || c == '\u{2007}' || c == '\u{2008}'
        || c == '\u{2009}' || c == '\u{200a}' || c == '\u{2028}' || c == '\u{2029}'
        || c == '\u{202f}' || c == '\u{205f}' || c == '\u{3000}'
}

/// Collects the characters of a string slice into a vector, in order.
pub fn chars_of(s: &str) -> (r: Vec<char>)
    ensures
        r@ == s@,
{
    let mut it = s.chars();
    let mut r: Vec<char> = Vec::new();
    loop
        invariant
            it.obeys_prophetic_iter_laws(),
            IteratorSpec::decrease(&it) is Some,
            r@ + IteratorSpec::remaining(&it) == s@,
        decreases IteratorSpec::decrease(&it)->0,
    {
        match it.next() {
            Some(c) => {
                r.push(c);
            },
            None => {
                proof {
                    assert(r@ =~= s@);
                }
                return r;
            },
        }
    }
}

/// Compares two character vectors for equality.
pub fn chars_eq(a: &Vec<char>, b: &Vec<char>) -> (r: bool)
    ensures
        r == (a@ == b@),
{
    if a.len() != b.len() {
        proof {
            assert(a@ != b@);
        }
        return false;
    }
    let n = a.len();
    let mut i: usize = 0;
    while i < n
        invariant
            n == a.len() == b.len(),
            i <= n,
            forall|k: int| 0 <= k < i ==> a@[k] == b@[k],
        decreases n - i,
    {
        if a[i] != b[i] {
            proof {
                assert(a@[i as int] != b@[i as int]);
            }
            return false;
        }
        i += 1;
    }
    proof {
        assert(a@ =~= b@);
    }
    true
}

/// The white-space-separated words of a character sequence, in order, with
/// empty fragments discarded: the canonical content that whitespace folding
/// keeps.
pub open spec fn words(s: Seq<char>) -> Seq<Seq<char>>
    decreases s.len(),
{
    if s.len() == 0 {
        Seq::empty()
    } else {
        let w = words(s.drop_last());
        let c = s.last();
        if is_ws_char(c) {
            w
        } else if s.len() >= 2 && !is_ws_char(s[s.len() - 2]) {
            w.update(w.len() - 1, w.last().push(c))
        } else {
            w.push(seq![c])
        }
    }
}

/// Splits a string into its white-space-separated words.
pub fn str_words(s: &str) -> (r: Vec<Vec<char>>)
    ensures
        r.deep_view() == words(s@),
{
    let cs = chars_of(s);
    let n = cs.len();
    let mut done: Vec<Vec<char>> = Vec::new();
    let mut cur: Vec<char> = Vec::new();
    let mut i: usize = 0;
    while i < n
        invariant
            n == cs.len(),
            cs@ == s@,
            i <= n,
            cur@.len() > 0 <==> (i > 0 && !is_ws_char(s@[i - 1])),
            cur@.len() > 0 ==> words(s@.take(i as int)) == done.deep_view().push(cur@),
            cur@.len() == 0 ==> words(s@.take(i as int)) == done.deep_view(),
        decreases n - i,
    {
        let c = cs[i];
        proof {
            assert(s@.take(i + 1).drop_last() =~= s@.take(i as int));
            assert(s@.take(i + 1).last() == s@[i as int]);
        }
        if char_is_ws(c) {
            if cur.len() > 0 {
                let ghost prev_done = done.deep_view();
                let ghost prev_cur = cur@;
                done.push(cur);
                cur = Vec::new();
                proof {
                    assert(done.deep_view() =~~= prev_done.push(prev_cur));
                }
            }
        } else {
            if cur.len() > 0 {
                let ghost prev_done = done.deep_view();
                let ghost prev_cur = cur@;
                cur.push(c);
                proof {
                    let w = words(s@.take(i as int));
                    assert(w == prev_done.push(prev_cur));
                    assert(words(s@.take(i + 1)) == w.update(w.len() - 1, w.last().push(c)));
                    assert(w.update(w.len() - 1, w.last().push(c)) =~~= prev_done.push(cur@));
                }
            } else {
                cur.push(c);
                proof {
                    assert(words(s@.take(i + 1)) == words(s@.take(i as int)).push(seq![c]));
                    assert(cur@ =~= seq![c]);
                }
            }
        }
        i += 1;
    }
    proof {
        assert(s@.take(n as int) =~= s@);
    }
    if cur.len() > 0 {
        let ghost prev_done = done.deep_view();
        let ghost prev_cur = cur@;
        done.push(cur);
        proof {
            assert(done.deep_view() =~~= prev_done.push(prev_cur));
        }
    }
    done
}

/// Compares two word lists for equality.
pub fn words_eq(a: &Vec<Vec<char>>, b: &Vec<Vec<char>>) -> (r: bool)
    ensures
        r == (a.deep_view() == b.deep_view()),
{
    if a.len() != b.len() {
        proof {
            assert(a.deep_view().len() == a@.len());
            assert(b.deep_view().len() == b@.len());
        }
        return false;
    }
    let n = a.len();
    let mut i: usize = 0;
    while i < n
        invariant
            n == a.len() == b.len(),
            i <= n,
            forall|k: int| 0 <= k < i ==> a.deep_view()[k] == b.deep_view()[k],
        decreases n - i,
    {
        proof {
            assert(a.deep_view()[i as int] == a@[i as int]@);
            assert(b.deep_view()[i as int] == b@[i as int]@);
        }
        if !chars_eq(&a[i], &b[i]) {
            return false;
        }
        i += 1;
    }
    proof {
        assert(a.deep_view() =~~= b.deep_view());
    }
    true
}

/// Compares two line vectors for character-wise equality.
pub fn string_vec_eq(a: &Vec<String>, b: &Vec<String>) -> (r: bool)
    ensures
        r == (a.deep_view() == b.deep_view()),
{
    if a.len() != b.len() {
        proof {
            assert(a.deep_view().len() == a@.len());
            assert(b.deep_view().len() == b@.len());
        }
        return false;
    }
    let n = a.len();
    let mut i: usize = 0;
    while i < n
        invariant
            n == a.len() == b.len(),
            i <= n,
            forall|k: int| 0 <= k < i ==> a.deep_view()[k] == b.deep_view()[k],
        decreases n - i,
    {
        if !(a[i] == b[i]) {
            proof {
                assert(a.deep_view()[i as int] == a@[i as int]@);
                assert(b.deep_view()[i as int] == b@[i as int]@);
            }
            return false;
        }
        i += 1;
    }
    proof {
        assert(a.deep_view() =~~= b.deep_view());
    }
    true
}

/// A character sequence with the leading run of white space removed.
pub open spec fn trim_start_ws(s: Seq<char>) -> Seq<char>
    decreases s.len(),
{
    if s.len() > 0 && is_ws_char(s[0]) {
        trim_start_ws(s.skip(1))
    } else {
        s
    }
}

/// A character sequence with the trailing run of white space removed.
pub open spec fn trim_end_ws(s: Seq<char>) -> Seq<char>
    decreases s.len(),
{
    if s.len() > 0 && is_ws_char(s.last()) {
        trim_end_ws(s.drop_last())
    } else {
        s
    }
}

/// A character sequence with both leading and trailing white space removed:
/// what `str::trim` leaves.
pub open spec fn trim_ws(s: Seq<char>) -> Seq<char> {
    trim_end_ws(trim_start_ws(s))
}

proof fn lemma_trim_start_ws_at(s: Seq<char>, i: int)
    requires
        0 <= i <= s.len(),
        forall|k: int| 0 <= k < i ==> is_ws_char(s[k]),
        i < s.len() ==> !is_ws_char(s[i]),
    ensures
        trim_start_ws(s) == s.skip(i),
    decreases i,
{
    if i == 0 {
        if s.len() > 0 && is_ws_char(s[0]) {
            assert(false);
        }
        assert(s.skip(0) =~= s);
    } else {
        assert(is_ws_char(s[0]));
        assert(s.skip(1).skip(i - 1) =~= s.skip(i));
        lemma_trim_start_ws_at(s.skip(1), i - 1);
    }
}

proof fn lemma_trim_end_ws_at(s: Seq<char>, j: int)
    requires
        0 <= j <= s.len(),
        forall|k: int| j <= k < s.len() ==> is_ws_char(s[k]),
        j > 0 ==> !is_ws_char(s[j - 1]),
    ensures
        trim_end_ws(s) == s.take(j),
    decreases s.len() - j,
{
    if j == s.len() {
        if s.len() > 0 && is_ws_char(s.last()) {
            assert(s.drop_last() =~= s.take(s.len() - 1));
            lemma_trim_end_ws_at(s.drop_last(), j - 1);
        } else {
            assert(s.take(j) =~= s);
        }
    } else {
        assert(is_ws_char(s.last()));
        assert(s.drop_last() =~= s.take(s.len() - 1));
        lemma_trim_end_ws_at(s.drop_last(), j);
        assert(s.drop_last().take(j) =~= s.take(j));
    }
}

/// Returns the slice of `s` with leading and trailing white space removed,
/// as `str::trim` would.
pub fn trim_str<'a>(s: &'a str) -> (r: &'a str)
    ensures
        r@ == trim_ws(s@),
{
    let cs = chars_of(s);
    let n = cs.len();
    let mut i: usize = 0;
    while i < n && char_is_ws(cs[i])
        invariant
            n == cs.len(),
            cs@ == s@,
            i <= n,
            forall|k: int| 0 <= k < i ==> is_ws_char(s@[k]),
        decreases n - i,
    {
        i += 1;
    }
    let mut j: usize = n;
    while j > i && char_is_ws(cs[j - 1])
        invariant
            n == cs.len(),
            cs@ == s@,
            i <= j <= n,
            forall|k: int| 0 <= k < i ==> is_ws_char(s@[k]),
            i < n ==> !is_ws_char(s@[i as int]),
            forall|k: int| j <= k < n ==> is_ws_char(s@[k]),
        decreases j,
    {
        j -= 1;
    }
    proof {
        lemma_trim_start_ws_at(s@, i as int);
        lemma_trim_end_ws_at(s@.skip(i as int), j - i);
        assert(s@.skip(i as int).take(j - i) =~= s@.subrange(i as int, j as int));
    }
    s.substring_char(i, j)
}

proof fn lemma_trim_start_no_ws(s: Seq<char>)
    ensures
        trim_start_ws(s).len() > 0 ==> !is_ws_char(trim_start_ws(s)[0]),
    decreases s.len(),
{
    if s.len() > 0 && is_ws_char(s[0]) {
        lemma_trim_start_no_ws(s.skip(1));
    }
}

proof fn lemma_trim_end_prefix(s: Seq<char>)
    ensures
        trim_end_ws(s).len() <= s.len(),
        trim_end_ws(s) == s.take(trim_end_ws(s).len() as int),
        trim_end_ws(s).len() > 0 ==> !is_ws_char(trim_end_ws(s).last()),
    decreases s.len(),
{
    if s.len() > 0 && is_ws_char(s.last()) {
        lemma_trim_end_prefix(s.drop_last());
        assert(s.drop_last() =~= s.take(s.len() - 1));
        assert(s.drop_last().take(trim_end_ws(s.drop_last()).len() as int) =~= s.take(
            trim_end_ws(s.drop_last()).len() as int,
        ));
    } else {
        assert(s.take(s.len() as int) =~= s);
    }
}

/// Trimming is idempotent: a trimmed string trims to itself.
pub proof fn lemma_trim_ws_idempotent(s: Seq<char>)
    ensures
        trim_ws(trim_ws(s)) == trim_ws(s),
{
    let t1 = trim_start_ws(s);
    let t = trim_end_ws(t1);
    lemma_trim_start_no_ws(s);
    lemma_trim_end_prefix(t1);
    if t.len() > 0 {
        assert(t[0] == t1[0]);
        assert(!is_ws_char(t[0]));
    }
    assert(trim_start_ws(t) == t);
    assert(trim_end_ws(t) == t);
}

/// Removes leading and trailing white space from a character vector.
pub fn trim_chars(s: &Vec<char>) -> (r: Vec<char>)
    ensures
        r@ == trim_ws(s@),
{
    let n = s.len();
    let mut i: usize = 0;
    while i < n && char_is_ws(s[i])
        invariant
            n == s.len(),
            i <= n,
            forall|k: int| 0 <= k < i ==> is_ws_char(s@[k]),
        decreases n - i,
    {
        i += 1;
    }
    let mut j: usize = n;
    while j > i && char_is_ws(s[j - 1])
        invariant
            n == s.len(),
            i <= j <= n,
            forall|k: int| 0 <= k < i ==> is_ws_char(s@[k]),
            i < n ==> !is_ws_char(s@[i as int]),
            forall|k: int| j <= k < n ==> is_ws_char(s@[k]),
        decreases j,
    {
        j -= 1;
    }
    proof {
        lemma_trim_start_ws_at(s@, i as int);
        lemma_trim_end_ws_at(s@.skip(i as int), j - i);
    }
    let mut r: Vec<char> = Vec::new();
    let mut k: usize = i;
    while k < j
        invariant
            i <= k <= j <= n == s.len(),
            r@ == s@.subrange(i as int, k as int),
        decreases j - k,
    {
        r.push(s[k]);
        proof {
            assert(s@.subrange(i as int, k + 1) =~= s@.subrange(i as int, k as int).push(
                s@[k as int],
            ));
        }
        k += 1;
    }
    proof {
        assert(s@.skip(i as int).take(j - i) =~= s@.subrange(i as int, j as int));
    }
    r
}

/// True exactly when a line is blank: trimming leaves nothing.
pub fn is_blank(s: &str) -> (r: bool)
    ensures
        r == (trim_ws(s@).len() == 0),
{
    let t = trim_str(s);
    t.unicode_len() == 0
}

/// The punctuation folding of one character: Unicode dashes to `-`, curly
/// single quotes to `'`, curly double quotes to `"`, typographic spaces to a
/// plain space; anything else is unchanged.
pub open spec fn fold_punct_char(c: char) -> char {
    if c == '\u{2010}' || c == '\u{2011}' || c == '\u{2012}' || c == '\u{2013}' || c == '\u{2014}'
        || c == '\u{2015}' || c == '\u{2212}' {
        '-'
    } else if c == '\u{2018}' || c == '\u{2019}' || c == '\u{201a}' || c == '\u{201b}' {
        '\''
    } else if c == '\u{201c}' || c == '\u{201d}' || c == '\u{201e}' || c == '\u{201f}' {
        '"'
    } else if c == '\u{00a0}' || c == '\u{2002}' || c == '\u{2003}' || c == '\u{2004}'
        || c == '\u{2005}' || c == '\u{2006}' || c == '\u{2007}' || c == '\u{2008}'
        || c == '\u{2009}' || c == '\u{200a}' || c == '\u{202f}' || c == '\u{205f}'
        || c == '\u{3000}' {
        ' '
    } else {
        c
    }
}

/// Punctuation folding applied to every character.
pub open spec fn fold_punct(s: Seq<char>) -> Seq<char> {
    s.map_values(|c: char| fold_punct_char(c))
}

/// Folds one character executably.
pub fn fold_punct_char_exec(c: char) -> (r: char)
    ensures
        r == fold_punct_char(c),
{
    if c == '\u{2010}' || c == '\u{2011}' || c == '\u{2012}' || c == '\u{2013}' || c == '\u{2014}'
        || c == '\u{2015}' || c == '\u{2212}' {
        '-'
    } else if c == '\u{2018}' || c == '\u{2019}' || c == '\u{201a}' || c == '\u{201b}' {
        '\''
    } else if c == '\u{201c}' || c == '\u{201d}' || c == '\u{201e}' || c == '\u{201f}' {
        '"'
    } else if c == '\u{00a0}' || c == '\u{2002}' || c == '\u{2003}' || c == '\u{2004}'
        || c == '\u{2005}' || c == '\u{2006}' || c == '\u{2007}' || c == '\u{2008}'
        || c == '\u{2009}' || c == '\u{200a}' || c == '\u{202f}' || c == '\u{205f}'
        || c == '\u{3000}' {
        ' '
    } else {
        c
    }
}

/// Folds every character of a vector.
pub fn fold_punct_vec(s: &Vec<char>) -> (r: Vec<char>)
    ensures
        r@ == fold_punct(s@),
{
    let n = s.len();
    let mut r: Vec<char> = Vec::new();
    let mut i: usize = 0;
    while i < n
        invariant
            n == s.len(),
            i <= n,
            r@ == fold_punct(s@.take(i as int)),
        decreases n - i,
    {
        r.push(fold_punct_char_exec(s[i]));
        proof {
            assert(fold_punct(s@.take(i + 1)) =~= fold_punct(s@.take(i as int)).push(
                fold_punct_char(s@[i as int]),
            ));
        }
        i += 1;
    }
    proof {
        assert(s@.take(n as int) =~= s@);
    }
    r
}

/// Words rejoined with a single space between them: the canonical
/// whitespace-folded form of a line.
pub open spec fn join_words(ws: Seq<Seq<char>>) -> Seq<char>
    decreases ws.len(),
{
    if ws.len() == 0 {
        Seq::empty()
    } else if ws.len() == 1 {
        ws[0]
    } else {
        join_words(ws.drop_last()) + seq![' '] + ws.last()
    }
}

/// Joins a word list with single spaces.
pub fn join_words_exec(ws: &Vec<Vec<char>>) -> (r: Vec<char>)
    ensures
        r@ == join_words(ws.deep_view()),
{
    let n = ws.len();
    let mut r: Vec<char> = Vec::new();
    let mut k: usize = 0;
    while k < n
        invariant
            n == ws.len(),
            k <= n,
            r@ == join_words(ws.deep_view().take(k as int)),
        decreases n - k,
    {
        let ghost dv = ws.deep_view();
        if k > 0 {
            r.push(' ');
        }
        let w = &ws[k];
        let m = w.len();
        let mut j: usize = 0;
        while j < m
            invariant
                m == w.len(),
                j <= m,
                k > 0 ==> r@ == join_words(dv.take(k as int)) + seq![' '] + w@.take(j as int),
                k == 0 ==> r@ == w@.take(j as int),
                dv == ws.deep_view(),
                k < n == ws.len(),
                w == &ws[k as int],
        decreases m - j,
        {
            r.push(w[j]);
            proof {
                assert(w@.take(j + 1) =~= w@.take(j as int).push(w@[j as int]));
            }
            j += 1;
        }
        proof {
            assert(w@.take(m as int) =~= w@);
            assert(dv[k as int] == w@);
            assert(dv.take(k + 1).drop_last() =~= dv.take(k as int));
            if k == 0 {
                assert(r@ =~= join_words(dv.take(1)));
            } else {
                assert(r@ =~= join_words(dv.take(k + 1)));
            }
        }
        k += 1;
    }
    proof {
        assert(ws.deep_view().take(n as int) =~= ws.deep_view());
    }
    r
}

/// Compares two string slices for character-wise equality.
pub fn str_eq(a: &str, b: &str) -> (r: bool)
    ensures
        r == (a@ == b@),
{
    let ca = chars_of(a);
    let cb = chars_of(b);
    chars_eq(&ca, &cb)
}

/// True exactly when `p` is a prefix of `s`.
pub fn str_starts_with(s: &str, p: &str) -> (r: bool)
    ensures
        r == p@.is_prefix_of(s@),
{
    let cs = chars_of(s);
    let cp = chars_of(p);
    let m = cp.len();
    if cs.len() < m {
        proof {
            assert(!p@.is_prefix_of(s@));
        }
        return false;
    }
    let mut i: usize = 0;
    while i < m
        invariant
            m == cp.len() <= cs.len(),
            cs@ == s@,
            cp@ == p@,
            i <= m,
            forall|k: int| 0 <= k < i ==> s@[k] == p@[k],
        decreases m - i,
    {
        if cs[i] != cp[i] {
            proof {
                assert(s@[i as int] != p@[i as int]);
                assert(!p@.is_prefix_of(s@));
            }
            return false;
        }
        i += 1;
    }
    proof {
        assert(s@.subrange(0, m as int) =~= p@);
    }
    true
}

/// The result of repeatedly removing a non-empty prefix `p` from the front of
/// `s`, as `str::trim_start_matches` does with a string pattern.
pub open spec fn strip_prefix_rec(s: Seq<char>, p: Seq<char>) -> Seq<char>
    decreases s.len(),
{
    if p.len() > 0 && p.is_prefix_of(s) {
        if s.len() == p.len() {
            Seq::empty()
        } else {
            strip_prefix_rec(s.skip(p.len() as int), p)
        }
    } else {
        s
    }
}

/// Removes every repetition of the prefix `p` from the front of `s`.
pub fn strip_prefix_repeat<'a>(s: &'a str, p: &str) -> (r: &'a str)
    ensures
        r@ == strip_prefix_rec(s@, p@),
{
    let mut rest: &str = s;
    let m = p.unicode_len();
    loop
        invariant
            strip_prefix_rec(rest@, p@) == strip_prefix_rec(s@, p@),
            m == p@.len(),
        decreases rest@.len(),
    {
        if m == 0 || !str_starts_with(rest, p) {
            return rest;
        }
        let n = rest.unicode_len();
        if n == m {
            proof {
                reveal_strlit("");
            }
            let e: &str = "";
            return e;
        }
        let next = rest.substring_char(m, n);
        proof {
            assert(next@ =~= rest@.skip(m as int));
        }
        rest = next;
    }
}

/// Whether `s`, a character sequence, ends with a carriage return that a
/// following line feed absorbs.
pub open spec fn strip_cr(s: Seq<char>) -> Seq<char> {
    if s.len() > 0 && s.last() == '\r' {
        s.drop_last()
    } else {
        s
    }
}

/// The distance to the first line feed of `s`, or the length of `s` when it
/// has none.
pub open spec fn find_nl(s: Seq<char>) -> nat
    decreases s.len(),
{
    if s.len() == 0 {
        0
    } else if s[0] == '\n' {
        0
    } else {
        1 + find_nl(s.skip(1))
    }
}

proof fn lemma_find_nl_at(s: Seq<char>, m: int)
    requires
        0 <= m <= s.len(),
        forall|k: int| 0 <= k < m ==> s[k] != '\n',
        m < s.len() ==> s[m] == '\n',
    ensures
        find_nl(s) == m,
    decreases m,
{
    if m == 0 {
    } else {
        assert(s[0] != '\n');
        lemma_find_nl_at(s.skip(1), m - 1);
    }
}

/// The lines of a text, as `str::lines` yields them: segments split at each
/// line feed, a carriage return immediately before a line feed absorbed, and
/// no final empty segment after a trailing line feed.
pub open spec fn split_lines_spec(s: Seq<char>) -> Seq<Seq<char>>
    decreases s.len(),
{
    if s.len() == 0 {
        Seq::empty()
    } else {
        let i = find_nl(s) as int;
        if i >= s.len() {
            seq![s]
        } else {
            seq![strip_cr(s.take(i))] + split_lines_spec(s.skip(i + 1))
        }
    }
}

/// Splits a text into its lines, as `str::lines` does.
pub fn split_lines(s: &str) -> (r: Vec<String>)
    ensures
        r.deep_view() == split_lines_spec(s@),
{
    let cs = chars_of(s);
    let n = cs.len();
    let mut r: Vec<String> = Vec::new();
    let mut start: usize = 0;
    let mut j: usize = 0;
    proof {
        assert(s@.skip(0) =~= s@);
        assert(r.deep_view() + split_lines_spec(s@) =~= split_lines_spec(s@));
    }
    while j < n
        invariant
            n == cs.len(),
            cs@ == s@,
            start <= j <= n,
            forall|k: int| start <= k < j ==> s@[k] != '\n',
            split_lines_spec(s@) == r.deep_view() + split_lines_spec(s@.skip(start as int)),
        decreases n - j,
    {
        if cs[j] == '\n' {
            let end = if j > start && cs[j - 1] == '\r' {
                j - 1
            } else {
                j
            };
            let ghost prev = r.deep_view();
            let line = s.substring_char(start, end).to_owned();
            r.push(line);
            proof {
                let suf = s@.skip(start as int);
                lemma_find_nl_at(suf, j - start);
                assert(suf.take(j - start) =~= s@.subrange(start as int, j as int));
                assert(strip_cr(suf.take(j - start)) =~= s@.subrange(start as int, end as int));
                assert(suf.skip(j - start + 1) =~= s@.skip(j + 1));
                assert(split_lines_spec(suf) == seq![strip_cr(suf.take(j - start))]
                    + split_lines_spec(s@.skip(j + 1)));
                assert(r.deep_view() =~~= prev.push(s@.subrange(start as int, end as int)));
                assert(prev + (seq![s@.subrange(start as int, end as int)] + split_lines_spec(
                    s@.skip(j + 1),
                )) =~= r.deep_view() + split_lines_spec(s@.skip(j + 1)));
            }
            start = j + 1;
        }
        j += 1;
    }
    if start < n {
        let ghost prev = r.deep_view();
        let line = s.substring_char(start, n).to_owned();
        r.push(line);
        proof {
            let suf = s@.skip(start as int);
            lemma_find_nl_at(suf, n - start);
            assert(suf =~= s@.subrange(start as int, n as int));
            assert(split_lines_spec(suf) =~= seq![suf]);
            assert(r.deep_view() =~~= prev.push(suf));
            assert(prev + seq![suf] =~= r.deep_view());
        }
    } else {
        proof {
            assert(s@.skip(start as int) =~= Seq::<char>::empty());
        }
    }
    proof {
        assert(r.deep_view() + Seq::<Seq<char>>::empty() =~= r.deep_view());
    }
    r
}

/// Lines rejoined with a single line feed between them: what the multi-file
/// driver stores after an update.
pub open spec fn join_nl(ls: Seq<Seq<char>>) -> Seq<char>
    decreases ls.len(),
{
    if ls.len() == 0 {
        Seq::empty()
    } else if ls.len() == 1 {
        ls[0]
    } else {
        join_nl(ls.drop_last()) + seq!['\n'] + ls.last()
    }
}

/// Joins lines with a line feed.
pub fn join_lines(ls: &Vec<String>) -> (r: String)
    ensures
        r@ == join_nl(ls.deep_view()),
{
    proof {
        reveal_strlit("\n");
    }
    let n = ls.len();
    let mut r = String::new();
    let mut k: usize = 0;
    while k < n
        invariant
            n == ls.len(),
            k <= n,
            r@ == join_nl(ls.deep_view().take(k as int)),
        decreases n - k,
    {
        let ghost dv = ls.deep_view();
        proof {
            reveal_strlit("\n");
        }
        if k > 0 {
            r.append("\n");
        }
        r.append(ls[k].as_str());
        proof {
            assert(dv[k as int] == ls@[k as int]@);
            assert(dv.take(k + 1).drop_last() =~= dv.take(k as int));
            if k == 0 {
                assert(r@ =~= join_nl(dv.take(1)));
            } else {
                assert(r@ =~= join_nl(dv.take(k + 1)));
            }
        }
        k += 1;
    }
    proof {
        assert(ls.deep_view().take(n as int) =~= ls.deep_view());
    }
    r
}

} // verus!
