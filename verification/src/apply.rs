//! The public entry point: applies a parsed patch to an in-memory file map.

use crate::applier::backtracking_patcher::{
    all_dels_empty, apply_patch_backtracking_mode, concat_ins, engine_success, fixation_complete,
    fixation_path, replay_spec, sort_by_pos,
};
use crate::applier::whitespace_mode::WhitespaceMode;
use crate::data::action_type::ActionType;
use crate::data::chunk::{Chunk, ChunkView};
use crate::data::patch_action::{ActionView, PatchAction};
use crate::error::ZenpatchError;
use crate::text::{join_lines, join_nl, split_lines, split_lines_spec, string_vec_eq};
use crate::vfs::Vfs;
use vstd::prelude::*;

verus! {

/// The deletion lines of all hunks, concatenated in hunk order.
pub open spec fn concat_del(chunks: Seq<ChunkView>) -> Seq<Seq<char>>
    decreases chunks.len(),
{
    if chunks.len() == 0 {
        Seq::empty()
    } else {
        concat_del(chunks.drop_last()) + chunks.last().del_lines
    }
}

/// A successful outcome of the hunk engine on the given lines under the
/// given mode, as the engine's contract states it.
pub open spec fn engine_post(
    lines: Seq<Seq<char>>,
    chunks: Seq<ChunkView>,
    mode: WhitespaceMode,
    out: Seq<Seq<char>>,
) -> bool {
    ||| (lines.len() == 0 && all_dels_empty(chunks) && out == concat_ins(chunks))
    ||| engine_success(lines, chunks, mode, out)
}

/// How one action transforms the file map.
///
/// An add requires the path to be absent and stores the joined insertion
/// lines. A delete requires the path to be present with exactly the listed
/// deletion lines as content and removes it. An update requires the path to
/// be present, rewrites its content to a successful engine outcome under
/// strict or whitespace-folded matching, and renames the path when a rename
/// destination is given.
pub open spec fn action_step(
    m: Map<Seq<char>, Seq<char>>,
    a: ActionView,
    m2: Map<Seq<char>, Seq<char>>,
) -> bool {
    match a.type_ {
        ActionType::Add => {
            &&& !m.contains_key(a.path)
            &&& m2 == m.insert(a.path, join_nl(concat_ins(a.chunks)))
        },
        ActionType::Delete => {
            &&& m.contains_key(a.path)
            &&& concat_del(a.chunks) == split_lines_spec(m[a.path])
            &&& m2 == m.remove(a.path)
        },
        ActionType::Update => {
            &&& m.contains_key(a.path)
            &&& exists|out: Seq<Seq<char>>| #[trigger] update_outcome_ok(m, a, m2, out)
        },
    }
}

/// Whether `out` is a successful engine outcome for an update and `m2` is
/// the map after storing it, renamed when the action asks for it. Strict
/// matching is tried first: whenever the strict attempt is bound to succeed
/// — the file is empty and nothing is deleted, or strict fixation resolves
/// every hunk — `out` is exactly the strict outcome, and whitespace-folded
/// matching never enters.
pub open spec fn update_outcome_ok(
    m: Map<Seq<char>, Seq<char>>,
    a: ActionView,
    m2: Map<Seq<char>, Seq<char>>,
    out: Seq<Seq<char>>,
) -> bool {
    &&& {
        ||| engine_post(split_lines_spec(m[a.path]), a.chunks, WhitespaceMode::Strict, out)
        ||| engine_post(split_lines_spec(m[a.path]), a.chunks, WhitespaceMode::Lenient, out)
    }
    &&& degenerate_update(split_lines_spec(m[a.path]), a.chunks) ==> out == concat_ins(a.chunks)
    &&& (fixation_complete(split_lines_spec(m[a.path]), a.chunks, WhitespaceMode::Strict)
        && !degenerate_update(split_lines_spec(m[a.path]), a.chunks)) ==> out == update_payload(
        m,
        a,
    )
    &&& m2 == (match a.new_path {
        Option::Some(np) => m.remove(a.path).insert(np, join_nl(out)),
        Option::None => m.insert(a.path, join_nl(out)),
    })
}

/// An update whose file is empty and whose hunks delete nothing: the engine
/// returns the concatenated insertions without searching.
pub open spec fn degenerate_update(lines: Seq<Seq<char>>, chunks: Seq<ChunkView>) -> bool {
    lines.len() == 0 && all_dels_empty(chunks)
}

/// The content an update is bound to produce when its strict attempt is
/// bound to succeed: the concatenated insertions on an empty file, and the
/// replay of the strict fixation placements otherwise.
pub open spec fn update_payload(m: Map<Seq<char>, Seq<char>>, a: ActionView) -> Seq<Seq<char>> {
    let lines = split_lines_spec(m[a.path]);
    if degenerate_update(lines, a.chunks) {
        concat_ins(a.chunks)
    } else {
        replay_spec(
            lines,
            a.chunks,
            sort_by_pos(
                fixation_path(lines, a.chunks, WhitespaceMode::Strict, a.chunks.len() as int),
            ),
            0,
            WhitespaceMode::Strict,
        )
    }
}

/// Whether one action is bound to succeed on the given map: an add's path is
/// absent; a delete's path holds exactly the listed deletion lines; an
/// update's path is present and its strict attempt is bound to succeed.
pub open spec fn action_applicable(m: Map<Seq<char>, Seq<char>>, a: ActionView) -> bool {
    match a.type_ {
        ActionType::Add => !m.contains_key(a.path),
        ActionType::Delete => {
            &&& m.contains_key(a.path)
            &&& concat_del(a.chunks) == split_lines_spec(m[a.path])
        },
        ActionType::Update => {
            &&& m.contains_key(a.path)
            &&& {
                ||| degenerate_update(split_lines_spec(m[a.path]), a.chunks)
                ||| fixation_complete(
                    split_lines_spec(m[a.path]),
                    a.chunks,
                    WhitespaceMode::Strict,
                )
            }
        },
    }
}

/// The map an applicable action is bound to produce.
pub open spec fn apply_action_model(m: Map<Seq<char>, Seq<char>>, a: ActionView) -> Map<
    Seq<char>,
    Seq<char>,
> {
    match a.type_ {
        ActionType::Add => m.insert(a.path, join_nl(concat_ins(a.chunks))),
        ActionType::Delete => m.remove(a.path),
        ActionType::Update => match a.new_path {
            Option::Some(np) => m.remove(a.path).insert(np, join_nl(update_payload(m, a))),
            Option::None => m.insert(a.path, join_nl(update_payload(m, a))),
        },
    }
}

/// Whether every action of the list, applied in order, is bound to succeed.
pub open spec fn all_applicable(m: Map<Seq<char>, Seq<char>>, acts: Seq<ActionView>) -> bool
    decreases acts.len(),
{
    if acts.len() == 0 {
        true
    } else {
        action_applicable(m, acts[0]) && all_applicable(
            apply_action_model(m, acts[0]),
            acts.skip(1),
        )
    }
}

/// The map a list of applicable actions is bound to produce.
pub open spec fn apply_model_fold(m: Map<Seq<char>, Seq<char>>, acts: Seq<ActionView>) -> Map<
    Seq<char>,
    Seq<char>,
>
    decreases acts.len(),
{
    if acts.len() == 0 {
        m
    } else {
        apply_model_fold(apply_action_model(m, acts[0]), acts.skip(1))
    }
}

/// How a list of actions transforms the file map, one action after the
/// other.
pub open spec fn actions_steps(
    m: Map<Seq<char>, Seq<char>>,
    acts: Seq<ActionView>,
    m2: Map<Seq<char>, Seq<char>>,
) -> bool
    decreases acts.len(),
{
    if acts.len() == 0 {
        m2 == m
    } else {
        exists|mid: Map<Seq<char>, Seq<char>>|
            #[trigger] action_step(m, acts[0], mid) && actions_steps(mid, acts.skip(1), m2)
    }
}

proof fn lemma_steps_push(
    m: Map<Seq<char>, Seq<char>>,
    acts: Seq<ActionView>,
    a: ActionView,
    mid: Map<Seq<char>, Seq<char>>,
    m2: Map<Seq<char>, Seq<char>>,
)
    requires
        actions_steps(m, acts, mid),
        action_step(mid, a, m2),
    ensures
        actions_steps(m, acts.push(a), m2),
    decreases acts.len(),
{
    if acts.len() == 0 {
        assert(acts.push(a)[0] == a);
        assert(acts.push(a).skip(1) =~= Seq::<ActionView>::empty());
        assert(action_step(m, acts.push(a)[0], m2) && actions_steps(m2, acts.push(a).skip(1), m2));
    } else {
        let mid1 = choose|mid1: Map<Seq<char>, Seq<char>>|
            #[trigger] action_step(m, acts[0], mid1) && actions_steps(mid1, acts.skip(1), mid);
        lemma_steps_push(mid1, acts.skip(1), a, mid, m2);
        assert(acts.push(a)[0] == acts[0]);
        assert(acts.push(a).skip(1) =~= acts.skip(1).push(a));
        assert(action_step(m, acts.push(a)[0], mid1) && actions_steps(
            mid1,
            acts.push(a).skip(1),
            m2,
        ));
    }
}

/// Collects the insertion lines of every hunk of an action, in order.
fn collect_ins(chunks: &Vec<Chunk>) -> (r: Vec<String>)
    ensures
        r.deep_view() == concat_ins(chunks.deep_view()),
{
    let ghost cv = chunks.deep_view();
    let nc = chunks.len();
    let mut result: Vec<String> = Vec::new();
    let mut t: usize = 0;
    proof {
        assert(cv.len() == nc);
        assert(result.deep_view() =~~= concat_ins(cv.take(0)));
    }
    while t < nc
        invariant
            nc == chunks@.len() == cv.len(),
            cv == chunks.deep_view(),
            t <= nc,
            result.deep_view() == concat_ins(cv.take(t as int)),
        decreases nc - t,
    {
        let chunk = &chunks[t];
        proof {
            assert(chunk@ == cv[t as int]);
        }
        let m = chunk.ins_lines.len();
        let mut j: usize = 0;
        while j < m
            invariant
                m == chunk.ins_lines.len(),
                chunk@ == cv[t as int],
                chunk@.ins_lines.len() == m,
                t < nc == cv.len(),
                cv == chunks.deep_view(),
                j <= m,
                result.deep_view() == concat_ins(cv.take(t as int)) + chunk@.ins_lines.take(
                    j as int,
                ),
            decreases m - j,
        {
            let ghost prev = result.deep_view();
            result.push(chunk.ins_lines[j].clone());
            proof {
                assert(chunk@.ins_lines[j as int] == chunk.ins_lines@[j as int]@);
                assert(result.deep_view() =~~= prev.push(chunk@.ins_lines[j as int]));
                assert(concat_ins(cv.take(t as int)) + chunk@.ins_lines.take(j + 1) =~= (concat_ins(
                    cv.take(t as int),
                ) + chunk@.ins_lines.take(j as int)).push(chunk@.ins_lines[j as int]));
            }
            j += 1;
        }
        proof {
            assert(chunk@.ins_lines.take(m as int) =~= chunk@.ins_lines);
            assert(cv.take(t + 1).drop_last() =~= cv.take(t as int));
            assert(cv.take(t + 1).last() == cv[t as int]);
        }
        t += 1;
    }
    proof {
        assert(cv.take(nc as int) =~= cv);
    }
    result
}

/// Collects the deletion lines of every hunk of an action, in order.
fn collect_del(chunks: &Vec<Chunk>) -> (r: Vec<String>)
    ensures
        r.deep_view() == concat_del(chunks.deep_view()),
{
    let ghost cv = chunks.deep_view();
    let nc = chunks.len();
    let mut result: Vec<String> = Vec::new();
    let mut t: usize = 0;
    proof {
        assert(cv.len() == nc);
        assert(result.deep_view() =~~= concat_del(cv.take(0)));
    }
    while t < nc
        invariant
            nc == chunks@.len() == cv.len(),
            cv == chunks.deep_view(),
            t <= nc,
            result.deep_view() == concat_del(cv.take(t as int)),
        decreases nc - t,
    {
        let chunk = &chunks[t];
        proof {
            assert(chunk@ == cv[t as int]);
        }
        let m = chunk.del_lines.len();
        let mut j: usize = 0;
        while j < m
            invariant
                m == chunk.del_lines.len(),
                chunk@ == cv[t as int],
                chunk@.del_lines.len() == m,
                t < nc == cv.len(),
                cv == chunks.deep_view(),
                j <= m,
                result.deep_view() == concat_del(cv.take(t as int)) + chunk@.del_lines.take(
                    j as int,
                ),
            decreases m - j,
        {
            let ghost prev = result.deep_view();
            result.push(chunk.del_lines[j].clone());
            proof {
                assert(chunk@.del_lines[j as int] == chunk.del_lines@[j as int]@);
                assert(result.deep_view() =~~= prev.push(chunk@.del_lines[j as int]));
                assert(concat_del(cv.take(t as int)) + chunk@.del_lines.take(j + 1) =~= (concat_del(
                    cv.take(t as int),
                ) + chunk@.del_lines.take(j as int)).push(chunk@.del_lines[j as int]));
            }
            j += 1;
        }
        proof {
            assert(chunk@.del_lines.take(m as int) =~= chunk@.del_lines);
            assert(cv.take(t + 1).drop_last() =~= cv.take(t as int));
            assert(cv.take(t + 1).last() == cv[t as int]);
        }
        t += 1;
    }
    proof {
        assert(cv.take(nc as int) =~= cv);
    }
    result
}

/// The patch parsed into some well-formed action list that steps the file
/// map from its old value to its new one.
/// Applies a text-based patch to an in-memory file map and returns the new
/// map.
///
/// The patch is parsed into file actions, which are applied in order: adds
/// fail on an existing path, deletes fail on a missing path or mismatched
/// content, updates fail on a missing path, and an update's hunks are
/// applied with strict matching first, retrying with whitespace-folded
/// matching after a conflict or an ambiguity. Success is tied to the patch
/// text: any result steps the map through exactly the actions the text
/// parses to, and when every parsed action is bound to succeed the result is
/// forced and pinned to the modelled fold.
pub fn apply(patch_text: &str, vfs: &Vfs) -> (r: Result<Vfs, ZenpatchError>)
    requires
        vfs.wf(),
    ensures
        r is Ok ==> r->Ok_0.wf(),
        r is Ok ==> crate::parser::text_to_patch::text_parse_ok(patch_text@),
        r is Ok ==> actions_steps(
            vfs@,
            crate::parser::text_to_patch::parse_actions_spec(patch_text@),
            r->Ok_0@,
        ),
        (crate::parser::text_to_patch::text_parse_ok(patch_text@) && all_applicable(
            vfs@,
            crate::parser::text_to_patch::parse_actions_spec(patch_text@),
        )) ==> (r is Ok && r->Ok_0@ == apply_model_fold(
            vfs@,
            crate::parser::text_to_patch::parse_actions_spec(patch_text@),
        )),
        r is Err ==> (r->Err_0 is InvalidPatchFormat || r->Err_0 is FileNotFound
            || r->Err_0 is FileExists || r->Err_0 is PatchConflict
            || r->Err_0 is AmbiguousPatch),
{
    let mut new_vfs = clone_vfs(vfs);
    let actions = match crate::parser::text_to_patch::text_to_patch(patch_text) {
        Ok(a) => a,
        Err(e) => {
            return Err(e);
        },
    };
    let ghost acts = actions.deep_view();
    let ghost hyp = all_applicable(vfs@, acts);
    let na = actions.len();
    let mut ai: usize = 0;
    proof {
        assert(acts == crate::parser::text_to_patch::parse_actions_spec(patch_text@));
        assert(acts.take(0) =~= Seq::<ActionView>::empty());
        assert(actions_steps(vfs@, acts.take(0), new_vfs@));
        assert(acts.skip(0) =~= acts);
    }
    while ai < na
        invariant
            na == actions@.len() == acts.len(),
            acts == actions.deep_view(),
            acts == crate::parser::text_to_patch::parse_actions_spec(patch_text@),
            crate::parser::text_to_patch::text_parse_ok(patch_text@),
            hyp == all_applicable(vfs@, acts),
            ai <= na,
            new_vfs.wf(),
            actions_steps(vfs@, acts.take(ai as int), new_vfs@),
            hyp ==> all_applicable(new_vfs@, acts.skip(ai as int)) && apply_model_fold(
                new_vfs@,
                acts.skip(ai as int),
            ) == apply_model_fold(vfs@, acts),
            crate::parser::text_to_patch::actions_wf(acts),
            acts.len() >= 1,
            vfs.wf(),
        decreases na - ai,
    {
        let action = &actions[ai];
        let ghost av = acts[ai as int];
        let ghost before = new_vfs@;
        proof {
            assert(av == actions@[ai as int]@);
            if hyp {
                assert(acts.skip(ai as int)[0] == av);
                assert(acts.skip(ai as int).skip(1) =~= acts.skip(ai + 1));
                assert(action_applicable(before, av));
                assert(all_applicable(apply_action_model(before, av), acts.skip(ai + 1)));
                assert(apply_model_fold(before, acts.skip(ai as int)) == apply_model_fold(
                    apply_action_model(before, av),
                    acts.skip(ai + 1),
                ));
            }
        }
        match action.type_ {
            ActionType::Update => {
                let original_content = match new_vfs.get(action.path.as_str()) {
                    Option::Some(c) => c,
                    Option::None => {
                        proof {
                            if hyp {
                                assert(before.contains_key(av.path));
                                assert(false);
                            }
                        }
                        return Err(ZenpatchError::FileNotFound(action.path.clone()));
                    },
                };
                let original_lines = split_lines(original_content.as_str());
                let orig_slice = original_lines.as_slice();
                let chunk_slice = action.chunks.as_slice();
                let result = apply_patch_backtracking_mode(
                    orig_slice,
                    chunk_slice,
                    WhitespaceMode::Strict,
                );
                let ghost strict_ok = result is Ok;
                let ghost strict_out = if result is Ok {
                    result->Ok_0.deep_view()
                } else {
                    Seq::<Seq<char>>::empty()
                };
                proof {
                    assert(orig_slice.deep_view() =~~= split_lines_spec(before[av.path]));
                    assert(chunk_slice.deep_view() =~~= av.chunks);
                }
                let applied_lines = match result {
                    Ok(lines) => lines,
                    Err(e) => {
                        proof {
                            if hyp {
                                assert(false);
                            }
                        }
                        let retry = match &e {
                            ZenpatchError::PatchConflict(_) => true,
                            ZenpatchError::AmbiguousPatch(_) => true,
                            _ => false,
                        };
                        if retry {
                            match apply_patch_backtracking_mode(
                                orig_slice,
                                chunk_slice,
                                WhitespaceMode::Lenient,
                            ) {
                                Ok(lines) => lines,
                                Err(e2) => {
                                    return Err(e2);
                                },
                            }
                        } else {
                            return Err(e);
                        }
                    },
                };
                let updated_content = join_lines(&applied_lines);
                let ghost out = applied_lines.deep_view();
                proof {
                    assert(engine_post(split_lines_spec(before[av.path]), av.chunks,
                        WhitespaceMode::Strict, out) || engine_post(
                        split_lines_spec(before[av.path]),
                        av.chunks,
                        WhitespaceMode::Lenient,
                        out,
                    ));
                    if degenerate_update(split_lines_spec(before[av.path]), av.chunks) {
                        assert(strict_ok);
                        assert(out == strict_out);
                        assert(out == concat_ins(av.chunks));
                    }
                    if fixation_complete(
                        split_lines_spec(before[av.path]),
                        av.chunks,
                        WhitespaceMode::Strict,
                    ) && !degenerate_update(split_lines_spec(before[av.path]), av.chunks) {
                        assert(strict_ok);
                        assert(out == strict_out);
                        assert(out == update_payload(before, av));
                    }
                    if hyp {
                        assert(out == update_payload(before, av));
                    }
                }
                match &action.new_path {
                    Option::Some(new_path) => {
                        new_vfs.remove(action.path.as_str());
                        new_vfs.insert(new_path.clone(), updated_content);
                        proof {
                            assert(av.new_path == Option::Some(new_path@));
                            assert(new_vfs@ == before.remove(av.path).insert(
                                new_path@,
                                join_nl(out),
                            ));
                            assert(update_outcome_ok(before, av, new_vfs@, out));
                            assert(action_step(before, av, new_vfs@));
                            if hyp {
                                assert(new_vfs@ == apply_action_model(before, av));
                            }
                        }
                    },
                    Option::None => {
                        new_vfs.insert(action.path.clone(), updated_content);
                        proof {
                            assert(av.new_path is None);
                            assert(new_vfs@ == before.insert(av.path, join_nl(out)));
                            assert(update_outcome_ok(before, av, new_vfs@, out));
                            assert(action_step(before, av, new_vfs@));
                            if hyp {
                                assert(new_vfs@ == apply_action_model(before, av));
                            }
                        }
                    },
                }
            },
            ActionType::Add => {
                if new_vfs.contains_key(action.path.as_str()) {
                    proof {
                        if hyp {
                            assert(!before.contains_key(av.path));
                            assert(false);
                        }
                    }
                    return Err(ZenpatchError::FileExists(action.path.clone()));
                }
                let content = collect_ins(&action.chunks);
                let joined = join_lines(&content);
                new_vfs.insert(action.path.clone(), joined);
                proof {
                    assert(action.chunks.deep_view() =~~= av.chunks);
                    assert(action_step(before, av, new_vfs@));
                    if hyp {
                        assert(new_vfs@ == apply_action_model(before, av));
                    }
                }
            },
            ActionType::Delete => {
                let original_content = match new_vfs.get(action.path.as_str()) {
                    Option::Some(c) => c,
                    Option::None => {
                        proof {
                            if hyp {
                                assert(before.contains_key(av.path));
                                assert(false);
                            }
                        }
                        return Err(ZenpatchError::FileNotFound(action.path.clone()));
                    },
                };
                let content_to_delete = collect_del(&action.chunks);
                let original_lines = split_lines(original_content.as_str());
                if string_vec_eq(&content_to_delete, &original_lines) {
                    new_vfs.remove(action.path.as_str());
                    proof {
                        assert(action.chunks.deep_view() =~~= av.chunks);
                        assert(concat_del(av.chunks) == split_lines_spec(before[av.path]));
                        assert(action_step(before, av, new_vfs@));
                        if hyp {
                            assert(new_vfs@ == apply_action_model(before, av));
                        }
                    }
                } else {
                    proof {
                        if hyp {
                            assert(action.chunks.deep_view() =~~= av.chunks);
                            assert(content_to_delete.deep_view() == concat_del(av.chunks));
                            assert(original_lines.deep_view() =~~= split_lines_spec(
                                before[av.path],
                            ));
                            assert(false);
                        }
                    }
                    return Err(
                        ZenpatchError::PatchConflict(
                            String::from_str("Content to delete does not match original content."),
                        ),
                    );
                }
            },
        }
        proof {
            lemma_steps_push(vfs@, acts.take(ai as int), av, before, new_vfs@);
            assert(acts.take(ai + 1) =~= acts.take(ai as int).push(av));
        }
        ai += 1;
    }
    proof {
        assert(acts.take(na as int) =~= acts);
        assert(actions_steps(vfs@, acts, new_vfs@));
        if hyp {
            assert(acts.skip(na as int) =~= Seq::<ActionView>::empty());
            assert(apply_model_fold(new_vfs@, acts.skip(na as int)) == new_vfs@);
            assert(new_vfs@ == apply_model_fold(vfs@, acts));
        }
    }
    Ok(new_vfs)
}

/// Copies a file map entry by entry.
fn clone_vfs(vfs: &Vfs) -> (r: Vfs)
    requires
        vfs.wf(),
    ensures
        r@ == vfs@,
        r.wf(),
        r.entries@.len() == vfs.entries@.len(),
{
    let n = vfs.entries.len();
    let mut es: Vec<(String, String)> = Vec::new();
    let mut i: usize = 0;
    while i < n
        invariant
            n == vfs.entries@.len(),
            i <= n,
            es@.len() == i,
            forall|t: int|
                0 <= t < i ==> #[trigger] crate::vfs::entries_view(es@)[t] == crate::vfs::entries_view(
                    vfs.entries@,
                )[t],
        decreases n - i,
    {
        let e = &vfs.entries[i];
        let ghost prev = crate::vfs::entries_view(es@);
        es.push((e.0.clone(), e.1.clone()));
        proof {
            assert(crate::vfs::entries_view(es@) =~= prev.push(
                (vfs.entries@[i as int].0@, vfs.entries@[i as int].1@),
            ));
            assert(crate::vfs::entries_view(vfs.entries@)[i as int] == (
                vfs.entries@[i as int].0@,
                vfs.entries@[i as int].1@,
            ));
        }
        i += 1;
    }
    let r = Vfs { entries: es };
    proof {
        assert(crate::vfs::entries_view(r.entries@) =~= crate::vfs::entries_view(vfs.entries@));
        assert(r@ =~= vfs@);
    }
    r
}

} // verus!
