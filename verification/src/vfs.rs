//! An in-memory file map: paths to file contents.

use vstd::prelude::*;

verus! {

/// The key-and-content view of a stored entry list.
pub open spec fn entries_view(es: Seq<(String, String)>) -> Seq<(Seq<char>, Seq<char>)> {
    es.map_values(|e: (String, String)| (e.0@, e.1@))
}

/// Whether some entry of the list has the given key.
pub open spec fn has_key(es: Seq<(Seq<char>, Seq<char>)>, k: Seq<char>) -> bool {
    exists|i: int| 0 <= i < es.len() && (#[trigger] es[i]).0 == k
}

/// The content stored under the given key.
pub open spec fn val_of(es: Seq<(Seq<char>, Seq<char>)>, k: Seq<char>) -> Seq<char> {
    es[choose|i: int| 0 <= i < es.len() && (#[trigger] es[i]).0 == k].1
}

/// An in-memory file system: file paths mapped to file contents, held as a
/// list of entries with pairwise distinct paths.
#[derive(Debug)]
pub struct Vfs {
    /// The stored files, paths pairwise distinct.
    pub entries: Vec<(String, String)>,
}

impl View for Vfs {
    type V = Map<Seq<char>, Seq<char>>;

    open spec fn view(&self) -> Map<Seq<char>, Seq<char>> {
        Map::new(
            |k: Seq<char>| has_key(entries_view(self.entries@), k),
            |k: Seq<char>| val_of(entries_view(self.entries@), k),
        )
    }
}

impl Vfs {
    /// No two entries share a path.
    pub open spec fn wf(&self) -> bool {
        forall|i: int, j: int|
            0 <= i < j < self.entries@.len() ==> (#[trigger] entries_view(self.entries@)[i]).0 != (
            #[trigger] entries_view(self.entries@)[j]).0
    }

    /// An empty file map.
    pub fn new() -> (r: Self)
        ensures
            r@ == Map::<Seq<char>, Seq<char>>::empty(),
            r.wf(),
    {
        let r = Vfs { entries: Vec::new() };
        proof {
            assert(r@ =~= Map::<Seq<char>, Seq<char>>::empty());
        }
        r
    }

    /// The index of the entry with the given path, if any.
    fn find(&self, path: &str) -> (r: Option<usize>)
        ensures
            r is Some ==> r->0 < self.entries@.len() && entries_view(self.entries@)[
                r->0 as int
            ].0 == path@,
            r is None ==> !has_key(entries_view(self.entries@), path@),
    {
        let ghost ev = entries_view(self.entries@);
        let n = self.entries.len();
        let mut i: usize = 0;
        while i < n
            invariant
                n == self.entries@.len(),
                ev == entries_view(self.entries@),
                i <= n,
                forall|j: int| 0 <= j < i ==> (#[trigger] ev[j]).0 != path@,
            decreases n - i,
        {
            proof {
                assert(ev[i as int] == (self.entries@[i as int].0@, self.entries@[i as int].1@));
            }
            if crate::text::str_eq(self.entries[i].0.as_str(), path) {
                return Option::Some(i);
            }
            i += 1;
        }
        proof {
            if has_key(ev, path@) {
                let j = choose|j: int| 0 <= j < ev.len() && (#[trigger] ev[j]).0 == path@;
            }
        }
        Option::None
    }

    /// The content stored at a path, if present.
    pub fn get(&self, path: &str) -> (r: Option<String>)
        requires
            self.wf(),
        ensures
            r is Some <==> self@.contains_key(path@),
            r is Some ==> r->0@ == self@[path@],
    {
        let ghost ev = entries_view(self.entries@);
        match self.find(path) {
            Option::Some(i) => {
                proof {
                    assert(has_key(ev, path@));
                    let j = choose|j: int| 0 <= j < ev.len() && (#[trigger] ev[j]).0 == path@;
                    if j != i {
                        assert(false);
                    }
                    assert(val_of(ev, path@) == ev[i as int].1);
                    assert(ev[i as int] == (self.entries@[i as int].0@, self.entries@[i as int].1@));
                }
                Option::Some(self.entries[i].1.clone())
            },
            Option::None => Option::None,
        }
    }

    /// Whether a path is present.
    pub fn contains_key(&self, path: &str) -> (r: bool)
        requires
            self.wf(),
        ensures
            r == self@.contains_key(path@),
    {
        match self.find(path) {
            Option::Some(_) => {
                proof {
                    assert(has_key(entries_view(self.entries@), path@));
                }
                true
            },
            Option::None => false,
        }
    }

    /// How many files are stored.
    pub fn len(&self) -> (r: usize)
        requires
            self.wf(),
        ensures
            r == self@.dom().len(),
            self@.dom().finite(),
    {
        proof {
            self.lemma_dom_len();
        }
        self.entries.len()
    }

    /// Whether no file is stored.
    pub fn is_empty(&self) -> (r: bool)
        requires
            self.wf(),
        ensures
            r <==> self@ == Map::<Seq<char>, Seq<char>>::empty(),
    {
        let n = self.entries.len();
        proof {
            if n == 0 {
                assert(self@ =~= Map::<Seq<char>, Seq<char>>::empty());
            } else {
                let ev = entries_view(self.entries@);
                assert(ev[0] == (self.entries@[0].0@, self.entries@[0].1@));
                assert(has_key(ev, ev[0].0));
                assert(self@.contains_key(ev[0].0));
            }
        }
        n == 0
    }

    proof fn lemma_dom_len(&self)
        requires
            self.wf(),
        ensures
            self@.dom().finite(),
            self@.dom().len() == self.entries@.len(),
    {
        let ev = entries_view(self.entries@);
        let keys = ev.map_values(|e: (Seq<char>, Seq<char>)| e.0);
        assert forall|k: Seq<char>| self@.dom().contains(k) implies keys.to_set().contains(k) by {
            let i = choose|i: int| 0 <= i < ev.len() && (#[trigger] ev[i]).0 == k;
            assert(keys[i] == k);
            assert(keys.contains(k));
        }
        assert forall|k: Seq<char>| keys.to_set().contains(k) implies self@.dom().contains(k) by {
            let i = choose|i: int| 0 <= i < keys.len() && #[trigger] keys[i] == k;
            assert(ev[i].0 == k);
            assert(has_key(ev, k));
        }
        assert(self@.dom() =~= keys.to_set());
        assert(keys.no_duplicates()) by {
            assert forall|i: int, j: int| 0 <= i < j < keys.len() implies keys[i] != keys[j] by {
                assert(ev[i].0 != ev[j].0);
            }
        }
        keys.unique_seq_to_set();
    }

    /// Stores content at a path, replacing what was there.
    pub fn insert(&mut self, path: String, content: String)
        requires
            old(self).wf(),
        ensures
            final(self)@ == old(self)@.insert(path@, content@),
            final(self).wf(),
    {
        let ghost old_ev = entries_view(self.entries@);
        let found = self.find(path.as_str());
        let n = self.entries.len();
        let mut out: Vec<(String, String)> = Vec::new();
        let mut i: usize = 0;
        while i < n
            invariant
                n == self.entries@.len(),
                old_ev == entries_view(self.entries@),
                i <= n,
                found is Some ==> found->0 < n && old_ev[found->0 as int].0 == path@,
                found is None ==> !has_key(old_ev, path@),
                forall|t: int|
                    0 <= t < out@.len() ==> (#[trigger] entries_view(out@)[t])
                        == old_ev[crate::vfs::src_index(found, t)],
                out@.len() == (if found is Some && found->0 < i {
                    i - 1
                } else {
                    i as int
                }),
            decreases n - i,
        {
            let is_found = match found {
                Option::Some(f) => i == f,
                Option::None => false,
            };
            if !is_found {
                let ghost prev = entries_view(out@);
                let e = &self.entries[i];
                out.push((e.0.clone(), e.1.clone()));
                proof {
                    assert(entries_view(out@) =~= prev.push(
                        (self.entries@[i as int].0@, self.entries@[i as int].1@),
                    ));
                    assert(old_ev[i as int] == (
                        self.entries@[i as int].0@,
                        self.entries@[i as int].1@,
                    ));
                }
            }
            i += 1;
        }
        let ghost mid_ev = entries_view(out@);
        let ghost pv = path@;
        let ghost cv = content@;
        out.push((path, content));
        proof {
            assert(entries_view(out@) =~= mid_ev.push((pv, cv)));
        }
        self.entries = out;
        proof {
            let new_ev = entries_view(self.entries@);
            assert forall|t: int| 0 <= t < mid_ev.len() implies (#[trigger] mid_ev[t]).0 != pv by {
                assert(mid_ev[t] == old_ev[crate::vfs::src_index(found, t)]);
            }
            assert forall|i2: int, j2: int| 0 <= i2 < j2 < new_ev.len() implies (
            #[trigger] new_ev[i2]).0 != (#[trigger] new_ev[j2]).0 by {
                if j2 < mid_ev.len() {
                    assert(mid_ev[i2] == old_ev[crate::vfs::src_index(found, i2)]);
                    assert(mid_ev[j2] == old_ev[crate::vfs::src_index(found, j2)]);
                }
            }
            assert(final(self)@ =~= old(self)@.insert(pv, cv)) by {
                assert forall|k: Seq<char>| true implies (has_key(new_ev, k) <==> (has_key(
                    old_ev,
                    k,
                ) || k == pv)) by {
                    if has_key(new_ev, k) {
                        let t = choose|t: int|
                            0 <= t < new_ev.len() && (#[trigger] new_ev[t]).0 == k;
                        if t < mid_ev.len() {
                            assert(old_ev[crate::vfs::src_index(found, t)].0 == k);
                            assert(has_key(old_ev, k));
                        }
                    }
                    if k == pv {
                        assert(new_ev[new_ev.len() - 1].0 == k);
                        assert(has_key(new_ev, k));
                    } else if has_key(old_ev, k) {
                        let s = choose|s: int|
                            0 <= s < old_ev.len() && (#[trigger] old_ev[s]).0 == k;
                        let t = crate::vfs::dst_index(found, s);
                        assert(mid_ev[t] == old_ev[crate::vfs::src_index(found, t)]);
                        assert(crate::vfs::src_index(found, t) == s);
                        assert(new_ev[t].0 == k);
                        assert(has_key(new_ev, k));
                    }
                }
                assert forall|k: Seq<char>| has_key(new_ev, k) implies val_of(new_ev, k) == (if k
                    == pv {
                    cv
                } else {
                    val_of(old_ev, k)
                }) by {
                    let t = choose|t: int| 0 <= t < new_ev.len() && (#[trigger] new_ev[t]).0 == k;
                    if k == pv {
                        if t < mid_ev.len() {
                            assert(mid_ev[t] == old_ev[crate::vfs::src_index(found, t)]);
                            assert(false);
                        }
                        assert(val_of(new_ev, k) == new_ev[t].1);
                    } else {
                        assert(t < mid_ev.len());
                        let s = crate::vfs::src_index(found, t);
                        assert(new_ev[t] == old_ev[s]);
                        let s2 = choose|s2: int|
                            0 <= s2 < old_ev.len() && (#[trigger] old_ev[s2]).0 == k;
                        if s2 != s {
                            assert(old_ev[s].0 == old_ev[s2].0);
                            assert(false);
                        }
                        assert(val_of(old_ev, k) == old_ev[s2].1);
                        assert(val_of(new_ev, k) == new_ev[t].1);
                    }
                }
            }
        }
    }

    /// Removes a path and its content, if present.
    pub fn remove(&mut self, path: &str)
        requires
            old(self).wf(),
        ensures
            final(self)@ == old(self)@.remove(path@),
            final(self).wf(),
    {
        let ghost old_ev = entries_view(self.entries@);
        let found = self.find(path);
        if let Option::None = found {
            proof {
                assert(!old(self)@.contains_key(path@));
                assert(final(self)@ =~= old(self)@.remove(path@));
            }
            return ;
        }
        let n = self.entries.len();
        let mut out: Vec<(String, String)> = Vec::new();
        let mut i: usize = 0;
        while i < n
            invariant
                n == self.entries@.len(),
                old_ev == entries_view(self.entries@),
                i <= n,
                found is Some ==> found->0 < n && old_ev[found->0 as int].0 == path@,
                found is Some,
                forall|t: int|
                    0 <= t < out@.len() ==> (#[trigger] entries_view(out@)[t])
                        == old_ev[crate::vfs::src_index(found, t)],
                out@.len() == (if found->0 < i {
                    i - 1
                } else {
                    i as int
                }),
            decreases n - i,
        {
            let is_found = match found {
                Option::Some(f) => i == f,
                Option::None => false,
            };
            if !is_found {
                let ghost prev = entries_view(out@);
                let e = &self.entries[i];
                out.push((e.0.clone(), e.1.clone()));
                proof {
                    assert(entries_view(out@) =~= prev.push(
                        (self.entries@[i as int].0@, self.entries@[i as int].1@),
                    ));
                    assert(old_ev[i as int] == (
                        self.entries@[i as int].0@,
                        self.entries@[i as int].1@,
                    ));
                }
            }
            i += 1;
        }
        self.entries = out;
        proof {
            let new_ev = entries_view(self.entries@);
            assert forall|i2: int, j2: int| 0 <= i2 < j2 < new_ev.len() implies (
            #[trigger] new_ev[i2]).0 != (#[trigger] new_ev[j2]).0 by {
                assert(new_ev[i2] == old_ev[crate::vfs::src_index(found, i2)]);
                assert(new_ev[j2] == old_ev[crate::vfs::src_index(found, j2)]);
            }
            assert(final(self)@ =~= old(self)@.remove(path@)) by {
                assert forall|k: Seq<char>| true implies (has_key(new_ev, k) <==> (has_key(
                    old_ev,
                    k,
                ) && k != path@)) by {
                    if has_key(new_ev, k) {
                        let t = choose|t: int|
                            0 <= t < new_ev.len() && (#[trigger] new_ev[t]).0 == k;
                        let s = crate::vfs::src_index(found, t);
                        assert(new_ev[t] == old_ev[s]);
                        assert(has_key(old_ev, k));
                        if k == path@ {
                            assert(old_ev[s].0 == old_ev[found->0 as int].0);
                            assert(false);
                        }
                    }
                    if has_key(old_ev, k) && k != path@ {
                        let s = choose|s: int|
                            0 <= s < old_ev.len() && (#[trigger] old_ev[s]).0 == k;
                        let t = crate::vfs::dst_index(found, s);
                        assert(new_ev[t] == old_ev[crate::vfs::src_index(found, t)]);
                        assert(crate::vfs::src_index(found, t) == s);
                        assert(new_ev[t].0 == k);
                        assert(has_key(new_ev, k));
                    }
                }
                assert forall|k: Seq<char>| has_key(new_ev, k) implies val_of(new_ev, k) == val_of(
                    old_ev,
                    k,
                ) by {
                    let t = choose|t: int| 0 <= t < new_ev.len() && (#[trigger] new_ev[t]).0 == k;
                    let s = crate::vfs::src_index(found, t);
                    assert(new_ev[t] == old_ev[s]);
                    let s2 = choose|s2: int|
                        0 <= s2 < old_ev.len() && (#[trigger] old_ev[s2]).0 == k;
                    if s2 != s {
                        assert(old_ev[s].0 == old_ev[s2].0);
                        assert(false);
                    }
                    assert(val_of(old_ev, k) == old_ev[s2].1);
                    assert(val_of(new_ev, k) == new_ev[t].1);
                }
            }
        }
    }
}

/// Where the `t`-th kept entry came from: entries before a removed index
/// keep their place, entries after it shift down by one.
pub open spec fn src_index(found: Option<usize>, t: int) -> int {
    match found {
        Option::Some(f) => if t < f {
            t
        } else {
            t + 1
        },
        Option::None => t,
    }
}

/// Where the entry at source index `s` lands among the kept entries.
pub open spec fn dst_index(found: Option<usize>, s: int) -> int {
    match found {
        Option::Some(f) => if s < f {
            s
        } else {
            s - 1
        },
        Option::None => s,
    }
}

} // verus!
