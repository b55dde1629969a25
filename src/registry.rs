//! The watch registry: which kernel watch descriptor covers which directory.

use vstd::prelude::*;
use crate::path::{is_prefix, FsPath};

verus! {

/// One subscription: a watch descriptor and the directory it covers.
pub struct Watch {
    pub wd: i32,
    pub path: FsPath,
}

/// The descriptor-to-directory association of a monitoring session.
pub struct WatchRegistry {
    entries: Vec<Watch>,
}

/// A (descriptor, directory) pair.
pub type Entry = (i32, Seq<Seq<u8>>);

impl View for WatchRegistry {
    type V = Set<Entry>;

    closed spec fn view(&self) -> Set<Entry> {
        Set::new(|e: Entry| exists|i: int| 0 <= i < self.entries@.len()
            && #[trigger] self.entries@[i].wd == e.0 && self.entries@[i].path@ == e.1)
    }
}

/// No descriptor and no directory appears in two pairs.
pub open spec fn unique_pairs(s: Set<Entry>) -> bool {
    forall|a: Entry, b: Entry| #![trigger s.contains(a), s.contains(b)]
        s.contains(a) && s.contains(b) && (a.0 == b.0 || a.1 == b.1) ==> a == b
}

/// The directories that hold a subscription.
pub open spec fn watched_dirs(s: Set<Entry>) -> Set<Seq<Seq<u8>>> {
    Set::new(|p: Seq<Seq<u8>>| exists|wd: i32| s.contains((wd, p)))
}

/// Whether an entry is dropped: it has descriptor `wd`, or its directory is
/// `base` (with `subtree`: `base` or one of its descendants).
pub open spec fn selected(wd: Option<i32>, base: Seq<Seq<u8>>, subtree: bool, e: Entry) -> bool {
    wd == Some(e.0) || (if subtree { is_prefix(base, e.1) } else { e.1 == base })
}

/// The pairs after subscribing directory `p` under descriptor `wd`: a pair
/// that had either is replaced (the kernel hands back the descriptor it
/// already has when a directory is subscribed again).
pub open spec fn record_spec(s: Set<Entry>, wd: i32, p: Seq<Seq<u8>>) -> Set<Entry> {
    s.filter(|e: Entry| e.0 != wd && e.1 != p).insert((wd, p))
}

/// One result of a walk: a directory and the descriptor its subscription
/// returned, or none when the directory vanished before it was subscribed.
pub type WalkResult = (Seq<Seq<u8>>, Option<i32>);

/// The pairs after recording the results of a walk, in walk order; a
/// directory whose subscription failed is skipped.
pub open spec fn walk_spec(s: Set<Entry>, results: Seq<WalkResult>) -> Set<Entry>
    decreases results.len(),
{
    if results.len() == 0 {
        s
    } else {
        let prev = walk_spec(s, results.drop_last());
        match results.last().1 {
            Some(wd) => record_spec(prev, wd, results.last().0),
            None => prev,
        }
    }
}

impl WatchRegistry {
    /// The registry is finite and each descriptor and directory appears once.
    pub closed spec fn wf(&self) -> bool {
        forall|i: int, j: int| 0 <= i < j < self.entries@.len() ==>
            #[trigger] self.entries@[i].wd != #[trigger] self.entries@[j].wd
            && self.entries@[i].path@ != self.entries@[j].path@
    }

    /// An empty registry.
    pub fn new() -> (r: WatchRegistry)
        ensures
            r.wf(),
            r@ == Set::<Entry>::empty(),
    {
        let r = WatchRegistry { entries: Vec::new() };
        assert(r@ =~= Set::<Entry>::empty());
        r
    }

    /// Each descriptor and each directory of a well-formed registry is in one pair.
    pub proof fn lemma_unique(&self)
        requires
            self.wf(),
        ensures
            unique_pairs(self@),
    {
        assert forall|a: Entry, b: Entry| #![trigger self@.contains(a), self@.contains(b)]
            self@.contains(a) && self@.contains(b) && (a.0 == b.0 || a.1 == b.1) implies a == b by {
            let i = choose|i: int| 0 <= i < self.entries@.len()
                && #[trigger] self.entries@[i].wd == a.0 && self.entries@[i].path@ == a.1;
            let j = choose|j: int| 0 <= j < self.entries@.len()
                && #[trigger] self.entries@[j].wd == b.0 && self.entries@[j].path@ == b.1;
            if i < j {
                assert(self.entries@[i].wd != self.entries@[j].wd);
            } else if j < i {
                assert(self.entries@[j].wd != self.entries@[i].wd);
            }
        }
    }

    /// Number of subscriptions.
    pub fn len(&self) -> (r: usize)
        requires
            self.wf(),
        ensures
            r == self@.len(),
    {
        proof { self.lemma_len(); }
        self.entries.len()
    }

    proof fn lemma_len(&self)
        requires
            self.wf(),
        ensures
            self@.finite(),
            self@.len() == self.entries@.len(),
    {
        let f = |w: Watch| (w.wd, w.path@);
        let s = self.entries@.map_values(f);
        assert forall|i: int, j: int| 0 <= i < s.len() && 0 <= j < s.len() && i != j implies s[i] != s[j] by {
            if i < j {
                assert(self.entries@[i].wd != self.entries@[j].wd);
            } else {
                assert(self.entries@[j].wd != self.entries@[i].wd);
            }
        }
        assert(s.no_duplicates());
        assert(self@ =~= s.to_set()) by {
            assert forall|e: Entry| self@.contains(e) implies s.to_set().contains(e) by {
                let i = choose|i: int| 0 <= i < self.entries@.len()
                    && #[trigger] self.entries@[i].wd == e.0 && self.entries@[i].path@ == e.1;
                assert(s[i] == e);
            }
            assert forall|e: Entry| s.to_set().contains(e) implies self@.contains(e) by {
                let i = choose|i: int| 0 <= i < s.len() && s[i] == e;
                assert(self.entries@[i].wd == e.0);
            }
        }
        s.unique_seq_to_set();
    }

    /// The directory that descriptor `wd` covers, if it is registered.
    pub fn resolve(&self, wd: i32) -> (r: Option<FsPath>)
        requires
            self.wf(),
        ensures
            match r {
                Some(p) => self@.contains((wd, p@)),
                None => forall|p: Seq<Seq<u8>>| !self@.contains((wd, p)),
            },
    {
        let mut i: usize = 0;
        while i < self.entries.len()
            invariant
                i <= self.entries@.len(),
                forall|j: int| 0 <= j < i ==> #[trigger] self.entries@[j].wd != wd,
            decreases self.entries@.len() - i,
        {
            if self.entries[i].wd == wd {
                let p = self.entries[i].path.copy();
                assert(self.entries@[i as int].wd == wd);
                return Some(p);
            }
            i = i + 1;
        }
        None
    }

    /// Drops the selected entries and keeps the others, in order.
    fn retain_unselected(&mut self, wd: Option<i32>, base: &FsPath, subtree: bool)
        requires
            old(self).wf(),
        ensures
            final(self).wf(),
            forall|e: Entry| #[trigger] final(self)@.contains(e) <==>
                old(self)@.contains(e) && !selected(wd, base@, subtree, e),
    {
        let mut kept: Vec<Watch> = Vec::new();
        let ghost mut idx: Seq<int> = Seq::empty();
        let mut i: usize = 0;
        while i < self.entries.len()
            invariant
                i <= self.entries@.len(),
                self.entries@ == old(self).entries@,
                old(self).wf(),
                idx.len() == kept@.len(),
                forall|k: int| 0 <= k < idx.len() ==> 0 <= #[trigger] idx[k] < i,
                forall|k1: int, k2: int| 0 <= k1 < k2 < idx.len() ==> #[trigger] idx[k1] < #[trigger] idx[k2],
                forall|k: int| 0 <= k < idx.len() ==> #[trigger] kept@[k].wd == self.entries@[idx[k]].wd
                    && kept@[k].path@ == self.entries@[idx[k]].path@
                    && !selected(wd, base@, subtree, (kept@[k].wd, kept@[k].path@)),
                forall|j: int| 0 <= j < i && !selected(wd, base@, subtree, (self.entries@[j].wd, self.entries@[j].path@))
                    ==> exists|k: int| 0 <= k < idx.len() && #[trigger] idx[k] == j,
            decreases self.entries@.len() - i,
        {
            let w = &self.entries[i];
            let by_wd = match wd {
                Some(x) => x == w.wd,
                None => false,
            };
            let by_path = if subtree {
                w.path.starts_with(base)
            } else {
                w.path.same(base)
            };
            if !(by_wd || by_path) {
                let c = Watch { wd: w.wd, path: w.path.copy() };
                kept.push(c);
                proof {
                    let old_idx = idx;
                    idx = idx.push(i as int);
                    assert forall|j: int| 0 <= j < i + 1 && !selected(wd, base@, subtree, (self.entries@[j].wd, self.entries@[j].path@))
                        implies exists|k: int| 0 <= k < idx.len() && #[trigger] idx[k] == j by {
                        if j < i {
                            let k = choose|k: int| 0 <= k < old_idx.len() && #[trigger] old_idx[k] == j;
                            assert(idx[k] == j);
                        } else {
                            assert(idx[idx.len() - 1] == j);
                        }
                    }
                }
            }
            i = i + 1;
        }
        let ghost old_entries = self.entries@;
        self.entries = kept;
        assert forall|k1: int, k2: int| 0 <= k1 < k2 < self.entries@.len() implies
            #[trigger] self.entries@[k1].wd != #[trigger] self.entries@[k2].wd
            && self.entries@[k1].path@ != self.entries@[k2].path@ by {
            assert(idx[k1] < idx[k2]);
            assert(0 <= idx[k1] && idx[k2] < old_entries.len());
            assert(old_entries[idx[k1]].wd != old_entries[idx[k2]].wd);
            assert(self.entries@[k1].wd == old_entries[idx[k1]].wd);
            assert(self.entries@[k2].wd == old_entries[idx[k2]].wd);
        }
        assert forall|e: Entry| #[trigger] self@.contains(e) <==>
            old(self)@.contains(e) && !selected(wd, base@, subtree, e) by {
            if self@.contains(e) {
                let k = choose|k: int| 0 <= k < self.entries@.len()
                    && #[trigger] self.entries@[k].wd == e.0 && self.entries@[k].path@ == e.1;
                assert(old_entries[idx[k]].wd == e.0);
            }
            if old(self)@.contains(e) && !selected(wd, base@, subtree, e) {
                let j = choose|j: int| 0 <= j < old_entries.len()
                    && #[trigger] old_entries[j].wd == e.0 && old_entries[j].path@ == e.1;
                let k = choose|k: int| 0 <= k < idx.len() && #[trigger] idx[k] == j;
                assert(self.entries@[k].wd == e.0);
            }
        }
    }

    /// Records that descriptor `wd` now covers directory `path`.
    pub fn record(&mut self, wd: i32, path: FsPath)
        requires
            old(self).wf(),
        ensures
            final(self).wf(),
            final(self)@ == record_spec(old(self)@, wd, path@),
    {
        self.retain_unselected(Some(wd), &path, false);
        let ghost before = self.entries@;
        let ghost kept = self@;
        assert(forall|i: int, j: int| 0 <= i < j < before.len() ==>
            #[trigger] before[i].wd != #[trigger] before[j].wd && before[i].path@ != before[j].path@);
        let ghost p = path@;
        self.entries.push(Watch { wd, path });
        assert forall|i: int, j: int| 0 <= i < j < self.entries@.len() implies
            #[trigger] self.entries@[i].wd != #[trigger] self.entries@[j].wd
            && self.entries@[i].path@ != self.entries@[j].path@ by {
            if j == before.len() {
                assert(self.entries@[i] == before[i]);
                assert(self.entries@[j].wd == wd && self.entries@[j].path@ == p);
                assert(kept.contains((before[i].wd, before[i].path@)));
                assert(!selected(Some(wd), p, false, (before[i].wd, before[i].path@)));
                assert(before[i].wd != wd && before[i].path@ != p);
            } else {
                assert(self.entries@[i] == before[i] && self.entries@[j] == before[j]);
                assert(before[i].wd != before[j].wd);
            }
        }
        assert(self@ =~= record_spec(old(self)@, wd, p)) by {
            assert forall|e: Entry| self@.contains(e) implies record_spec(old(self)@, wd, p).contains(e) by {
                let i = choose|i: int| 0 <= i < self.entries@.len()
                    && #[trigger] self.entries@[i].wd == e.0 && self.entries@[i].path@ == e.1;
                if i < before.len() {
                    assert(self.entries@[i] == before[i]);
                    assert(kept.contains(e));
                }
            }
            assert forall|e: Entry| record_spec(old(self)@, wd, p).contains(e) implies self@.contains(e) by {
                if e == (wd, p) {
                    assert(self.entries@[before.len() as int].wd == wd);
                } else {
                    assert(kept.contains(e));
                    let i = choose|i: int| 0 <= i < before.len()
                        && #[trigger] before[i].wd == e.0 && before[i].path@ == e.1;
                    assert(self.entries@[i] == before[i]);
                }
            }
        }
    }

    /// A directory was deleted: its entry is purged so that its descriptor,
    /// which the kernel drops, is not used to attribute later events.
    pub fn dir_delete(&mut self, path: &FsPath)
        requires
            old(self).wf(),
        ensures
            final(self).wf(),
            final(self)@ == old(self)@.filter(|e: Entry| e.1 != path@),
    {
        self.retain_unselected(None, path, false);
        assert(self@ =~= old(self)@.filter(|e: Entry| e.1 != path@));
    }

    /// A directory was moved out: the entries of it and of all its
    /// descendants are purged.
    pub fn dir_moved_from(&mut self, path: &FsPath)
        requires
            old(self).wf(),
        ensures
            final(self).wf(),
            final(self)@ == old(self)@.filter(|e: Entry| !is_prefix(path@, e.1)),
    {
        self.retain_unselected(None, path, true);
        assert(self@ =~= old(self)@.filter(|e: Entry| !is_prefix(path@, e.1)));
    }

    /// Records the subscriptions of a recursive walk (at session start, or
    /// for a directory created or moved in), each directory with the
    /// descriptor it got; a directory that could not be subscribed is skipped.
    pub fn watch_directory_recursive(&mut self, results: Vec<(FsPath, Option<i32>)>)
        requires
            old(self).wf(),
        ensures
            final(self).wf(),
            final(self)@ == walk_spec(old(self)@, results@.map_values(|r: (FsPath, Option<i32>)| (r.0@, r.1))),
    {
        let ghost rs = results@.map_values(|r: (FsPath, Option<i32>)| (r.0@, r.1));
        let mut i: usize = 0;
        while i < results.len()
            invariant
                i <= results@.len(),
                rs == results@.map_values(|r: (FsPath, Option<i32>)| (r.0@, r.1)),
                self.wf(),
                self@ == walk_spec(old(self)@, rs.subrange(0, i as int)),
            decreases results@.len() - i,
        {
            let ghost prefix = rs.subrange(0, i + 1);
            assert(prefix.drop_last() =~= rs.subrange(0, i as int));
            assert(prefix.last() == rs[i as int]);
            match results[i].1 {
                Some(wd) => {
                    let p = results[i].0.copy();
                    self.record(wd, p);
                },
                None => {},
            }
            i = i + 1;
        }
        assert(rs.subrange(0, i as int) =~= rs);
    }
}

/// The directories of a walk that got a descriptor.
pub open spec fn walked_dirs(results: Seq<WalkResult>) -> Set<Seq<Seq<u8>>> {
    Set::new(|p: Seq<Seq<u8>>| exists|i: int| 0 <= i < results.len() && #[trigger] results[i].0 == p && results[i].1 is Some)
}

/// The pairs that a walk's successful subscriptions form.
pub open spec fn walked_pairs(results: Seq<WalkResult>) -> Set<Entry> {
    Set::new(|e: Entry| exists|i: int| 0 <= i < results.len() && #[trigger] results[i] == (e.1, Some(e.0)))
}

/// A walk visits each directory once, and the kernel gives distinct
/// directories distinct descriptors, none of them already in `s`.
pub open spec fn fresh_walk(s: Set<Entry>, results: Seq<WalkResult>) -> bool {
    &&& forall|i: int, j: int| 0 <= i < j < results.len() ==>
        #[trigger] results[i].0 != #[trigger] results[j].0
        && (results[i].1 == results[j].1 ==> results[i].1 is None)
    &&& forall|i: int, p: Seq<Seq<u8>>| 0 <= i < results.len() && results[i].1 is Some
        ==> !#[trigger] s.contains((results[i].1->Some_0, p))
}

/// Recording a walk replaces the pairs of the walked directories by their new descriptors.
proof fn lemma_walk(s: Set<Entry>, results: Seq<WalkResult>)
    requires
        fresh_walk(s, results),
    ensures
        walk_spec(s, results) == s.filter(|e: Entry| !walked_dirs(results).contains(e.1)).union(walked_pairs(results)),
    decreases results.len(),
{
    if results.len() > 0 {
        let init = results.drop_last();
        let n = results.len() - 1;
        assert forall|i: int, j: int| 0 <= i < j < init.len() implies
            #[trigger] init[i].0 != #[trigger] init[j].0 && (init[i].1 == init[j].1 ==> init[i].1 is None) by {
            assert(init[i] == results[i] && init[j] == results[j]);
        }
        assert forall|i: int, p: Seq<Seq<u8>>| 0 <= i < init.len() && init[i].1 is Some
            implies !#[trigger] s.contains((init[i].1->Some_0, p)) by {
            assert(init[i] == results[i]);
        }
        lemma_walk(s, init);
        let prev = walk_spec(s, init);
        let target = s.filter(|e: Entry| !walked_dirs(results).contains(e.1)).union(walked_pairs(results));
        match results.last().1 {
            Some(wd) => {
                let p = results.last().0;
                assert(walk_spec(s, results) =~= target) by {
                    assert forall|e: Entry| walk_spec(s, results).contains(e) implies target.contains(e) by {
                        if e == (wd, p) {
                            assert(results[n] == (e.1, Some(e.0)));
                        } else if walked_pairs(init).contains(e) {
                            let i = choose|i: int| 0 <= i < init.len() && #[trigger] init[i] == (e.1, Some(e.0));
                            assert(results[i] == init[i]);
                        } else {
                            assert(!walked_dirs(results).contains(e.1)) by {
                                if walked_dirs(results).contains(e.1) {
                                    let i = choose|i: int| 0 <= i < results.len() && #[trigger] results[i].0 == e.1 && results[i].1 is Some;
                                    if i < n {
                                        assert(init[i] == results[i]);
                                        assert(walked_dirs(init).contains(e.1));
                                    }
                                }
                            }
                        }
                    }
                    assert forall|e: Entry| target.contains(e) implies walk_spec(s, results).contains(e) by {
                        if walked_pairs(results).contains(e) {
                            let i = choose|i: int| 0 <= i < results.len() && #[trigger] results[i] == (e.1, Some(e.0));
                            if i < n {
                                assert(init[i] == results[i]);
                                assert(walked_pairs(init).contains(e));
                                assert(results[i].0 != results[n].0);
                                assert(results[i].1 != results[n].1);
                            }
                        } else {
                            assert(s.contains(e));
                            assert(!walked_dirs(init).contains(e.1)) by {
                                if walked_dirs(init).contains(e.1) {
                                    let i = choose|i: int| 0 <= i < init.len() && #[trigger] init[i].0 == e.1 && init[i].1 is Some;
                                    assert(results[i] == init[i]);
                                }
                            }
                            assert(e.1 != p);
                            assert(e.0 != wd);
                        }
                    }
                }
            },
            None => {
                assert(walk_spec(s, results) =~= target) by {
                    assert forall|e: Entry| walk_spec(s, results).contains(e) implies target.contains(e) by {
                        if walked_pairs(init).contains(e) {
                            let i = choose|i: int| 0 <= i < init.len() && #[trigger] init[i] == (e.1, Some(e.0));
                            assert(results[i] == init[i]);
                        } else {
                            if walked_dirs(results).contains(e.1) {
                                let i = choose|i: int| 0 <= i < results.len() && #[trigger] results[i].0 == e.1 && results[i].1 is Some;
                                assert(i < n);
                                assert(init[i] == results[i]);
                                assert(walked_dirs(init).contains(e.1));
                            }
                        }
                    }
                    assert forall|e: Entry| target.contains(e) implies walk_spec(s, results).contains(e) by {
                        if walked_pairs(results).contains(e) {
                            let i = choose|i: int| 0 <= i < results.len() && #[trigger] results[i] == (e.1, Some(e.0));
                            assert(i < n);
                            assert(init[i] == results[i]);
                        } else {
                            if walked_dirs(init).contains(e.1) {
                                let i = choose|i: int| 0 <= i < init.len() && #[trigger] init[i].0 == e.1 && init[i].1 is Some;
                                assert(results[i] == init[i]);
                                assert(walked_dirs(results).contains(e.1));
                            }
                        }
                    }
                }
            },
        }
    } else {
        assert(walk_spec(s, results) =~= s.filter(|e: Entry| !walked_dirs(results).contains(e.1)).union(walked_pairs(results)));
    }
}

/// After a walk that subscribed distinct directories under fresh
/// descriptors, each descriptor and each directory is in one pair, and the
/// watched directories are those already watched and those just subscribed.
pub proof fn lemma_walk_keeps_unique(s: Set<Entry>, results: Seq<WalkResult>)
    requires
        unique_pairs(s),
        fresh_walk(s, results),
    ensures
        unique_pairs(walk_spec(s, results)),
        watched_dirs(walk_spec(s, results)) == watched_dirs(s).union(walked_dirs(results)),
{
    lemma_walk(s, results);
    let t = walk_spec(s, results);
    assert forall|a: Entry, b: Entry| #![trigger t.contains(a), t.contains(b)]
        t.contains(a) && t.contains(b) && (a.0 == b.0 || a.1 == b.1) implies a == b by {
        if walked_pairs(results).contains(a) && walked_pairs(results).contains(b) {
            let i = choose|i: int| 0 <= i < results.len() && #[trigger] results[i] == (a.1, Some(a.0));
            let j = choose|j: int| 0 <= j < results.len() && #[trigger] results[j] == (b.1, Some(b.0));
            if i < j {
                assert(results[i].0 != results[j].0);
            } else if j < i {
                assert(results[j].0 != results[i].0);
            }
        } else if walked_pairs(results).contains(a) {
            let i = choose|i: int| 0 <= i < results.len() && #[trigger] results[i] == (a.1, Some(a.0));
            assert(results[i].1 is Some && results[i].0 == a.1);
            assert(walked_dirs(results).contains(a.1));
            assert(s.contains(b));
            assert(!s.contains((results[i].1->Some_0, b.1)));
        } else if walked_pairs(results).contains(b) {
            let j = choose|j: int| 0 <= j < results.len() && #[trigger] results[j] == (b.1, Some(b.0));
            assert(results[j].1 is Some && results[j].0 == b.1);
            assert(walked_dirs(results).contains(b.1));
            assert(s.contains(a));
            assert(!s.contains((results[j].1->Some_0, a.1)));
        }
    }
    assert(watched_dirs(t) =~= watched_dirs(s).union(walked_dirs(results))) by {
        assert forall|p: Seq<Seq<u8>>| watched_dirs(t).contains(p) implies watched_dirs(s).union(walked_dirs(results)).contains(p) by {
            let wd = choose|wd: i32| t.contains((wd, p));
            if walked_pairs(results).contains((wd, p)) {
                let i = choose|i: int| 0 <= i < results.len() && #[trigger] results[i] == (p, Some(wd));
                assert(results[i].0 == p);
            }
        }
        assert forall|p: Seq<Seq<u8>>| watched_dirs(s).union(walked_dirs(results)).contains(p) implies watched_dirs(t).contains(p) by {
            if walked_dirs(results).contains(p) {
                let i = choose|i: int| 0 <= i < results.len() && #[trigger] results[i].0 == p && results[i].1 is Some;
                assert(walked_pairs(results).contains((results[i].1->Some_0, p)));
                assert(t.contains((results[i].1->Some_0, p)));
            } else {
                let wd = choose|wd: i32| s.contains((wd, p));
                assert(t.contains((wd, p)));
            }
        }
    }
}

/// The initial walk: starting from no subscription, each directory that the
/// walk of the roots subscribed has exactly one descriptor, no other
/// directory has one, and so no directory outside the roots has one.
pub proof fn lemma_initial_walk(roots: Seq<Seq<Seq<u8>>>, results: Seq<WalkResult>)
    requires
        fresh_walk(Set::empty(), results),
        forall|i: int| 0 <= i < results.len() ==> exists|r: int| 0 <= r < roots.len() && is_prefix(roots[r], #[trigger] results[i].0),
    ensures
        unique_pairs(walk_spec(Set::empty(), results)),
        watched_dirs(walk_spec(Set::empty(), results)) == walked_dirs(results),
        forall|p: Seq<Seq<u8>>| #[trigger] watched_dirs(walk_spec(Set::empty(), results)).contains(p)
            ==> exists|r: int| 0 <= r < roots.len() && is_prefix(roots[r], p),
{
    lemma_walk_keeps_unique(Set::empty(), results);
    assert(watched_dirs(Set::<Entry>::empty()).union(walked_dirs(results)) =~= walked_dirs(results));
    assert forall|p: Seq<Seq<u8>>| #[trigger] watched_dirs(walk_spec(Set::empty(), results)).contains(p)
        implies exists|r: int| 0 <= r < roots.len() && is_prefix(roots[r], p) by {
        let i = choose|i: int| 0 <= i < results.len() && #[trigger] results[i].0 == p && results[i].1 is Some;
    }
}

/// A change to the directories under the watched roots, as the registry
/// learns of it.
pub enum DirChange {
    /// A directory was created or moved in; the walk from it subscribed
    /// these directories (it and its descendants).
    Added(Seq<WalkResult>),
    /// A directory was deleted (the kernel deletes empty directories only).
    Deleted(Seq<Seq<u8>>),
    /// A directory was moved out, with everything below it.
    MovedOut(Seq<Seq<u8>>),
}

/// The registry's pairs after the registry handled a change.
pub open spec fn registry_after(s: Set<Entry>, c: DirChange) -> Set<Entry> {
    match c {
        DirChange::Added(r) => walk_spec(s, r),
        DirChange::Deleted(d) => s.filter(|e: Entry| e.1 != d),
        DirChange::MovedOut(d) => s.filter(|e: Entry| !is_prefix(d, e.1)),
    }
}

/// The directories under the roots after a change.
pub open spec fn dirs_after(dirs: Set<Seq<Seq<u8>>>, c: DirChange) -> Set<Seq<Seq<u8>>> {
    match c {
        DirChange::Added(r) => dirs.union(walked_dirs(r)),
        DirChange::Deleted(d) => dirs.remove(d),
        DirChange::MovedOut(d) => dirs.filter(|p: Seq<Seq<u8>>| !is_prefix(d, p)),
    }
}

/// The registry's pairs after a sequence of changes.
pub open spec fn registry_after_all(s: Set<Entry>, cs: Seq<DirChange>) -> Set<Entry>
    decreases cs.len(),
{
    if cs.len() == 0 {
        s
    } else {
        registry_after(registry_after_all(s, cs.drop_last()), cs.last())
    }
}

/// The directories after a sequence of changes.
pub open spec fn dirs_after_all(dirs: Set<Seq<Seq<u8>>>, cs: Seq<DirChange>) -> Set<Seq<Seq<u8>>>
    decreases cs.len(),
{
    if cs.len() == 0 {
        dirs
    } else {
        dirs_after(dirs_after_all(dirs, cs.drop_last()), cs.last())
    }
}

/// Each walk of the sequence visits each directory once and gets
/// descriptors that the registry does not hold at that point.
pub open spec fn changes_fresh(s: Set<Entry>, cs: Seq<DirChange>) -> bool
    decreases cs.len(),
{
    if cs.len() == 0 {
        true
    } else {
        changes_fresh(s, cs.drop_last()) && match cs.last() {
            DirChange::Added(r) => fresh_walk(registry_after_all(s, cs.drop_last()), r),
            _ => true,
        }
    }
}

/// One change keeps the registry's directories equal to the directories
/// under the roots.
pub proof fn lemma_change(s: Set<Entry>, dirs: Set<Seq<Seq<u8>>>, c: DirChange)
    requires
        unique_pairs(s),
        watched_dirs(s) == dirs,
        c matches DirChange::Added(r) ==> fresh_walk(s, r),
    ensures
        unique_pairs(registry_after(s, c)),
        watched_dirs(registry_after(s, c)) == dirs_after(dirs, c),
{
    match c {
        DirChange::Added(r) => {
            lemma_walk_keeps_unique(s, r);
        },
        DirChange::Deleted(d) => {
            let t = s.filter(|e: Entry| e.1 != d);
            assert(watched_dirs(t) =~= dirs.remove(d)) by {
                assert forall|p: Seq<Seq<u8>>| dirs.remove(d).contains(p) implies watched_dirs(t).contains(p) by {
                    let wd = choose|wd: i32| s.contains((wd, p));
                    assert(t.contains((wd, p)));
                }
            }
        },
        DirChange::MovedOut(d) => {
            let t = s.filter(|e: Entry| !is_prefix(d, e.1));
            assert(watched_dirs(t) =~= dirs.filter(|p: Seq<Seq<u8>>| !is_prefix(d, p))) by {
                assert forall|p: Seq<Seq<u8>>| dirs.filter(|p: Seq<Seq<u8>>| !is_prefix(d, p)).contains(p)
                    implies watched_dirs(t).contains(p) by {
                    let wd = choose|wd: i32| s.contains((wd, p));
                    assert(t.contains((wd, p)));
                }
            }
        },
    }
}

/// For every sequence of directory creations, deletions and moves, the
/// directories that hold a descriptor after the registry handled them are
/// the directories under the roots, each with exactly one descriptor.
pub proof fn lemma_changes(s: Set<Entry>, dirs: Set<Seq<Seq<u8>>>, cs: Seq<DirChange>)
    requires
        unique_pairs(s),
        watched_dirs(s) == dirs,
        changes_fresh(s, cs),
    ensures
        unique_pairs(registry_after_all(s, cs)),
        watched_dirs(registry_after_all(s, cs)) == dirs_after_all(dirs, cs),
    decreases cs.len(),
{
    if cs.len() > 0 {
        lemma_changes(s, dirs, cs.drop_last());
        lemma_change(registry_after_all(s, cs.drop_last()), dirs_after_all(dirs, cs.drop_last()), cs.last());
    }
}

} // verus!
