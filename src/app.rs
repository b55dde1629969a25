//! The shared run state of the engine: whether a session is active, and the
//! watch roots that the next session will use.

use vstd::prelude::*;
use crate::path::{is_prefix, FsPath};

verus! {

/// Why a new root was not admitted.
#[derive(PartialEq, Eq, Structural, Clone, Copy, Debug)]
pub enum AddError {
    /// Roots may change only while no session is active.
    Active,
    /// The candidate lies inside a root that is already watched.
    Nested,
}

/// The run state: `state` tells whether a session is active, and
/// `path_from_web` holds the watch roots in order of admission.
pub struct AppFIM {
    pub state: bool,
    pub path_from_web: Vec<FsPath>,
}

/// The roots as paths.
pub open spec fn roots_view(v: Seq<FsPath>) -> Seq<Seq<Seq<u8>>> {
    v.map_values(|p: FsPath| p@)
}

/// No root is an ancestor or a descendant of another, nor listed twice.
pub open spec fn roots_disjoint(roots: Seq<Seq<Seq<u8>>>) -> bool {
    forall|i: int, j: int| 0 <= i < roots.len() && 0 <= j < roots.len() && i != j
        ==> !is_prefix(#[trigger] roots[i], #[trigger] roots[j])
}

/// The roots after admitting `desired` while inactive: unchanged when it is
/// already a root or lies inside one; otherwise the roots inside it are
/// superseded and it is appended.
pub open spec fn admit_spec(roots: Seq<Seq<Seq<u8>>>, desired: Seq<Seq<u8>>) -> Seq<Seq<Seq<u8>>> {
    if roots.contains(desired) || exists|i: int| 0 <= i < roots.len() && is_prefix(roots[i], desired) {
        roots
    } else {
        roots.filter(|r: Seq<Seq<u8>>| !is_prefix(desired, r)).push(desired)
    }
}

impl AppFIM {
    /// An inactive run state with no root.
    pub fn new() -> (r: AppFIM)
        ensures
            !r.state,
            r.path_from_web@.len() == 0,
    {
        AppFIM { state: false, path_from_web: Vec::new() }
    }

    /// Starts a session. Returns whether a monitoring loop is to be spawned:
    /// a start while a session is active changes nothing.
    pub fn start(&mut self) -> (spawn: bool)
        ensures
            spawn == !old(self).state,
            final(self).state,
            final(self).path_from_web@ == old(self).path_from_web@,
    {
        let spawn = !self.state;
        self.state = true;
        spawn
    }

    /// Asks the active session to stop; its loop sees this at its next pause.
    pub fn stop(&mut self)
        ensures
            !final(self).state,
            final(self).path_from_web@ == old(self).path_from_web@,
    {
        self.state = false;
    }

    /// Admits `desired` (absolute, and accepted by the admission check) as a
    /// watch root: a root that lies inside a watched one is refused, and one
    /// that contains watched roots replaces them.
    pub fn add(&mut self, desired: FsPath) -> (r: Result<(), AddError>)
        ensures
            final(self).state == old(self).state,
            old(self).state ==> r == Err::<(), AddError>(AddError::Active)
                && final(self).path_from_web@ == old(self).path_from_web@,
            !old(self).state ==> {
                let roots = roots_view(old(self).path_from_web@);
                &&& roots_view(final(self).path_from_web@) == admit_spec(roots, desired@)
                &&& (r is Err <==> !roots.contains(desired@)
                    && exists|i: int| 0 <= i < roots.len() && is_prefix(roots[i], desired@))
                &&& r is Err ==> r == Err::<(), AddError>(AddError::Nested)
            },
    {
        if self.state {
            return Err(AddError::Active);
        }
        let ghost roots = roots_view(self.path_from_web@);
        let n = self.path_from_web.len();
        let mut i: usize = 0;
        while i < n
            invariant
                n == self.path_from_web@.len(),
                !self.state,
                !old(self).state,
                self.path_from_web@ == old(self).path_from_web@,
                roots == roots_view(self.path_from_web@),
                i <= n,
                forall|j: int| 0 <= j < i ==> roots[j] != desired@,
            decreases n - i,
        {
            if self.path_from_web[i].same(&desired) {
                assert(roots[i as int] == desired@);
                return Ok(());
            }
            i = i + 1;
        }
        assert(!roots.contains(desired@));
        let mut i: usize = 0;
        while i < n
            invariant
                n == self.path_from_web@.len(),
                !self.state,
                !old(self).state,
                self.path_from_web@ == old(self).path_from_web@,
                roots == roots_view(self.path_from_web@),
                i <= n,
                forall|j: int| 0 <= j < i ==> !is_prefix(roots[j], desired@),
                !roots.contains(desired@),
            decreases n - i,
        {
            if desired.starts_with(&self.path_from_web[i]) {
                assert(is_prefix(roots[i as int], desired@));
                return Err(AddError::Nested);
            }
            i = i + 1;
        }
        let mut kept: Vec<FsPath> = Vec::new();
        let mut i: usize = 0;
        while i < n
            invariant
                n == self.path_from_web@.len(),
                !self.state,
                !old(self).state,
                self.path_from_web@ == old(self).path_from_web@,
                roots == roots_view(self.path_from_web@),
                i <= n,
                roots_view(kept@) == roots.subrange(0, i as int).filter(|r: Seq<Seq<u8>>| !is_prefix(desired@, r)),
            decreases n - i,
        {
            proof {
                reveal(Seq::filter);
                assert(roots.subrange(0, i + 1).drop_last() =~= roots.subrange(0, i as int));
            }
            if !self.path_from_web[i].starts_with(&desired) {
                let c = self.path_from_web[i].copy();
                kept.push(c);
                assert(roots_view(kept@) =~= roots.subrange(0, i as int).filter(|r: Seq<Seq<u8>>| !is_prefix(desired@, r)).push(roots[i as int]));
            }
            i = i + 1;
        }
        assert(roots.subrange(0, n as int) =~= roots);
        let ghost d = desired@;
        kept.push(desired);
        assert(roots_view(kept@) =~= roots.filter(|r: Seq<Seq<u8>>| !is_prefix(d, r)).push(d));
        self.path_from_web = kept;
        Ok(())
    }

    /// Removes the root `path` while no session is active. Returns whether the
    /// state was inactive (the roots are left alone otherwise).
    pub fn del(&mut self, path: &FsPath) -> (r: bool)
        ensures
            r == !old(self).state,
            final(self).state == old(self).state,
            r ==> roots_view(final(self).path_from_web@)
                == roots_view(old(self).path_from_web@).filter(|p: Seq<Seq<u8>>| p != path@),
            !r ==> final(self).path_from_web@ == old(self).path_from_web@,
    {
        if self.state {
            return false;
        }
        let ghost roots = roots_view(self.path_from_web@);
        let n = self.path_from_web.len();
        let mut kept: Vec<FsPath> = Vec::new();
        let mut i: usize = 0;
        while i < n
            invariant
                n == self.path_from_web@.len(),
                !self.state,
                !old(self).state,
                self.path_from_web@ == old(self).path_from_web@,
                roots == roots_view(self.path_from_web@),
                i <= n,
                roots_view(kept@) == roots.subrange(0, i as int).filter(|p: Seq<Seq<u8>>| p != path@),
            decreases n - i,
        {
            proof {
                reveal(Seq::filter);
                assert(roots.subrange(0, i + 1).drop_last() =~= roots.subrange(0, i as int));
            }
            if !self.path_from_web[i].same(path) {
                let c = self.path_from_web[i].copy();
                kept.push(c);
                assert(roots_view(kept@) =~= roots.subrange(0, i as int).filter(|p: Seq<Seq<u8>>| p != path@).push(roots[i as int]));
            }
            i = i + 1;
        }
        assert(roots.subrange(0, n as int) =~= roots);
        self.path_from_web = kept;
        true
    }
}

/// Keeping some roots keeps them unrelated, and keeps only roots.
proof fn lemma_filter_disjoint(roots: Seq<Seq<Seq<u8>>>, pred: spec_fn(Seq<Seq<u8>>) -> bool)
    requires
        roots_disjoint(roots),
    ensures
        roots_disjoint(roots.filter(pred)),
        forall|x: Seq<Seq<u8>>| #[trigger] roots.filter(pred).contains(x) ==> roots.contains(x) && pred(x),
    decreases roots.len(),
{
    reveal(Seq::filter);
    if roots.len() > 0 {
        let init = roots.drop_last();
        let n = roots.len() - 1;
        assert forall|i: int, j: int| 0 <= i < init.len() && 0 <= j < init.len() && i != j
            implies !is_prefix(#[trigger] init[i], #[trigger] init[j]) by {
            assert(init[i] == roots[i] && init[j] == roots[j]);
        }
        lemma_filter_disjoint(init, pred);
        let f0 = init.filter(pred);
        assert forall|x: Seq<Seq<u8>>| init.contains(x) implies roots.contains(x) by {
            let k = choose|k: int| 0 <= k < init.len() && init[k] == x;
            assert(roots[k] == x);
        }
        if pred(roots.last()) {
            let f = f0.push(roots.last());
            assert forall|i: int, j: int| 0 <= i < f.len() && 0 <= j < f.len() && i != j
                implies !is_prefix(#[trigger] f[i], #[trigger] f[j]) by {
                if i < f0.len() && j < f0.len() {
                    assert(f[i] == f0[i] && f[j] == f0[j]);
                } else if i < f0.len() {
                    assert(f0.contains(f[i]));
                    let k = choose|k: int| 0 <= k < init.len() && init[k] == f[i];
                    assert(roots[k] == f[i] && roots[n] == f[j]);
                } else {
                    assert(f0.contains(f[j]));
                    let k = choose|k: int| 0 <= k < init.len() && init[k] == f[j];
                    assert(roots[k] == f[j] && roots[n] == f[i]);
                }
            }
            assert forall|x: Seq<Seq<u8>>| #[trigger] f.contains(x) implies roots.contains(x) && pred(x) by {
                if x != roots.last() {
                    let k = choose|k: int| 0 <= k < f.len() && f[k] == x;
                    assert(f0[k] == x);
                    assert(f0.contains(x));
                } else {
                    assert(roots[n] == x);
                }
            }
        }
    }
}

/// Admitting a root keeps the roots pairwise unrelated: no root is an
/// ancestor or a descendant of another.
pub proof fn lemma_admit_keeps_disjoint(roots: Seq<Seq<Seq<u8>>>, desired: Seq<Seq<u8>>)
    requires
        roots_disjoint(roots),
    ensures
        roots_disjoint(admit_spec(roots, desired)),
{
    if !(roots.contains(desired) || exists|i: int| 0 <= i < roots.len() && is_prefix(roots[i], desired)) {
        let pred = |r: Seq<Seq<u8>>| !is_prefix(desired, r);
        lemma_filter_disjoint(roots, pred);
        let f0 = roots.filter(pred);
        let f = f0.push(desired);
        assert forall|i: int, j: int| 0 <= i < f.len() && 0 <= j < f.len() && i != j
            implies !is_prefix(#[trigger] f[i], #[trigger] f[j]) by {
            if i < f0.len() && j < f0.len() {
                assert(f[i] == f0[i] && f[j] == f0[j]);
            } else if i < f0.len() {
                assert(f0.contains(f[i]));
                let k = choose|k: int| 0 <= k < roots.len() && roots[k] == f[i];
            } else {
                assert(f0.contains(f[j]));
            }
        }
        assert(admit_spec(roots, desired) == f);
    }
}

} // verus!
