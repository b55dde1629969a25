//! The monitoring loop's decisions: classifying a raw notification, routing
//! it, and deciding after each read whether the loop goes on.

use vstd::prelude::*;
use crate::path::FsPath;
use crate::registry::{Entry, WatchRegistry};
use crate::store::EventKind;

verus! {

/// Kernel mask bit: a file was modified.
pub const IN_MODIFY: u32 = 0x2;
/// Kernel mask bit: an entry was moved out of a watched directory.
pub const IN_MOVED_FROM: u32 = 0x40;
/// Kernel mask bit: an entry was moved into a watched directory.
pub const IN_MOVED_TO: u32 = 0x80;
/// Kernel mask bit: an entry was created.
pub const IN_CREATE: u32 = 0x100;
/// Kernel mask bit: an entry was deleted.
pub const IN_DELETE: u32 = 0x200;
/// Kernel mask bit: the entry is a directory.
pub const IN_ISDIR: u32 = 0x40000000;

/// What happened to a directory.
#[derive(PartialEq, Eq, Structural, Clone, Copy, Debug)]
pub enum DirEventKind {
    Create,
    Delete,
    MovedFrom,
    MovedTo,
}

/// A recognised notification: on a directory, or on a file.
#[derive(PartialEq, Eq, Structural, Clone, Copy, Debug)]
pub enum Classified {
    Dir(DirEventKind),
    File(EventKind),
}

/// The classification of a raw mask: with the directory flag, exactly one of
/// create, delete, moved-from, moved-to beside it; without it, exactly one of
/// modify, delete, create, moved-from, moved-to. Anything else is ignored.
pub open spec fn classify_spec(mask: u32) -> Option<Classified> {
    if mask & IN_ISDIR != 0 {
        let rest = mask ^ IN_ISDIR;
        if rest == IN_CREATE {
            Some(Classified::Dir(DirEventKind::Create))
        } else if rest == IN_DELETE {
            Some(Classified::Dir(DirEventKind::Delete))
        } else if rest == IN_MOVED_FROM {
            Some(Classified::Dir(DirEventKind::MovedFrom))
        } else if rest == IN_MOVED_TO {
            Some(Classified::Dir(DirEventKind::MovedTo))
        } else {
            None
        }
    } else if mask == IN_MODIFY {
        Some(Classified::File(EventKind::Modify))
    } else if mask == IN_DELETE {
        Some(Classified::File(EventKind::Delete))
    } else if mask == IN_CREATE {
        Some(Classified::File(EventKind::Create))
    } else if mask == IN_MOVED_FROM {
        Some(Classified::File(EventKind::MovedFrom))
    } else if mask == IN_MOVED_TO {
        Some(Classified::File(EventKind::MovedTo))
    } else {
        None
    }
}

/// Classifies a raw event mask.
pub fn classify(mask: u32) -> (r: Option<Classified>)
    ensures
        r == classify_spec(mask),
{
    if mask & IN_ISDIR != 0 {
        let rest = mask ^ IN_ISDIR;
        if rest == IN_CREATE {
            Some(Classified::Dir(DirEventKind::Create))
        } else if rest == IN_DELETE {
            Some(Classified::Dir(DirEventKind::Delete))
        } else if rest == IN_MOVED_FROM {
            Some(Classified::Dir(DirEventKind::MovedFrom))
        } else if rest == IN_MOVED_TO {
            Some(Classified::Dir(DirEventKind::MovedTo))
        } else {
            None
        }
    } else if mask == IN_MODIFY {
        Some(Classified::File(EventKind::Modify))
    } else if mask == IN_DELETE {
        Some(Classified::File(EventKind::Delete))
    } else if mask == IN_CREATE {
        Some(Classified::File(EventKind::Create))
    } else if mask == IN_MOVED_FROM {
        Some(Classified::File(EventKind::MovedFrom))
    } else if mask == IN_MOVED_TO {
        Some(Classified::File(EventKind::MovedTo))
    } else {
        None
    }
}

/// Where a raw event goes.
pub enum Dispatch {
    /// Unresolvable (unknown descriptor, no name) or unrecognised: dropped.
    Dropped,
    /// A directory was created or moved in: walk from it and record the
    /// subscriptions.
    Subscribe(FsPath),
    /// A directory was deleted or moved out: the registry has been updated.
    Unwatched,
    /// A file event, for the audit store.
    File(EventKind, FsPath),
}

/// Routes one raw event `(wd, name, mask)`: its full path is the directory of
/// `wd` joined with `name`; directory deletions and moves-out update the
/// registry, directory creations and moves-in ask for a walk, file events go
/// to the store. The registry is left alone in every other case.
pub fn dispatch(reg: &mut WatchRegistry, wd: i32, name: Option<Vec<u8>>, mask: u32) -> (r: Dispatch)
    requires
        old(reg).wf(),
    ensures
        final(reg).wf(),
        match r {
            Dispatch::Dropped => {
                &&& final(reg)@ == old(reg)@
                &&& (name is None || (forall|p: Seq<Seq<u8>>| !old(reg)@.contains((wd, p)))
                    || classify_spec(mask) is None)
            },
            Dispatch::Subscribe(p) => {
                &&& final(reg)@ == old(reg)@
                &&& name is Some
                &&& old(reg)@.contains((wd, p@.drop_last()))
                &&& p@.len() > 0 && p@.last() == name->Some_0@
                &&& (classify_spec(mask) == Some(Classified::Dir(DirEventKind::Create))
                    || classify_spec(mask) == Some(Classified::Dir(DirEventKind::MovedTo)))
            },
            Dispatch::Unwatched => exists|p: Seq<Seq<u8>>| {
                &&& old(reg)@.contains((wd, p))
                &&& name is Some
                &&& ({
                    let full = p.push(name->Some_0@);
                    ||| classify_spec(mask) == Some(Classified::Dir(DirEventKind::Delete))
                        && final(reg)@ == old(reg)@.filter(|e: Entry| e.1 != full)
                    ||| classify_spec(mask) == Some(Classified::Dir(DirEventKind::MovedFrom))
                        && final(reg)@ == old(reg)@.filter(|e: Entry| !crate::path::is_prefix(full, e.1))
                })
            },
            Dispatch::File(k, p) => {
                &&& final(reg)@ == old(reg)@
                &&& name is Some
                &&& old(reg)@.contains((wd, p@.drop_last()))
                &&& p@.len() > 0 && p@.last() == name->Some_0@
                &&& classify_spec(mask) == Some(Classified::File(k))
            },
        },
{
    let name = match name {
        Some(n) => n,
        None => return Dispatch::Dropped,
    };
    let dir = match reg.resolve(wd) {
        Some(d) => d,
        None => return Dispatch::Dropped,
    };
    let full = dir.join(&name);
    assert(full@.drop_last() =~= dir@);
    match classify(mask) {
        Some(Classified::Dir(DirEventKind::Create)) => Dispatch::Subscribe(full),
        Some(Classified::Dir(DirEventKind::MovedTo)) => Dispatch::Subscribe(full),
        Some(Classified::Dir(DirEventKind::Delete)) => {
            reg.dir_delete(&full);
            Dispatch::Unwatched
        },
        Some(Classified::Dir(DirEventKind::MovedFrom)) => {
            reg.dir_moved_from(&full);
            Dispatch::Unwatched
        },
        Some(Classified::File(k)) => Dispatch::File(k, full),
        None => Dispatch::Dropped,
    }
}

/// What a non-blocking read of the notification source gave.
#[derive(PartialEq, Eq, Structural, Clone, Copy, Debug)]
pub enum ReadOutcome {
    /// Some events were read (and have been handled).
    Events,
    /// No event was available.
    NoData,
    /// The read failed otherwise.
    Failed,
}

/// Whether the loop polls again.
#[derive(PartialEq, Eq, Structural, Clone, Copy, Debug)]
pub enum LoopStep {
    Continue,
    Stop,
}

/// The loop's decision after a read: a failure ends it; when no data was
/// available it consults the run state and ends when the session has been
/// stopped; otherwise it polls again.
pub fn next_step(outcome: ReadOutcome, active: bool) -> (r: LoopStep)
    ensures
        r == LoopStep::Stop <==> (outcome == ReadOutcome::Failed || (outcome == ReadOutcome::NoData && !active)),
{
    match outcome {
        ReadOutcome::Events => LoopStep::Continue,
        ReadOutcome::NoData => if active {
            LoopStep::Continue
        } else {
            LoopStep::Stop
        },
        ReadOutcome::Failed => LoopStep::Stop,
    }
}

} // verus!
