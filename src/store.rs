//! Change detection: what one file event does to the audit store.
//!
//! The store keeps one record per observed path, holding the file's baseline
//! (its last known content), and an append-only list of event records. The
//! functions here decide, from the event, the stored baseline and the file's
//! current content, which rows are written; the caller performs the writes.

use vstd::prelude::*;
use crate::diff::{diff_spec, get_diff};
use crate::path::copy_bytes;

verus! {

/// The classified nature of a file change. `Reconcile` comes only from the
/// startup pass that looks for drift while the engine was inactive.
#[derive(PartialEq, Eq, Structural, Clone, Copy, Debug)]
pub enum EventKind {
    Create,
    Delete,
    Modify,
    MovedFrom,
    MovedTo,
    Reconcile,
}

/// The kind written in an event record.
#[derive(PartialEq, Eq, Structural, Clone, Copy, Debug)]
pub enum StoredKind {
    Create,
    Delete,
    Modify,
    MovedFrom,
    MovedTo,
}

impl StoredKind {
    /// The name of the kind in the store's `type_event` column.
    pub fn label(&self) -> (r: &'static str)
        ensures
            r@ == stored_label(*self),
    {
        match self {
            StoredKind::Create => "CREATE",
            StoredKind::Delete => "DELETE",
            StoredKind::Modify => "MODIFY",
            StoredKind::MovedFrom => "MOVED_FROM",
            StoredKind::MovedTo => "MOVED_TO",
        }
    }
}

/// Column text of each stored kind.
pub open spec fn stored_label(k: StoredKind) -> Seq<char> {
    match k {
        StoredKind::Create => "CREATE"@,
        StoredKind::Delete => "DELETE"@,
        StoredKind::Modify => "MODIFY"@,
        StoredKind::MovedFrom => "MOVED_FROM"@,
        StoredKind::MovedTo => "MOVED_TO"@,
    }
}

/// An event record to append: its kind and its diff.
pub struct EventRow {
    pub kind: StoredKind,
    pub diff: Vec<u8>,
}

/// The writes that one file event calls for, in this order: create the
/// path's record with a baseline, append an event record, set the baseline.
pub struct StorePlan {
    pub new_record: Option<Vec<u8>>,
    pub event: Option<EventRow>,
    pub new_baseline: Option<Vec<u8>>,
}

/// What a plan holds, as plain sequences.
pub struct PlanView {
    pub new_record: Option<Seq<u8>>,
    pub event: Option<(StoredKind, Seq<u8>)>,
    pub new_baseline: Option<Seq<u8>>,
}

pub open spec fn opt_view(o: Option<Vec<u8>>) -> Option<Seq<u8>> {
    match o {
        Some(v) => Some(v@),
        None => None,
    }
}

impl View for StorePlan {
    type V = PlanView;

    open spec fn view(&self) -> PlanView {
        PlanView {
            new_record: opt_view(self.new_record),
            event: match self.event {
                Some(e) => Some((e.kind, e.diff@)),
                None => None,
            },
            new_baseline: opt_view(self.new_baseline),
        }
    }
}

/// The plan for an event of kind `kind` on a path whose record holds
/// `existing` (none yet: `None`) while the file's content is `current`
/// (empty when it cannot be read). The diff of a reconciliation is empty
/// exactly when baseline and content are equal, so its test is written so.
pub open spec fn plan_spec(kind: EventKind, existing: Option<Seq<u8>>, current: Seq<u8>) -> PlanView {
    let base = match existing {
        Some(b) => b,
        None => current,
    };
    let new_record = match existing {
        Some(_) => None,
        None => Some(current),
    };
    let d = diff_spec(base, current);
    match kind {
        EventKind::Create => PlanView {
            new_record,
            event: Some((StoredKind::Create, d)),
            new_baseline: Some(current),
        },
        EventKind::Modify => PlanView {
            new_record,
            event: Some((StoredKind::Modify, d)),
            new_baseline: Some(current),
        },
        EventKind::MovedTo => PlanView {
            new_record,
            event: Some((StoredKind::MovedTo, d)),
            new_baseline: Some(current),
        },
        EventKind::Delete => PlanView {
            new_record,
            event: Some((StoredKind::Delete, Seq::empty())),
            new_baseline: None,
        },
        EventKind::MovedFrom => PlanView {
            new_record,
            event: Some((StoredKind::MovedFrom, Seq::empty())),
            new_baseline: None,
        },
        EventKind::Reconcile => if base == current {
            PlanView { new_record, event: None, new_baseline: None }
        } else {
            PlanView {
                new_record,
                event: Some((StoredKind::Modify, d)),
                new_baseline: Some(current),
            }
        },
    }
}

/// Decides the writes for one file event: the path's record is first made to
/// exist (baseline = current content); then content-carrying kinds store the
/// diff from the baseline and advance it, removals store an empty diff and
/// keep it, and reconciliation writes only when the diff is non-empty.
pub fn check_file(kind: EventKind, existing: &Option<Vec<u8>>, current: &Vec<u8>) -> (r: StorePlan)
    ensures
        r@ == plan_spec(kind, opt_view(*existing), current@),
{
    let new_record = match existing {
        Some(_) => None,
        None => Some(copy_bytes(current)),
    };
    let d = match existing {
        Some(b) => get_diff(b, current),
        None => get_diff(current, current),
    };
    match kind {
        EventKind::Create => StorePlan {
            new_record,
            event: Some(EventRow { kind: StoredKind::Create, diff: d }),
            new_baseline: Some(copy_bytes(current)),
        },
        EventKind::Modify => StorePlan {
            new_record,
            event: Some(EventRow { kind: StoredKind::Modify, diff: d }),
            new_baseline: Some(copy_bytes(current)),
        },
        EventKind::MovedTo => StorePlan {
            new_record,
            event: Some(EventRow { kind: StoredKind::MovedTo, diff: d }),
            new_baseline: Some(copy_bytes(current)),
        },
        EventKind::Delete => StorePlan {
            new_record,
            event: Some(EventRow { kind: StoredKind::Delete, diff: Vec::new() }),
            new_baseline: None,
        },
        EventKind::MovedFrom => StorePlan {
            new_record,
            event: Some(EventRow { kind: StoredKind::MovedFrom, diff: Vec::new() }),
            new_baseline: None,
        },
        EventKind::Reconcile => if d.len() == 0 {
            StorePlan { new_record, event: None, new_baseline: None }
        } else {
            StorePlan {
                new_record,
                event: Some(EventRow { kind: StoredKind::Modify, diff: d }),
                new_baseline: Some(copy_bytes(current)),
            }
        },
    }
}

/// An event record as the store holds it.
pub struct EventEntry {
    pub kind: StoredKind,
    pub path: Seq<Seq<u8>>,
    pub diff: Seq<u8>,
}

/// The audit store: each recorded path's baseline, and the event log in
/// insertion order.
pub struct AuditModel {
    pub baselines: Map<Seq<Seq<u8>>, Seq<u8>>,
    pub events: Seq<EventEntry>,
}

/// The baseline held for `p`, if it has a record.
pub open spec fn record_of(m: AuditModel, p: Seq<Seq<u8>>) -> Option<Seq<u8>> {
    if m.baselines.contains_key(p) {
        Some(m.baselines[p])
    } else {
        None
    }
}

/// The store after the writes of `plan` for path `p`.
pub open spec fn apply_plan(m: AuditModel, p: Seq<Seq<u8>>, plan: PlanView) -> AuditModel {
    let b1 = match plan.new_record {
        Some(b) => m.baselines.insert(p, b),
        None => m.baselines,
    };
    let b2 = match plan.new_baseline {
        Some(b) => b1.insert(p, b),
        None => b1,
    };
    let events = match plan.event {
        Some(e) => m.events.push(EventEntry { kind: e.0, path: p, diff: e.1 }),
        None => m.events,
    };
    AuditModel { baselines: b2, events }
}

/// The store after one file event on `p` whose current content is `current`.
pub open spec fn process_spec(m: AuditModel, kind: EventKind, p: Seq<Seq<u8>>, current: Seq<u8>) -> AuditModel {
    apply_plan(m, p, plan_spec(kind, record_of(m, p), current))
}

/// The store after a reconciliation pass over `files`, pairs of a path and
/// its content, in the order of the walk.
pub open spec fn reconcile_pass(m: AuditModel, files: Seq<(Seq<Seq<u8>>, Seq<u8>)>) -> AuditModel
    decreases files.len(),
{
    if files.len() == 0 {
        m
    } else {
        reconcile_pass(process_spec(m, EventKind::Reconcile, files[0].0, files[0].1), files.drop_first())
    }
}

/// No path is walked twice.
pub open spec fn distinct_paths(files: Seq<(Seq<Seq<u8>>, Seq<u8>)>) -> bool {
    forall|i: int, j: int| 0 <= i < j < files.len() ==> files[i].0 != files[j].0
}

/// A pass leaves the baseline of a path that it does not walk as it was.
proof fn lemma_pass_keeps_other(m: AuditModel, files: Seq<(Seq<Seq<u8>>, Seq<u8>)>, p: Seq<Seq<u8>>)
    requires
        forall|i: int| 0 <= i < files.len() ==> files[i].0 != p,
    ensures
        record_of(reconcile_pass(m, files), p) == record_of(m, p),
    decreases files.len(),
{
    if files.len() > 0 {
        let m1 = process_spec(m, EventKind::Reconcile, files[0].0, files[0].1);
        assert(record_of(m1, p) == record_of(m, p));
        let rest = files.drop_first();
        assert forall|i: int| 0 <= i < rest.len() implies rest[i].0 != p by {
            assert(rest[i] == files[i + 1]);
        }
        lemma_pass_keeps_other(m1, rest, p);
    }
}

/// After a pass every walked path's baseline is its walked content.
proof fn lemma_pass_sets_baselines(m: AuditModel, files: Seq<(Seq<Seq<u8>>, Seq<u8>)>)
    requires
        distinct_paths(files),
    ensures
        forall|i: int| 0 <= i < files.len() ==> record_of(reconcile_pass(m, files), #[trigger] files[i].0) == Some(files[i].1),
    decreases files.len(),
{
    if files.len() > 0 {
        let m1 = process_spec(m, EventKind::Reconcile, files[0].0, files[0].1);
        assert(record_of(m1, files[0].0) == Some(files[0].1));
        let rest = files.drop_first();
        assert forall|i: int, j: int| 0 <= i < j < rest.len() implies rest[i].0 != rest[j].0 by {
            assert(rest[i] == files[i + 1]);
            assert(rest[j] == files[j + 1]);
        }
        lemma_pass_sets_baselines(m1, rest);
        assert forall|i: int| 0 <= i < rest.len() implies rest[i].0 != files[0].0 by {
            assert(rest[i] == files[i + 1]);
        }
        lemma_pass_keeps_other(m1, rest, files[0].0);
        assert forall|i: int| 0 <= i < files.len() implies record_of(reconcile_pass(m, files), #[trigger] files[i].0) == Some(files[i].1) by {
            if i > 0 {
                assert(files[i] == rest[i - 1]);
            }
        }
    }
}

/// A pass over files whose baselines already match their content changes nothing.
proof fn lemma_pass_stable(m: AuditModel, files: Seq<(Seq<Seq<u8>>, Seq<u8>)>)
    requires
        forall|i: int| 0 <= i < files.len() ==> record_of(m, #[trigger] files[i].0) == Some(files[i].1),
    ensures
        reconcile_pass(m, files) == m,
    decreases files.len(),
{
    if files.len() > 0 {
        let m1 = process_spec(m, EventKind::Reconcile, files[0].0, files[0].1);
        assert(record_of(m, files[0].0) == Some(files[0].1));
        assert(m1.baselines == m.baselines);
        assert(m1 == m);
        let rest = files.drop_first();
        assert forall|i: int| 0 <= i < rest.len() implies record_of(m, #[trigger] rest[i].0) == Some(rest[i].1) by {
            assert(rest[i] == files[i + 1]);
        }
        lemma_pass_stable(m, rest);
    }
}

/// Reconciliation is idempotent: a second pass over the same unchanged files
/// appends no event record and leaves every baseline as the first pass left it.
pub proof fn lemma_reconcile_idempotent(m: AuditModel, files: Seq<(Seq<Seq<u8>>, Seq<u8>)>)
    requires
        distinct_paths(files),
    ensures
        reconcile_pass(reconcile_pass(m, files), files) == reconcile_pass(m, files),
        reconcile_pass(reconcile_pass(m, files), files).events == reconcile_pass(m, files).events,
{
    let m2 = reconcile_pass(m, files);
    lemma_pass_sets_baselines(m, files);
    lemma_pass_stable(m2, files);
}

} // verus!
