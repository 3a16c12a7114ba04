//! Which stored files a record's whole history names.

use vstd::prelude::*;
use crate::canonical::ContentHash;
use crate::collections::OrderedSet;
use crate::entry::{Entry, EntryModel, EntryOp, EntryOpModel, Origin, OriginModel};
use crate::log::RecordLog;
use crate::order::Modeled;
use crate::resolution::{Transition, TransitionModel};
use crate::scan::{ScanTransition, ScanTransitionModel};
use crate::value::{
    CellState, CellStateModel, CellValue, CellValueModel, Op, OpModel, Scalar, ScalarModel,
};

verus! {

/// The payload that an origin names.
pub open spec fn origin_blob(o: OriginModel) -> Option<Seq<u8>> {
    match o {
        OriginModel::Derived(d) => Some(d.snapshot_ref),
        OriginModel::Overridden { superseded: Some(d) } => Some(d.snapshot_ref),
        _ => None,
    }
}

/// The file that a scalar names.
pub open spec fn scalar_blob(s: ScalarModel) -> Option<Seq<u8>> {
    match s {
        ScalarModel::Attachment(a) => Some(a.hash),
        _ => None,
    }
}

/// Whether a cell's state names a file.
pub open spec fn state_names(s: CellStateModel, h: Seq<u8>) -> bool {
    match s {
        CellStateModel::Empty => false,
        CellStateModel::Value(CellValueModel::One(v)) => scalar_blob(v) == Some(h),
        CellStateModel::Value(CellValueModel::Many(vs)) => exists|i: int|
            0 <= i < vs.len() && scalar_blob(#[trigger] vs[i]) == Some(h),
    }
}

/// Whether an operation names a file: a written attachment, a payload
/// that landed, or bytes submitted for scanning.
pub open spec fn op_names(op: EntryOpModel, h: Seq<u8>) -> bool {
    match op {
        EntryOpModel::Cell(OpModel::Put { state, .. }) => state_names(state, h),
        EntryOpModel::Resolution {
            transition: TransitionModel::Land { snapshot, .. },
            ..
        } => snapshot == h,
        EntryOpModel::Scan { transition: ScanTransitionModel::Request { hash }, .. } => hash == h,
        _ => false,
    }
}

/// Whether an entry names a file.
pub open spec fn entry_names(e: EntryModel, h: Seq<u8>) -> bool {
    origin_blob(e.content.origin) == Some(h) || exists|i: int|
        0 <= i < e.content.ops.len() && op_names(#[trigger] e.content.ops[i], h)
}

/// Whether a log names a file, in whatever entry.
pub open spec fn log_names(entries: Seq<EntryModel>, h: Seq<u8>) -> bool {
    exists|i: int| 0 <= i < entries.len() && entry_names(#[trigger] entries[i], h)
}

fn add_state(s: &CellState, blobs: &mut OrderedSet<ContentHash>)
    ensures
        forall|h: Seq<u8>| #[trigger]
            final(blobs)@.contains(h) <==> old(blobs)@.contains(h) || state_names(s@, h),
{
    match s {
        CellState::Empty => {},
        CellState::Value(CellValue::One(v)) => {
            if let Scalar::Attachment(a) = v {
                blobs.insert(a.hash.dup());
            }
        },
        CellState::Value(CellValue::Many(vs)) => {
            let ghost m = vs.deep_view();
            let mut i: usize = 0;
            while i < vs.len()
                invariant
                    i <= vs@.len(),
                    m == vs.deep_view(),
                    forall|h: Seq<u8>| #[trigger]
                        blobs@.contains(h) <==> old(blobs)@.contains(h) || exists|j: int|
                            0 <= j < i && scalar_blob(#[trigger] m[j]) == Some(h),
                decreases vs@.len() - i,
            {
                let ghost before = blobs@;
                assert(m[i as int] == vs@[i as int].deep_view());
                if let Scalar::Attachment(a) = &vs[i] {
                    blobs.insert(a.hash.dup());
                    assert(scalar_blob(m[i as int]) == Some(a@.hash));
                }
                proof {
                    assert forall|h: Seq<u8>| #[trigger]
                        blobs@.contains(h) <==> old(blobs)@.contains(h) || exists|j: int|
                            0 <= j < i + 1 && scalar_blob(#[trigger] m[j]) == Some(h) by {
                        if before.contains(h) && !old(blobs)@.contains(h) {
                            let j = choose|j: int|
                                0 <= j < i && scalar_blob(#[trigger] m[j]) == Some(h);
                            assert(0 <= j < i + 1 && scalar_blob(m[j]) == Some(h));
                        }
                    }
                }
                i += 1;
            }
        },
    }
}

fn add_op(op: &EntryOp, blobs: &mut OrderedSet<ContentHash>)
    ensures
        forall|h: Seq<u8>| #[trigger]
            final(blobs)@.contains(h) <==> old(blobs)@.contains(h) || op_names(op@, h),
{
    match op {
        EntryOp::Cell(Op::Put { state, .. }) => {
            add_state(state, blobs);
        },
        EntryOp::Resolution { transition: Transition::Land { snapshot, .. }, .. } => {
            blobs.insert(snapshot.dup());
        },
        EntryOp::Scan { transition: ScanTransition::Request { hash }, .. } => {
            blobs.insert(hash.dup());
        },
        _ => {},
    }
}

fn add_entry(e: &Entry, blobs: &mut OrderedSet<ContentHash>)
    ensures
        forall|h: Seq<u8>| #[trigger]
            final(blobs)@.contains(h) <==> old(blobs)@.contains(h) || entry_names(e@, h),
{
    match &e.content.origin {
        Origin::Derived(d) => {
            blobs.insert(d.snapshot_ref.dup());
        },
        Origin::Overridden { superseded: Some(d) } => {
            blobs.insert(d.snapshot_ref.dup());
        },
        _ => {},
    }
    let ghost start = blobs@;
    let ghost ops = e@.content.ops;
    let mut i: usize = 0;
    while i < e.content.ops.len()
        invariant
            i <= e.content.ops@.len(),
            ops == e@.content.ops,
            forall|h: Seq<u8>| #[trigger]
                blobs@.contains(h) <==> start.contains(h) || exists|j: int|
                    0 <= j < i && op_names(#[trigger] ops[j], h),
        decreases e.content.ops@.len() - i,
    {
        let ghost before = blobs@;
        assert(ops[i as int] == e.content.ops@[i as int]@);
        add_op(&e.content.ops[i], blobs);
        proof {
            assert forall|h: Seq<u8>| #[trigger]
                blobs@.contains(h) <==> start.contains(h) || exists|j: int|
                    0 <= j < i + 1 && op_names(#[trigger] ops[j], h) by {
                if before.contains(h) && !start.contains(h) {
                    let j = choose|j: int| 0 <= j < i && op_names(#[trigger] ops[j], h);
                    assert(0 <= j < i + 1 && op_names(ops[j], h));
                }
                if op_names(ops[i as int], h) {
                    assert(0 <= i < i + 1);
                }
            }
        }
        i += 1;
    }
}

impl RecordLog {
    /// Every file that the whole log names: attachments in every entry,
    /// superseded ones included, payloads in origins, payloads that
    /// landed, and bytes submitted for scanning.
    pub fn referenced_blobs(&self) -> (r: OrderedSet<ContentHash>)
        ensures
            forall|h: Seq<u8>| #[trigger] r@.contains(h) <==> log_names(self@.entries, h),
    {
        let entries = self.entries();
        let ghost m = self@.entries;
        let mut blobs: OrderedSet<ContentHash> = OrderedSet::new();
        let mut i: usize = 0;
        while i < entries.len()
            invariant
                i <= entries@.len(),
                m == entries.deep_view(),
                forall|h: Seq<u8>| #[trigger]
                    blobs@.contains(h) <==> exists|j: int|
                        0 <= j < i && entry_names(#[trigger] m[j], h),
            decreases entries@.len() - i,
        {
            let ghost before = blobs@;
            assert(m[i as int] == entries@[i as int]@);
            add_entry(&entries[i], &mut blobs);
            proof {
                assert forall|h: Seq<u8>| #[trigger]
                    blobs@.contains(h) <==> exists|j: int|
                        0 <= j < i + 1 && entry_names(#[trigger] m[j], h) by {
                    if before.contains(h) {
                        let j = choose|j: int| 0 <= j < i && entry_names(#[trigger] m[j], h);
                        assert(0 <= j < i + 1 && entry_names(m[j], h));
                    }
                    if entry_names(m[i as int], h) {
                        assert(0 <= i < i + 1);
                    }
                }
            }
            i += 1;
        }
        blobs
    }
}

} // verus!
