//! What a checkpoint freezes, and which writes are reported against it;
//! and which files a log keeps alive.

use vstd::prelude::*;
use crate::checkpoint;
use crate::entry;
use crate::roots;
use crate::schema_laws;
use crate::checkpoint::{Checkpoint, CheckpointModel, CheckpointViolationModel};
use crate::entry::{EntryModel, EntryOpModel, OriginModel};
use crate::ids::PathSegModel;
use crate::resolution::{ExpectedResolutionModel, Resolution};
use crate::value::{CellStateModel, CellValueModel, OpModel, ScalarModel};

verus! {

/// Whether an entry's first checkpoint is this one.
pub open spec fn sets_checkpoint(e: EntryModel, c: CheckpointModel) -> bool {
    exists|k: int|
        {
            &&& 0 <= k < e.content.ops.len()
            &&& #[trigger] e.content.ops[k] == EntryOpModel::Checkpoint(c)
            &&& forall|j: int| 0 <= j < k ==> !((#[trigger] e.content.ops[j]) is Checkpoint)
        }
}

/// Whether an entry sets no checkpoint.
pub open spec fn sets_none(e: EntryModel) -> bool {
    forall|k: int| 0 <= k < e.content.ops.len() ==> !((#[trigger] e.content.ops[k]) is Checkpoint)
}

proof fn first_checkpoint_is_found(ops: Seq<EntryOpModel>, k: int)
    requires
        0 <= k < ops.len(),
        ops[k] is Checkpoint,
        forall|j: int| 0 <= j < k ==> !((#[trigger] ops[j]) is Checkpoint),
    ensures
        checkpoint::checkpoint_in(ops) == Some(ops[k]->Checkpoint_0),
    decreases ops.len(),
{
    let rest = ops.drop_last();
    if k < ops.len() - 1 {
        assert forall|j: int| 0 <= j < k implies !((#[trigger] rest[j]) is Checkpoint) by {
            assert(rest[j] == ops[j]);
        }
        assert(rest[k] == ops[k]);
        first_checkpoint_is_found(rest, k);
    } else {
        assert forall|j: int| 0 <= j < rest.len() implies !((
        #[trigger] rest[j]) is Checkpoint) by {
            assert(rest[j] == ops[j]);
        }
        no_checkpoint_is_found(rest);
        assert(ops.last() == ops[k]);
    }
}

proof fn no_checkpoint_is_found(ops: Seq<EntryOpModel>)
    requires
        forall|j: int| 0 <= j < ops.len() ==> !((#[trigger] ops[j]) is Checkpoint),
    ensures
        checkpoint::checkpoint_in(ops) is None,
    decreases ops.len(),
{
    if ops.len() > 0 {
        let rest = ops.drop_last();
        assert forall|j: int| 0 <= j < rest.len() implies !((
        #[trigger] rest[j]) is Checkpoint) by {
            assert(rest[j] == ops[j]);
        }
        no_checkpoint_is_found(rest);
        assert(ops[ops.len() - 1] == ops.last());
    }
}

proof fn some_checkpoint_is_first(ops: Seq<EntryOpModel>)
    ensures
        checkpoint::checkpoint_in(ops) matches Some(c) ==> exists|k: int|
            {
                &&& 0 <= k < ops.len()
                &&& #[trigger] ops[k] == EntryOpModel::Checkpoint(c)
                &&& forall|j: int| 0 <= j < k ==> !((#[trigger] ops[j]) is Checkpoint)
            },
        checkpoint::checkpoint_in(ops) is None ==> forall|j: int|
            0 <= j < ops.len() ==> !((#[trigger] ops[j]) is Checkpoint),
    decreases ops.len(),
{
    if ops.len() > 0 {
        let rest = ops.drop_last();
        some_checkpoint_is_first(rest);
        assert(ops[ops.len() - 1] == ops.last());
        match checkpoint::checkpoint_in(rest) {
            Some(c) => {
                let k = choose|k: int|
                    {
                        &&& 0 <= k < rest.len()
                        &&& #[trigger] rest[k] == EntryOpModel::Checkpoint(c)
                        &&& forall|j: int| 0 <= j < k ==> !((#[trigger] rest[j]) is Checkpoint)
                    };
                assert(ops[k] == rest[k]);
                assert forall|j: int| 0 <= j < k implies !((#[trigger] ops[j]) is Checkpoint) by {
                    assert(rest[j] == ops[j]);
                }
            },
            None => {
                assert forall|j: int| 0 <= j < ops.len() - 1 implies !((
                #[trigger] ops[j]) is Checkpoint) by {
                    assert(rest[j] == ops[j]);
                }
            },
        }
    }
}

proof fn checkpoints_agree(e: EntryModel)
    ensures
        forall|c: CheckpointModel| #[trigger]
            sets_checkpoint(e, c) <==> checkpoint::checkpoint_in(e.content.ops) == Some(c),
        sets_none(e) <==> checkpoint::checkpoint_in(e.content.ops) is None,
{
    let ops = e.content.ops;
    some_checkpoint_is_first(ops);
    assert forall|c: CheckpointModel| #[trigger] sets_checkpoint(e, c) implies checkpoint::checkpoint_in(ops)
        == Some(c) by {
        let k = choose|k: int|
            {
                &&& 0 <= k < e.content.ops.len()
                &&& #[trigger] e.content.ops[k] == EntryOpModel::Checkpoint(c)
                &&& forall|j: int| 0 <= j < k ==> !((#[trigger] e.content.ops[j]) is Checkpoint)
            };
        first_checkpoint_is_found(ops, k);
    }
    if sets_none(e) {
        no_checkpoint_is_found(ops);
    }
}

/// Whether an entry stands under the checkpoint at a place: it comes
/// later, and no entry between the two sets another.
pub open spec fn stands_under(entries: Seq<EntryModel>, at: int, j: int) -> bool {
    at < j < entries.len() && forall|i: int| at < i < j ==> sets_none(#[trigger] entries[i])
}

/// Whether an operation writes or clears a cell of a column.
pub open spec fn writes_into(op: EntryOpModel, column: Seq<char>) -> bool {
    match op {
        EntryOpModel::Cell(OpModel::Put { column: c, .. }) => c == column,
        EntryOpModel::Cell(OpModel::Unset { column: c, .. }) => c == column,
        _ => false,
    }
}

/// Whether an operation adds, removes or reorders items of a group.
pub open spec fn changes_items(op: EntryOpModel, group: Seq<char>) -> bool {
    match op {
        EntryOpModel::Cell(OpModel::AddItem { group: g, .. }) => g == group,
        EntryOpModel::Cell(OpModel::RemoveItem { group: g, .. }) => g == group,
        EntryOpModel::Cell(OpModel::Reorder { group: g, .. }) => g == group,
        _ => false,
    }
}

/// Whether an operation stays at or below a row path.
pub open spec fn stays_below_path(op: EntryOpModel, path: Seq<PathSegModel>) -> bool {
    match op {
        EntryOpModel::Cell(OpModel::Put { path: p, .. }) => path.is_prefix_of(p),
        EntryOpModel::Cell(OpModel::Unset { path: p, .. }) => path.is_prefix_of(p),
        EntryOpModel::Cell(OpModel::AddItem { parent, .. }) => path.is_prefix_of(parent),
        EntryOpModel::Cell(OpModel::RemoveItem { parent, .. }) => path.is_prefix_of(parent),
        EntryOpModel::Cell(OpModel::Reorder { parent, .. }) => path.is_prefix_of(parent),
        EntryOpModel::Resolution { scope, .. } => path.is_prefix_of(scope),
        _ => true,
    }
}

/// Whether a checkpoint expects an entry: a resolver wrote it, its
/// derivation is one that was open when the checkpoint was set, and it
/// stays where that resolution was asked for.
pub open spec fn is_awaited(e: EntryModel, c: CheckpointModel) -> bool {
    &&& e.envelope.actor.kind is Resolver
    &&& e.content.origin matches OriginModel::Derived(d) && exists|i: int|
        {
            &&& 0 <= i < c.expected.len()
            &&& (#[trigger] c.expected[i]).resolver == d.source
            &&& c.expected[i].resolver_version == d.source_version
            &&& c.expected[i].mapping_version == d.mapping_version
            &&& forall|k: int|
                0 <= k < e.content.ops.len() ==> stays_below_path(
                    #[trigger] e.content.ops[k],
                    c.expected[i].scope,
                )
        }
}

proof fn touched_are_written(ops: Seq<EntryOpModel>, c: CheckpointModel, x: Seq<char>)
    ensures
        checkpoint::touched_columns(ops, c).contains(x) <==> c.frozen_columns.contains(x) && exists|k: int|
            0 <= k < ops.len() && writes_into(#[trigger] ops[k], x),
        checkpoint::touched_groups(ops, c).contains(x) <==> c.frozen_groups.contains(x) && exists|k: int|
            0 <= k < ops.len() && changes_items(#[trigger] ops[k], x),
    decreases ops.len(),
{
    if ops.len() > 0 {
        let rest = ops.drop_last();
        let n = ops.len() - 1;
        touched_are_written(rest, c, x);
        assert(ops[n] == ops.last());
        if exists|k: int| 0 <= k < rest.len() && writes_into(#[trigger] rest[k], x) {
            let k = choose|k: int| 0 <= k < rest.len() && writes_into(#[trigger] rest[k], x);
            assert(writes_into(ops[k], x));
        }
        if exists|k: int| 0 <= k < ops.len() && writes_into(#[trigger] ops[k], x) {
            let k = choose|k: int| 0 <= k < ops.len() && writes_into(#[trigger] ops[k], x);
            if k < n {
                assert(writes_into(rest[k], x));
            }
        }
        if exists|k: int| 0 <= k < rest.len() && changes_items(#[trigger] rest[k], x) {
            let k = choose|k: int| 0 <= k < rest.len() && changes_items(#[trigger] rest[k], x);
            assert(changes_items(ops[k], x));
        }
        if exists|k: int| 0 <= k < ops.len() && changes_items(#[trigger] ops[k], x) {
            let k = choose|k: int| 0 <= k < ops.len() && changes_items(#[trigger] ops[k], x);
            if k < n {
                assert(changes_items(rest[k], x));
            }
        }
    }
}

proof fn awaited_are_expected(e: EntryModel, c: CheckpointModel)
    ensures
        checkpoint::is_expected_write(e, c) == is_awaited(e, c),
{
    if let OriginModel::Derived(d) = e.content.origin {
        assert forall|x: ExpectedResolutionModel| #[trigger] checkpoint::answers(e, x) == (x.resolver
            == d.source && x.resolver_version == d.source_version && x.mapping_version
            == d.mapping_version && forall|k: int|
            0 <= k < e.content.ops.len() ==> stays_below_path(
                #[trigger] e.content.ops[k],
                x.scope,
            )) by {
            assert forall|k: int| 0 <= k < e.content.ops.len() implies checkpoint::op_within(
                #[trigger] e.content.ops[k],
                x.scope,
            ) == stays_below_path(e.content.ops[k], x.scope) by {}
        }
        if is_awaited(e, c) {
            let i = choose|i: int|
                {
                    &&& 0 <= i < c.expected.len()
                    &&& (#[trigger] c.expected[i]).resolver == d.source
                    &&& c.expected[i].resolver_version == d.source_version
                    &&& c.expected[i].mapping_version == d.mapping_version
                    &&& forall|k: int|
                        0 <= k < e.content.ops.len() ==> stays_below_path(
                            #[trigger] e.content.ops[k],
                            c.expected[i].scope,
                        )
                };
            assert(checkpoint::answers(e, c.expected[i]));
        }
        if checkpoint::is_expected_write(e, c) {
            let i = choose|i: int| 0 <= i < c.expected.len() && checkpoint::answers(e, #[trigger] c.expected[i]);
            assert(c.expected[i].resolver == d.source);
        }
    }
}

/// Whether an entry writes into what a checkpoint froze and was not
/// expected there, with the frozen columns and groups that it touches.
pub open spec fn intrudes(
    e: EntryModel,
    c: CheckpointModel,
    columns: Set<Seq<char>>,
    groups: Set<Seq<char>>,
) -> bool {
    &&& !is_awaited(e, c)
    &&& (exists|x: Seq<char>| #[trigger] columns.contains(x)) || (exists|x: Seq<char>| #[trigger]
        groups.contains(x))
    &&& forall|x: Seq<char>| #[trigger]
        columns.contains(x) <==> c.frozen_columns.contains(x) && exists|k: int|
            0 <= k < e.content.ops.len() && writes_into(#[trigger] e.content.ops[k], x)
    &&& forall|x: Seq<char>| #[trigger]
        groups.contains(x) <==> c.frozen_groups.contains(x) && exists|k: int|
            0 <= k < e.content.ops.len() && changes_items(#[trigger] e.content.ops[k], x)
}

proof fn intruders_are_violations(
    e: EntryModel,
    c: CheckpointModel,
    columns: Set<Seq<char>>,
    groups: Set<Seq<char>>,
)
    ensures
        checkpoint::violation(e, c) == Some(
            CheckpointViolationModel::IllegalWrite { seq: e.envelope.seq, columns, groups },
        ) <==> intrudes(e, c, columns, groups),
        checkpoint::violation(e, c) matches Some(x) ==> x is IllegalWrite,
{
    let tc = checkpoint::touched_columns(e.content.ops, c);
    let tg = checkpoint::touched_groups(e.content.ops, c);
    awaited_are_expected(e, c);
    assert forall|x: Seq<char>| #[trigger] tc.contains(x) <==> c.frozen_columns.contains(x)
        && exists|k: int|
        0 <= k < e.content.ops.len() && writes_into(#[trigger] e.content.ops[k], x) by {
        touched_are_written(e.content.ops, c, x);
    }
    assert forall|x: Seq<char>| #[trigger] tg.contains(x) <==> c.frozen_groups.contains(x)
        && exists|k: int|
        0 <= k < e.content.ops.len() && changes_items(#[trigger] e.content.ops[k], x) by {
        touched_are_written(e.content.ops, c, x);
    }
    if intrudes(e, c, columns, groups) {
        assert(columns =~= tc);
        assert(groups =~= tg);
    }
    if checkpoint::violation(e, c) is Some {
        if tc != Set::<Seq<char>>::empty() {
            assert(!(tc =~= Set::<Seq<char>>::empty()));
            let x = choose|x: Seq<char>| tc.contains(x);
            assert(tc.contains(x));
        } else {
            assert(!(tg =~= Set::<Seq<char>>::empty()));
            let x = choose|x: Seq<char>| tg.contains(x);
            assert(tg.contains(x));
        }
    }
}

proof fn violations_are(entries: Seq<EntryModel>, c: CheckpointModel, x: CheckpointViolationModel)
    ensures
        checkpoint::violations(entries, c).contains(x) <==> exists|i: int|
            0 <= i < entries.len() && checkpoint::violation(#[trigger] entries[i], c) == Some(x),
    decreases entries.len(),
{
    if entries.len() > 0 {
        let rest = entries.drop_last();
        let n = entries.len() - 1;
        violations_are(rest, c, x);
        assert(entries[n] == entries.last());
        let more = match checkpoint::violation(entries.last(), c) {
            Some(v) => seq![v],
            None => Seq::empty(),
        };
        assert(checkpoint::violations(entries, c) =~= checkpoint::violations(rest, c) + more);
        schema_laws::join_contains(checkpoint::violations(rest, c), more, x);
        if let Some(v) = checkpoint::violation(entries.last(), c) {
            assert(more[0] == v);
        }
        if checkpoint::violations(rest, c).contains(x) {
            let i = choose|i: int|
                0 <= i < rest.len() && checkpoint::violation(#[trigger] rest[i], c) == Some(x);
            assert(entries[i] == rest[i]);
        }
        assert forall|i: int|
            0 <= i < entries.len() && checkpoint::violation(#[trigger] entries[i], c) == Some(
                x,
            ) implies checkpoint::violations(entries, c).contains(x) by {
            if i < n {
                assert(rest[i] == entries[i]);
            }
        }
    }
}

proof fn regimes_end(entries: Seq<EntryModel>, from: int)
    requires
        0 <= from <= entries.len(),
    ensures
        from <= checkpoint::regime_end(entries, from) <= entries.len(),
        forall|j: int|
            from <= j < checkpoint::regime_end(entries, from) - 1 ==> sets_none(#[trigger] entries[j]),
        checkpoint::regime_end(entries, from) < entries.len() ==> checkpoint::regime_end(entries, from) > from
            && !sets_none(entries[checkpoint::regime_end(entries, from) - 1]),
    decreases entries.len() - from,
{
    if from < entries.len() {
        checkpoints_agree(entries[from]);
        if checkpoint::checkpoint_in(entries[from].content.ops) is None {
            regimes_end(entries, from + 1);
        }
    }
}

/// What is reported against a checkpoint is what intrudes on it: the
/// entries behind it, up to the one that sets the next, that write into
/// what it froze and were not expected. At a place that sets no
/// checkpoint, this alone is reported.
pub proof fn intrusions_are_reported(
    entries: Seq<EntryModel>,
    at: u64,
    c: CheckpointModel,
    x: CheckpointViolationModel,
)
    ensures
        (at >= entries.len() || sets_none(entries[at as int])) ==> checkpoint::violations_after(entries, at)
            == seq![CheckpointViolationModel::UnknownCheckpoint { seq: at }],
        at < entries.len() && sets_checkpoint(entries[at as int], c) ==> (checkpoint::violations_after(
            entries,
            at,
        ).contains(x) <==> exists|j: int| #[trigger]
            stands_under(entries, at as int, j) && (x matches CheckpointViolationModel::IllegalWrite {
                seq,
                columns,
                groups,
            } && seq == entries[j].envelope.seq && intrudes(entries[j], c, columns, groups))),
{
    if at < entries.len() {
        checkpoints_agree(entries[at as int]);
        if sets_checkpoint(entries[at as int], c) {
            let from = at + 1;
            let end = checkpoint::regime_end(entries, from);
            regimes_end(entries, from);
            let part = entries.subrange(from, end);
            violations_are(part, c, x);
            assert forall|j: int| #[trigger] stands_under(entries, at as int, j) <==> from <= j
                < end by {
                if stands_under(entries, at as int, j) && j >= end {
                    assert(sets_none(entries[end - 1]));
                }
                if from <= j < end {
                    assert forall|i: int| at < i < j implies sets_none(#[trigger] entries[i]) by {}
                }
            }
            assert forall|i: int| 0 <= i < part.len() implies (checkpoint::violation(#[trigger] part[i], c)
                == Some(x)) == (x matches CheckpointViolationModel::IllegalWrite {
                seq,
                columns,
                groups,
            } && seq == entries[from + i].envelope.seq && intrudes(
                entries[from + i],
                c,
                columns,
                groups,
            )) by {
                assert(part[i] == entries[from + i]);
                if let CheckpointViolationModel::IllegalWrite { seq, columns, groups } = x {
                    intruders_are_violations(entries[from + i], c, columns, groups);
                } else {
                    intruders_are_violations(
                        entries[from + i],
                        c,
                        Set::<Seq<char>>::empty(),
                        Set::<Seq<char>>::empty(),
                    );
                }
            }
            if checkpoint::violations_after(entries, at).contains(x) {
                let i = choose|i: int|
                    0 <= i < part.len() && checkpoint::violation(#[trigger] part[i], c) == Some(x);
                assert(stands_under(entries, at as int, from + i));
            }
            assert forall|j: int|
                #[trigger] stands_under(entries, at as int, j) && (
                x matches CheckpointViolationModel::IllegalWrite { seq, columns, groups } && seq
                    == entries[j].envelope.seq && intrudes(
                    entries[j],
                    c,
                    columns,
                    groups,
                )) implies checkpoint::violations_after(entries, at).contains(x) by {
                assert(part[j - from] == entries[j]);
                assert(checkpoint::violation(part[j - from], c) == Some(x));
            }
        }
    }
}

/// An entry that sets a checkpoint adds it to the log's, with its place
/// and its hash; any other adds none.
pub proof fn checkpoints_are_listed(entries: Seq<EntryModel>, e: EntryModel, c: CheckpointModel)
    ensures
        checkpoint::checkpoints_of(Seq::empty()).len() == 0,
        sets_none(e) ==> checkpoint::checkpoints_of(entries.push(e)) == checkpoint::checkpoints_of(entries),
        sets_checkpoint(e, c) ==> {
            let more = checkpoint::checkpoints_of(entries.push(e));
            &&& more.len() == checkpoint::checkpoints_of(entries).len() + 1
            &&& more.drop_last() == checkpoint::checkpoints_of(entries)
            &&& more.last().seq == e.envelope.seq
            &&& more.last().entry_hash == entry::envelope_hash(e.envelope)
            &&& more.last().checkpoint == c
        },
{
    assert(entries.push(e).drop_last() =~= entries);
    checkpoints_agree(e);
    if sets_checkpoint(e, c) {
        assert(checkpoint::checkpoints_of(entries.push(e)).drop_last() =~= checkpoint::checkpoints_of(entries));
    }
}

/// Whether a cell's state holds a file with this hash.
pub open spec fn holds_file(s: CellStateModel, h: Seq<u8>) -> bool {
    match s {
        CellStateModel::Empty => false,
        CellStateModel::Value(CellValueModel::One(v)) => v matches ScalarModel::Attachment(a)
            && a.hash == h,
        CellStateModel::Value(CellValueModel::Many(l)) => exists|i: int|
            0 <= i < l.len() && (#[trigger] l[i]) is Attachment && l[i]->Attachment_0.hash == h,
    }
}

/// Whether an entry keeps a file alive: it writes it into a cell, lands a
/// payload that it is, submits it for scanning, or was derived from it
/// or overrides what was.
pub open spec fn keeps_alive(e: EntryModel, h: Seq<u8>) -> bool {
    ||| e.content.origin matches OriginModel::Derived(d) && d.snapshot_ref == h
    ||| e.content.origin matches OriginModel::Overridden { superseded: Some(d) } && d.snapshot_ref
        == h
    ||| exists|i: int|
        0 <= i < e.content.ops.len() && match #[trigger] e.content.ops[i] {
            EntryOpModel::Cell(OpModel::Put { state, .. }) => holds_file(state, h),
            EntryOpModel::Resolution { transition, .. } => transition is Land
                && transition->Land_snapshot == h,
            EntryOpModel::Scan { transition, .. } => transition is Request
                && transition->Request_hash == h,
            _ => false,
        }
}

/// A file is a root of a log exactly where one of its entries keeps it
/// alive.
pub proof fn roots_are_what_is_kept_alive(entries: Seq<EntryModel>, h: Seq<u8>)
    ensures
        roots::log_names(entries, h) <==> exists|i: int|
            0 <= i < entries.len() && keeps_alive(#[trigger] entries[i], h),
{
    assert forall|e: EntryModel| #[trigger] roots::entry_names(e, h) == keeps_alive(e, h) by {
        assert forall|s: CellStateModel| #[trigger] roots::state_names(s, h) == holds_file(s, h) by {
            if let CellStateModel::Value(CellValueModel::Many(l)) = s {
                if roots::state_names(s, h) {
                    let i = choose|i: int|
                        0 <= i < l.len() && roots::scalar_blob(#[trigger] l[i]) == Some(h);
                    assert(l[i] is Attachment && l[i]->Attachment_0.hash == h);
                }
                if holds_file(s, h) {
                    let i = choose|i: int|
                        0 <= i < l.len() && (#[trigger] l[i]) is Attachment
                            && l[i]->Attachment_0.hash == h;
                    assert(roots::scalar_blob(l[i]) == Some(h));
                }
            }
        }
        let ops = e.content.ops;
        if exists|i: int| 0 <= i < ops.len() && roots::op_names(#[trigger] ops[i], h) {
            let i = choose|i: int| 0 <= i < ops.len() && roots::op_names(#[trigger] ops[i], h);
            assert(e.content.ops[i] == ops[i]);
            assert(keeps_alive(e, h));
        }
        assert forall|i: int| 0 <= i < ops.len() implies roots::op_names(#[trigger] ops[i], h) == (
        match e.content.ops[i] {
            EntryOpModel::Cell(OpModel::Put { state, .. }) => holds_file(state, h),
            EntryOpModel::Resolution { transition, .. } => transition is Land
                && transition->Land_snapshot == h,
            EntryOpModel::Scan { transition, .. } => transition is Request
                && transition->Request_hash == h,
            _ => false,
        }) by {}
    }
    if roots::log_names(entries, h) {
        let i = choose|i: int| 0 <= i < entries.len() && roots::entry_names(#[trigger] entries[i], h);
        assert(keeps_alive(entries[i], h));
    }
    assert forall|i: int|
        0 <= i < entries.len() && keeps_alive(#[trigger] entries[i], h) implies roots::log_names(
        entries,
        h,
    ) by {
        assert(roots::entry_names(entries[i], h));
    }
}

} // verus!
