//! What the steps of resolutions and scans, and checkpoints, do to the
//! state that a log folds to.

use vstd::prelude::*;
use crate::log;
use crate::checkpoint::{Checkpoint, CheckpointModel};
use crate::entry::{EntryModel, EntryOpModel};
use crate::ids::PathSegModel;
use crate::log::{FoldErrorModel, FoldResultModel};
use crate::resolution::{
    ExpectedResolutionModel, LifecycleErrorModel, Resolution, ResolutionModel, ResolutionStatus,
    TransitionModel,
};
use crate::scan::{Scan, ScanLifecycleErrorModel, ScanModel, ScanStatus, ScanTransitionModel};

verus! {

proof fn one_operation(entries: Seq<EntryModel>, e: EntryModel, op: EntryOpModel)
    requires
        log::folded(entries) is Ok,
        e.content.ops == seq![op],
    ensures
        log::folded(entries.push(e)) == (match log::op_step(log::folded(entries)->Ok_0, false, e, op) {
            Ok((t, _)) => Ok(t),
            Err(x) => Err::<FoldResultModel, FoldErrorModel>(x),
        }),
{
    assert(entries.push(e).drop_last() =~= entries);
    assert(e.content.ops.drop_last() =~= Seq::<EntryOpModel>::empty());
    reveal_with_fuel(log::ops_step, 2);
}

/// Whether a resolution stands open.
pub open spec fn is_open_resolution(
    s: FoldResultModel,
    anchor: Seq<char>,
    scope: Seq<PathSegModel>,
) -> bool {
    s.resolutions.dom().contains((anchor, scope)) && s.resolutions[(anchor, scope)].status
        == ResolutionStatus::Pending
}

/// A request opens a resolution that is not open, whatever became of it
/// before: it is pending, requested by this entry under these versions,
/// with no end, no payload and no summary. A request of an open one is
/// refused. No other resolution changes.
pub proof fn a_request_opens_a_resolution(
    entries: Seq<EntryModel>,
    e: EntryModel,
    anchor: Seq<char>,
    scope: Seq<PathSegModel>,
    resolver: Seq<char>,
    resolver_version: u32,
    mapping_version: u32,
)
    requires
        log::folded(entries) is Ok,
        e.content.ops == seq![
            EntryOpModel::Resolution {
                anchor,
                scope,
                transition: TransitionModel::Request {
                    resolver,
                    resolver_version,
                    mapping_version,
                },
            },
        ],
    ensures
        ({
            let s = log::folded(entries)->Ok_0;
            let open = is_open_resolution(s, anchor, scope);
            &&& open ==> log::folded(entries.push(e)) == Err::<FoldResultModel, FoldErrorModel>(
                FoldErrorModel::Lifecycle {
                    seq: e.envelope.seq,
                    error: LifecycleErrorModel::AlreadyPending { anchor, scope },
                },
            )
            &&& !open ==> (log::folded(entries.push(e)) matches Ok(t) && {
                &&& t.resolutions.dom() == s.resolutions.dom().insert((anchor, scope))
                &&& forall|k: (Seq<char>, Seq<PathSegModel>)|
                    k != (anchor, scope) && s.resolutions.dom().contains(k)
                        ==> #[trigger] t.resolutions[k] == s.resolutions[k]
                &&& t.resolutions[(anchor, scope)] == (ResolutionModel {
                    anchor,
                    scope,
                    resolver,
                    resolver_version,
                    mapping_version,
                    status: ResolutionStatus::Pending,
                    requested_at: e.envelope.seq,
                    closed_at: None,
                    snapshot: None,
                    outcome: None,
                })
            })
        }),
{
    let op = e.content.ops[0];
    one_operation(entries, e, op);
    let s = log::folded(entries)->Ok_0;
    if let Ok(t) = log::folded(entries.push(e)) {
        assert(t.resolutions.dom() =~= s.resolutions.dom().insert((anchor, scope)));
    }
}

/// An ending step closes a resolution that is open: it ends as the step
/// says, by this entry, with the step's summary and, where a payload
/// landed, that payload; what the request bound stays. On a resolution
/// that is not open it is refused. No other resolution changes.
pub proof fn an_end_closes_a_resolution(
    entries: Seq<EntryModel>,
    e: EntryModel,
    anchor: Seq<char>,
    scope: Seq<PathSegModel>,
    transition: TransitionModel,
)
    requires
        log::folded(entries) is Ok,
        e.content.ops == seq![EntryOpModel::Resolution { anchor, scope, transition }],
        !(transition is Request),
    ensures
        ({
            let s = log::folded(entries)->Ok_0;
            let key = (anchor, scope);
            let open = is_open_resolution(s, anchor, scope);
            &&& !open ==> log::folded(entries.push(e)) == Err::<FoldResultModel, FoldErrorModel>(
                FoldErrorModel::Lifecycle {
                    seq: e.envelope.seq,
                    error: LifecycleErrorModel::NotPending {
                        anchor,
                        scope,
                        status: if s.resolutions.dom().contains(key) {
                            Some(s.resolutions[key].status)
                        } else {
                            None
                        },
                    },
                },
            )
            &&& open ==> (log::folded(entries.push(e)) matches Ok(t) && {
                let was = s.resolutions[key];
                let now = t.resolutions[key];
                &&& t.resolutions.dom() == s.resolutions.dom()
                &&& forall|k: (Seq<char>, Seq<PathSegModel>)|
                    k != key && s.resolutions.dom().contains(k) ==> #[trigger] t.resolutions[k]
                        == s.resolutions[k]
                &&& now.anchor == was.anchor && now.scope == was.scope
                &&& now.resolver == was.resolver
                &&& now.resolver_version == was.resolver_version
                &&& now.mapping_version == was.mapping_version
                &&& now.requested_at == was.requested_at
                &&& now.closed_at == Some(e.envelope.seq)
                &&& match transition {
                    TransitionModel::Land { snapshot, outcome } => now.status
                        == ResolutionStatus::Resolved && now.snapshot == Some(snapshot)
                        && now.outcome == Some(outcome),
                    TransitionModel::NotFound { outcome } => now.status
                        == ResolutionStatus::NotFound && now.snapshot == was.snapshot
                        && now.outcome == Some(outcome),
                    TransitionModel::Ambiguous { outcome } => now.status
                        == ResolutionStatus::Ambiguous && now.snapshot == was.snapshot
                        && now.outcome == Some(outcome),
                    TransitionModel::Failed { outcome } => now.status == ResolutionStatus::Failed
                        && now.snapshot == was.snapshot && now.outcome == Some(outcome),
                    TransitionModel::Abandon { reason, outcome } => now.status
                        == ResolutionStatus::Abandoned(reason) && now.snapshot == was.snapshot
                        && now.outcome == Some(outcome),
                    TransitionModel::Request { .. } => true,
                }
            })
        }),
{
    one_operation(entries, e, e.content.ops[0]);
    let s = log::folded(entries)->Ok_0;
    if let Ok(t) = log::folded(entries.push(e)) {
        assert(t.resolutions.dom() =~= s.resolutions.dom());
    }
}

/// Whether an element's scan stands open.
pub open spec fn is_open_scan(s: FoldResultModel, element: Seq<char>) -> bool {
    s.scans.dom().contains(element) && s.scans[element].status == ScanStatus::Pending
}

/// A request opens a scan that is not open: it is pending for these bytes,
/// requested by this entry, with no verdict, no threat and no summary. A
/// request of an open one is refused. No other scan changes.
pub proof fn a_request_opens_a_scan(
    entries: Seq<EntryModel>,
    e: EntryModel,
    element: Seq<char>,
    hash: Seq<u8>,
)
    requires
        log::folded(entries) is Ok,
        e.content.ops == seq![
            EntryOpModel::Scan { element, transition: ScanTransitionModel::Request { hash } },
        ],
    ensures
        ({
            let s = log::folded(entries)->Ok_0;
            let open = is_open_scan(s, element);
            &&& open ==> log::folded(entries.push(e)) == Err::<FoldResultModel, FoldErrorModel>(
                FoldErrorModel::Lifecycle {
                    seq: e.envelope.seq,
                    error: LifecycleErrorModel::Scan(
                        ScanLifecycleErrorModel::AlreadyPending { element },
                    ),
                },
            )
            &&& !open ==> (log::folded(entries.push(e)) matches Ok(t) && {
                &&& t.scans.dom() == s.scans.dom().insert(element)
                &&& forall|k: Seq<char>|
                    k != element && s.scans.dom().contains(k) ==> #[trigger] t.scans[k]
                        == s.scans[k]
                &&& t.scans[element] == (ScanModel {
                    element,
                    hash,
                    status: ScanStatus::Pending,
                    requested_at: e.envelope.seq,
                    closed_at: None,
                    threat: None,
                    outcome: None,
                })
            })
        }),
{
    one_operation(entries, e, e.content.ops[0]);
    let s = log::folded(entries)->Ok_0;
    if let Ok(t) = log::folded(entries.push(e)) {
        assert(t.scans.dom() =~= s.scans.dom().insert(element));
    }
}

/// A verdict closes a scan that is open: it ends as the verdict says, by
/// this entry, with the verdict's summary and, where it is infected, the
/// threat; the bytes and the request stay. On a scan that is not open it
/// is refused. No other scan changes.
pub proof fn a_verdict_closes_a_scan(
    entries: Seq<EntryModel>,
    e: EntryModel,
    element: Seq<char>,
    transition: ScanTransitionModel,
)
    requires
        log::folded(entries) is Ok,
        e.content.ops == seq![EntryOpModel::Scan { element, transition }],
        !(transition is Request),
    ensures
        ({
            let s = log::folded(entries)->Ok_0;
            let open = is_open_scan(s, element);
            &&& !open ==> log::folded(entries.push(e)) == Err::<FoldResultModel, FoldErrorModel>(
                FoldErrorModel::Lifecycle {
                    seq: e.envelope.seq,
                    error: LifecycleErrorModel::Scan(
                        ScanLifecycleErrorModel::NotPending {
                            element,
                            status: if s.scans.dom().contains(element) {
                                Some(s.scans[element].status)
                            } else {
                                None
                            },
                        },
                    ),
                },
            )
            &&& open ==> (log::folded(entries.push(e)) matches Ok(t) && {
                let was = s.scans[element];
                let now = t.scans[element];
                &&& t.scans.dom() == s.scans.dom()
                &&& forall|k: Seq<char>|
                    k != element && s.scans.dom().contains(k) ==> #[trigger] t.scans[k]
                        == s.scans[k]
                &&& now.element == was.element && now.hash == was.hash
                &&& now.requested_at == was.requested_at
                &&& now.closed_at == Some(e.envelope.seq)
                &&& match transition {
                    ScanTransitionModel::Clean { outcome } => now.status == ScanStatus::Clean
                        && now.threat == was.threat && now.outcome == Some(outcome),
                    ScanTransitionModel::Infected { threat, outcome } => now.status
                        == ScanStatus::Infected && now.threat == threat && now.outcome == Some(
                        outcome,
                    ),
                    ScanTransitionModel::Failed { outcome } => now.status == ScanStatus::Failed
                        && now.threat == was.threat && now.outcome == Some(outcome),
                    ScanTransitionModel::Abandon { reason, outcome } => now.status
                        == ScanStatus::Abandoned(reason) && now.threat == was.threat
                        && now.outcome == Some(outcome),
                    ScanTransitionModel::Request { .. } => true,
                }
            })
        }),
{
    one_operation(entries, e, e.content.ops[0]);
    let s = log::folded(entries)->Ok_0;
    if let Ok(t) = log::folded(entries.push(e)) {
        assert(t.scans.dom() =~= s.scans.dom());
    }
}

/// Whether a resolution is open under the versions that a checkpoint
/// expects of it.
pub open spec fn is_awaited(s: FoldResultModel, x: ExpectedResolutionModel) -> bool {
    &&& is_open_resolution(s, x.anchor, x.scope)
    &&& s.resolutions[(x.anchor, x.scope)].anchor == x.anchor
    &&& s.resolutions[(x.anchor, x.scope)].scope == x.scope
    &&& s.resolutions[(x.anchor, x.scope)].resolver == x.resolver
    &&& s.resolutions[(x.anchor, x.scope)].resolver_version == x.resolver_version
    &&& s.resolutions[(x.anchor, x.scope)].mapping_version == x.mapping_version
}

proof fn first_unexpected_is(s: FoldResultModel, expected: Seq<ExpectedResolutionModel>)
    ensures
        match log::first_unexpected(s.resolutions, expected) {
            None => forall|i: int| 0 <= i < expected.len() ==> is_awaited(s, #[trigger] expected[i]),
            Some(x) => exists|i: int|
                0 <= i < expected.len() && x == expected[i] && !is_awaited(s, #[trigger] expected[i])
                    && forall|j: int| 0 <= j < i ==> is_awaited(s, #[trigger] expected[j]),
        },
    decreases expected.len(),
{
    if expected.len() > 0 {
        let rest = expected.drop_last();
        let n = expected.len() - 1;
        first_unexpected_is(s, rest);
        assert(expected[n] == expected.last());
        assert forall|i: int| 0 <= i < n implies rest[i] == #[trigger] expected[i] by {}
        match log::first_unexpected(s.resolutions, rest) {
            Some(x) => {
                let i = choose|i: int|
                    0 <= i < rest.len() && x == rest[i] && !is_awaited(s, #[trigger] rest[i])
                        && forall|j: int| 0 <= j < i ==> is_awaited(s, #[trigger] rest[j]);
                assert(!is_awaited(s, expected[i]));
                assert forall|j: int| 0 <= j < i implies is_awaited(s, #[trigger] expected[j]) by {
                    assert(is_awaited(s, rest[j]));
                }
            },
            None => {
                assert forall|j: int| 0 <= j < n implies is_awaited(s, #[trigger] expected[j]) by {
                    assert(is_awaited(s, rest[j]));
                }
                if log::first_unexpected(s.resolutions, expected) is Some {
                    assert(!is_awaited(s, expected[n]));
                }
            },
        }
    }
}

/// A checkpoint is taken exactly where all that it expects is open under
/// the versions it names, and it changes nothing; otherwise it is refused
/// with the first expectation that is not.
pub proof fn a_checkpoint_expects_what_is_open(
    entries: Seq<EntryModel>,
    e: EntryModel,
    c: CheckpointModel,
)
    requires
        log::folded(entries) is Ok,
        e.content.ops == seq![EntryOpModel::Checkpoint(c)],
    ensures
        ({
            let s = log::folded(entries)->Ok_0;
            match log::folded(entries.push(e)) {
                Ok(t) => t == s && forall|i: int|
                    0 <= i < c.expected.len() ==> is_awaited(s, #[trigger] c.expected[i]),
                Err(x) => exists|i: int|
                    0 <= i < c.expected.len() && !is_awaited(s, #[trigger] c.expected[i]) && (
                    forall|j: int| 0 <= j < i ==> is_awaited(s, #[trigger] c.expected[j])) && x == (
                    FoldErrorModel::Lifecycle {
                        seq: e.envelope.seq,
                        error: LifecycleErrorModel::ExpectedNotPending(c.expected[i]),
                    }),
            }
        }),
{
    one_operation(entries, e, e.content.ops[0]);
    first_unexpected_is(log::folded(entries)->Ok_0, c.expected);
}

proof fn a_checkpoint_is_seen(s: FoldResultModel, e: EntryModel, ops: Seq<EntryOpModel>)
    ensures
        log::ops_step(s, e, ops) matches Ok((_, seen)) ==> (seen <==> exists|i: int|
            0 <= i < ops.len() && #[trigger] ops[i] is Checkpoint),
    decreases ops.len(),
{
    if ops.len() > 0 {
        let rest = ops.drop_last();
        a_checkpoint_is_seen(s, e, rest);
        assert(ops[ops.len() - 1] == ops.last());
        if let Ok((_, seen)) = log::ops_step(s, e, ops) {
            let (_, before) = log::ops_step(s, e, rest)->Ok_0;
            if before {
                let i = choose|i: int| 0 <= i < rest.len() && #[trigger] rest[i] is Checkpoint;
                assert(ops[i] is Checkpoint);
            }
            if exists|i: int| 0 <= i < ops.len() && #[trigger] ops[i] is Checkpoint {
                let i = choose|i: int| 0 <= i < ops.len() && #[trigger] ops[i] is Checkpoint;
                if i < rest.len() {
                    assert(rest[i] is Checkpoint);
                }
            }
        }
    }
}

proof fn two_checkpoints_fail(s: FoldResultModel, e: EntryModel, ops: Seq<EntryOpModel>, i: int, j: int)
    requires
        0 <= i < j < ops.len(),
        ops[i] is Checkpoint,
        ops[j] is Checkpoint,
    ensures
        log::ops_step(s, e, ops) is Err,
    decreases ops.len(),
{
    let rest = ops.drop_last();
    if j < rest.len() {
        assert(rest[i] == ops[i] && rest[j] == ops[j]);
        two_checkpoints_fail(s, e, rest, i, j);
    } else {
        a_checkpoint_is_seen(s, e, rest);
        assert(rest[i] == ops[i]);
        assert(ops.last() == ops[j]);
    }
}

/// An entry with two checkpoints does not fold.
pub proof fn one_checkpoint_per_entry(entries: Seq<EntryModel>, e: EntryModel, i: int, j: int)
    requires
        0 <= i < j < e.content.ops.len(),
        e.content.ops[i] is Checkpoint,
        e.content.ops[j] is Checkpoint,
    ensures
        log::folded(entries.push(e)) is Err,
{
    assert(entries.push(e).drop_last() =~= entries);
    if let Ok(s) = log::folded(entries) {
        two_checkpoints_fail(s, e, e.content.ops, i, j);
    }
}

} // verus!
