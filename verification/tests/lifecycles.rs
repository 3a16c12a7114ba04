//! Every transition of a resolution and of a scan.

use varve::canonical::{ContentHash, Salt};
use varve::entry::{genesis_hash, Actor, ActorKind, Draft, EntryOp, EntrySalts, Origin};
use varve::log::{AppendError, RecordLog};
use varve::resolution::{
    AbandonReason, LifecycleError, Outcome, ResolutionStatus, Transition,
};
use varve::scan::ScanTransition;
use varve::time::Instant;
use varve::{
    GroupId, ItemId, Key, OrderedSet, PathSeg, RecordId, ResolverId, RevisionId, RowPath,
};

fn set_of<K: Key>(keys: impl IntoIterator<Item = K>) -> OrderedSet<K> {
    let mut set = OrderedSet::new();
    for key in keys {
        set.insert(key);
    }
    set
}

fn payload() -> ContentHash {
    genesis_hash(&RecordId::new("r1"))
}

fn transitions() -> Vec<Transition> {
    vec![
        Transition::Request {
            resolver: ResolverId::new("insee-sirene"),
            resolver_version: 1,
            mapping_version: 1,
        },
        Transition::Land {
            snapshot: payload(),
            outcome: Outcome::default(),
        },
        Transition::NotFound {
            outcome: Outcome::default(),
        },
        Transition::Ambiguous {
            outcome: Outcome::default(),
        },
        Transition::Failed {
            outcome: Outcome::default(),
        },
        Transition::Abandon {
            reason: AbandonReason::Deadline,
            outcome: Outcome {
                attempts: 212,
                last_error: Some("503".into()),
            },
        },
    ]
}

fn actor() -> Actor {
    Actor {
        id: "a1".into(),
        kind: ActorKind::System,
    }
}

fn draft(base: u64, ops: Vec<EntryOp>) -> Draft {
    let n = ops.len();
    Draft {
        actor: actor(),
        timestamp: Instant::parse("2026-08-19T10:00:00Z").unwrap(),
        revision: RevisionId::new("rev-1"),
        base_version: base,
        origin: Origin::Entered,
        note: None,
        ops,
        salts: EntrySalts {
            meta: Salt([9; 32]),
            ops: (0..n).map(|i| Salt([i as u8 + 1; 32])).collect(),
        },
    }
}

fn op(scope: RowPath, transition: Transition) -> EntryOp {
    EntryOp::Resolution {
        anchor: GroupId::new("entreprise"),
        scope,
        transition,
    }
}

fn log_in(state: Option<ResolutionStatus>) -> RecordLog {
    let mut log = RecordLog::new(RecordId::new("r1"));
    let Some(state) = state else { return log };
    log.append(draft(
        0,
        vec![op(RowPath::root(), transitions()[0].clone())],
    ))
    .unwrap();
    if state != ResolutionStatus::Pending {
        let to = transitions()
            .into_iter()
            .find(|t| t.status() == state)
            .unwrap();
        log.append(draft(1, vec![op(RowPath::root(), to)])).unwrap();
    }
    let folded = log.fold().unwrap();
    assert_eq!(
        folded.resolutions.get(&(GroupId::new("entreprise"), RowPath::root())).unwrap().status,
        state
    );
    log
}

const STATES: [Option<ResolutionStatus>; 7] = [
    None,
    Some(ResolutionStatus::Pending),
    Some(ResolutionStatus::Resolved),
    Some(ResolutionStatus::NotFound),
    Some(ResolutionStatus::Ambiguous),
    Some(ResolutionStatus::Failed),
    Some(ResolutionStatus::Abandoned(AbandonReason::Deadline)),
];

#[test]
fn resolution_transition_table_is_exactly_the_documented_one() {
    for from in STATES {
        for to in transitions() {
            let mut log = log_in(from);
            let base = log.version();
            let result = log.append(draft(base, vec![op(RowPath::root(), to.clone())]));
            let is_request = matches!(to, Transition::Request { .. });
            let pending = from == Some(ResolutionStatus::Pending);
            match (is_request, pending) {
                (true, false) | (false, true) => {
                    assert!(result.is_ok(), "{from:?} --{to:?}--> should be legal");
                    let r = log.fold().unwrap().resolutions.get(&(GroupId::new("entreprise"), RowPath::root())).unwrap()
                        .clone();
                    assert_eq!(r.status, to.status());
                    if is_request {
                        assert_eq!((r.requested_at, r.closed_at), (base, None));
                        assert_eq!((r.snapshot, r.outcome), (None, None));
                    } else {
                        assert_eq!(r.closed_at, Some(base));
                        assert!(r.outcome.is_some(), "terminal ops carry their summary");
                        assert_eq!(
                            r.snapshot.is_some(),
                            matches!(to, Transition::Land { .. }),
                            "only a landing carries a snapshot"
                        );
                    }
                }
                (true, true) => assert!(
                    matches!(
                        result,
                        Err(AppendError::IllegalTransition(
                            LifecycleError::AlreadyPending { .. }
                        ))
                    ),
                    "request while pending must be refused"
                ),
                (false, false) => {
                    assert!(
                        matches!(
                            result,
                            Err(AppendError::IllegalTransition(LifecycleError::NotPending {
                                status, ..
                            })) if status == from
                        ),
                        "{from:?} --{to:?}--> should be refused"
                    );
                    assert_eq!(log.version(), base, "a refused append leaves the log alone");
                }
            }
        }
    }
}

#[test]
fn instances_are_per_anchor_group_instance() {
    let item = |i: &str| {
        RowPath::root().child(PathSeg {
            group: GroupId::new("g1"),
            item: ItemId::new(i),
        })
    };
    let request = transitions()[0].clone();
    let mut log = RecordLog::new(RecordId::new("r1"));
    log.append(draft(
        0,
        vec![
            op(RowPath::root(), request.clone()),
            op(item("i1"), request.clone()),
            op(item("i2"), request),
            EntryOp::Resolution {
                anchor: GroupId::new("adresse"),
                scope: RowPath::root(),
                transition: transitions()[0].clone(),
            },
        ],
    ))
    .unwrap();
    log.append(draft(1, vec![op(item("i1"), transitions()[1].clone())]))
        .unwrap();
    let state = log.fold().unwrap();
    assert_eq!(state.resolutions.len(), 4);
    assert_eq!(state.pending_resolutions().len(), 3);
    assert_eq!(
        state.pending_set(),
        set_of([(RowPath::root(), GroupId::new("entreprise")),
            (RowPath::root(), GroupId::new("adresse")),
            (item("i2"), GroupId::new("entreprise")),
        ])
    );
}

fn scan_transitions() -> Vec<ScanTransition> {
    vec![
        ScanTransition::Request { hash: payload() },
        ScanTransition::Clean { outcome: Outcome::default() },
        ScanTransition::Infected {
            threat: Some("EICAR-Test-File".into()),
            outcome: Outcome::default(),
        },
        ScanTransition::Failed { outcome: Outcome::default() },
        ScanTransition::Abandon {
            reason: AbandonReason::Operator,
            outcome: Outcome::default(),
        },
    ]
}

#[test]
fn every_scan_transition_is_legal_or_refused() {
    let scan = |transition: ScanTransition| EntryOp::Scan { element: "f1".into(), transition };
    // Never requested, pending, and each closed state.
    for closing in 0..6 {
        for to in scan_transitions() {
            let mut log = RecordLog::new(RecordId::new("r1"));
            let mut base = 0;
            if closing > 0 {
                log.append(draft(0, vec![scan(scan_transitions()[0].clone())])).unwrap();
                base = 1;
            }
            if closing > 1 {
                log.append(draft(1, vec![scan(scan_transitions()[closing - 1].clone())])).unwrap();
                base = 2;
            }
            let pending = closing == 1;
            let request = matches!(to, ScanTransition::Request { .. });
            let result = log.append(draft(base, vec![scan(to.clone())])).map(|_| ());
            if request != pending {
                assert_eq!(result, Ok(()));
                let folded = log.fold().unwrap();
                let s = folded.scans.get(&"f1".to_string()).unwrap();
                assert_eq!(s.status, to.status());
                assert_eq!(s.closed_at, if request { None } else { Some(base) });
            } else {
                assert!(matches!(
                    result,
                    Err(AppendError::IllegalTransition(LifecycleError::Scan(_)))
                ));
            }
        }
    }
}
