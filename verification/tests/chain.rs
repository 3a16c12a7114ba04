//! What a rewrite of stored entries breaks.

use varve::canonical::Salt;
use varve::entry::{genesis_hash, Actor, ActorKind, Draft, Entry, EntryOp, EntrySalts, Origin};
use varve::log::{AppendError, ChainError, RecordLog, SnapshotError};
use varve::time::Instant;
use varve::value::{CellState, CellValue, Op, Scalar};
use varve::{ColumnId, RecordId, RevisionId, RowPath};

fn human(id: &str) -> Actor {
    Actor {
        id: id.into(),
        kind: ActorKind::Human,
    }
}

fn ts(minute: u8) -> Instant {
    Instant::parse(&format!("2026-08-16T10:{minute:02}:00Z")).unwrap()
}

fn set(column: &str, value: &str) -> Op {
    Op::Put {
        column: ColumnId::new(column),
        path: RowPath::root(),
        state: CellState::Value(CellValue::One(Scalar::Text(value.into()))),
    }
}

fn salts(n: usize) -> EntrySalts {
    EntrySalts {
        meta: Salt([9; 32]),
        ops: (0..n).map(|i| Salt([i as u8 + 1; 32])).collect(),
    }
}

fn draft(actor: Actor, minute: u8, base: u64, origin: Origin, ops: Vec<Op>) -> Draft {
    let n = ops.len();
    Draft {
        actor,
        timestamp: ts(minute),
        revision: RevisionId::new("rev-1"),
        base_version: base,
        origin,
        note: None,
        ops: ops.into_iter().map(EntryOp::Cell).collect(),
        salts: salts(n),
    }
}

fn three() -> RecordLog {
    let mut log = RecordLog::new(RecordId::new("r1"));
    log.append(draft(
        human("a1"),
        0,
        0,
        Origin::Entered,
        vec![set("name", "Dupont")],
    ))
    .unwrap();
    log.append(draft(
        human("a2"),
        1,
        1,
        Origin::Entered,
        vec![set("city", "Lyon"), set("name", "Durand")],
    ))
    .unwrap();
    log.append(draft(
        human("a1"),
        2,
        2,
        Origin::Entered,
        vec![set("name", "Martin")],
    ))
    .unwrap();
    log.verify_chain().unwrap();
    log
}

fn rehydrate(entries: Vec<Entry>) -> RecordLog {
    RecordLog::from_entries(RecordId::new("r1"), entries)
}

fn tampered(log: &RecordLog, at: usize, f: impl FnOnce(&mut Entry)) -> RecordLog {
    let mut entries = log.entries().to_vec();
    f(&mut entries[at]);
    rehydrate(entries)
}

#[test]
fn prev_and_seq_tampers_are_caught_where_they_sit() {
    let log = three();
    let bad_prev = tampered(&log, 1, |e| {
        e.envelope.prev = genesis_hash(&RecordId::new("r1"))
    });
    assert_eq!(
        bad_prev.verify_chain(),
        Err(ChainError::PrevMismatch { at: 1 })
    );

    let bad_seq = tampered(&log, 1, |e| e.envelope.seq = 5);
    assert_eq!(
        bad_seq.verify_chain(),
        Err(ChainError::SeqMismatch { at: 1 })
    );
}

#[test]
fn reordering_and_removing_entries_break_contiguity() {
    let log = three();
    let mut swapped = log.entries().to_vec();
    swapped.swap(0, 1);
    assert_eq!(
        rehydrate(swapped).verify_chain(),
        Err(ChainError::SeqMismatch { at: 0 })
    );

    let mut middle_gone = log.entries().to_vec();
    middle_gone.remove(1);
    assert_eq!(
        rehydrate(middle_gone).verify_chain(),
        Err(ChainError::SeqMismatch { at: 1 })
    );
}

type Tamper = (&'static str, Box<dyn Fn(&mut Entry)>);

fn envelope_tampers() -> Vec<Tamper> {
    vec![
        (
            "actor id",
            Box::new(|e: &mut Entry| e.envelope.actor.id = "mallory".into()),
        ),
        (
            "actor kind",
            Box::new(|e: &mut Entry| e.envelope.actor.kind = ActorKind::System),
        ),
        (
            "timestamp",
            Box::new(|e: &mut Entry| e.envelope.timestamp = ts(59)),
        ),
        (
            "revision",
            Box::new(|e: &mut Entry| e.envelope.revision = RevisionId::new("rev-9")),
        ),
        (
            "base_version",
            Box::new(|e: &mut Entry| e.envelope.base_version = 0),
        ),
    ]
}

#[test]
fn envelope_tampers_on_a_non_tail_entry_break_the_next_link() {
    let log = three();
    for (name, tamper) in envelope_tampers() {
        let t = tampered(&log, 1, tamper);
        assert_eq!(
            t.verify_chain(),
            Err(ChainError::PrevMismatch { at: 2 }),
            "{name}"
        );
    }
}

#[test]
fn the_tail_is_unanchored_by_construction_and_a_snapshot_pins_it() {
    let log = three();
    let head = log.snapshot_at(3).unwrap();
    for (name, tamper) in envelope_tampers() {
        let t = tampered(&log, 2, tamper);
        assert_eq!(
            t.verify_chain(),
            Ok(()),
            "{name}: chain alone cannot see a tail edit"
        );
        assert_eq!(
            t.verify_snapshot(&head),
            Err(SnapshotError::HashMismatch),
            "{name}: the pinned head hash catches it"
        );
    }
    let mut truncated = log.entries().to_vec();
    truncated.pop();
    let truncated = rehydrate(truncated);
    assert_eq!(truncated.verify_chain(), Ok(()));
    assert_eq!(
        truncated.verify_snapshot(&head),
        Err(SnapshotError::OutOfRange)
    );
}

#[test]
fn content_tampers_break_the_commitment_even_on_the_tail() {
    let log = three();
    let cases: Vec<Tamper> = vec![
        (
            "op edit",
            Box::new(|e: &mut Entry| e.content.ops[0] = set("name", "MALLORY").into()),
        ),
        (
            "origin edit",
            Box::new(|e: &mut Entry| e.content.origin = Origin::Overridden { superseded: None }),
        ),
        (
            "note added",
            Box::new(|e: &mut Entry| e.content.note = Some("quiet fix".into())),
        ),
        (
            "meta salt",
            Box::new(|e: &mut Entry| e.salts.meta = Salt([42; 32])),
        ),
        (
            "op salt",
            Box::new(|e: &mut Entry| e.salts.ops[0] = Salt([42; 32])),
        ),
    ];
    for at in [1usize, 2] {
        for (name, tamper) in &cases {
            let t = tampered(&log, at, tamper);
            assert_eq!(
                t.verify_chain(),
                Err(ChainError::ContentMismatch { at }),
                "{name} at {at}"
            );
        }
    }
    let mut with_note = RecordLog::new(RecordId::new("r1"));
    let mut d = draft(
        human("a1"),
        0,
        0,
        Origin::Entered,
        vec![set("name", "Dupont")],
    );
    d.note = Some("original".into());
    with_note.append(d).unwrap();
    let t = tampered(&with_note, 0, |e| e.content.note = Some("edited".into()));
    assert_eq!(t.verify_chain(), Err(ChainError::ContentMismatch { at: 0 }));
}

#[test]
fn the_commitment_is_order_sensitive_over_ops() {
    let log = three();
    let t = tampered(&log, 1, |e| e.content.ops.swap(0, 1));
    assert_eq!(t.verify_chain(), Err(ChainError::ContentMismatch { at: 1 }));
    let t = tampered(&log, 1, |e| {
        e.content.ops.swap(0, 1);
        e.salts.ops.swap(0, 1);
    });
    assert_eq!(t.verify_chain(), Err(ChainError::ContentMismatch { at: 1 }));
}

#[test]
fn identical_content_under_different_salts_commits_differently() {
    let mut a = RecordLog::new(RecordId::new("r1"));
    let mut b = RecordLog::new(RecordId::new("r1"));
    a.append(draft(
        human("a1"),
        0,
        0,
        Origin::Entered,
        vec![set("name", "Dupont")],
    ))
    .unwrap();
    let mut d = draft(
        human("a1"),
        0,
        0,
        Origin::Entered,
        vec![set("name", "Dupont")],
    );
    d.salts = EntrySalts {
        meta: Salt([200; 32]),
        ops: vec![Salt([201; 32])],
    };
    b.append(d).unwrap();
    let (ea, eb) = (&a.entries()[0], &b.entries()[0]);
    assert_eq!(ea.content, eb.content);
    assert_ne!(ea.envelope.content_hash, eb.envelope.content_hash);
    assert_ne!(ea.hash(), eb.hash());
    a.verify_chain().unwrap();
    b.verify_chain().unwrap();
}

#[test]
fn a_base_version_ahead_of_the_log_is_refused() {
    let mut log = three();
    let before = log.entries().to_vec();
    let refused = log.append(draft(
        human("a1"),
        3,
        4,
        Origin::Entered,
        vec![set("name", "x")],
    ));
    assert_eq!(
        refused.map(|_| ()),
        Err(AppendError::BaseVersionAhead {
            base: 4,
            version: 3
        })
    );
    assert_eq!(log.entries(), &before);
    log.append(draft(
        human("a1"),
        3,
        3,
        Origin::Entered,
        vec![set("name", "x")],
    ))
    .unwrap();
}

#[test]
fn golden_vectors_pin_the_canonical_shapes() {
    assert_eq!(
        genesis_hash(&RecordId::new("r1")).to_string(),
        "sha256:eb725b7004da0a5173ed5a17aa39416bb48cd1db7c6aa7a3b03a802964953eee"
    );
    let mut log = RecordLog::new(RecordId::new("r1"));
    log.append(draft(
        human("a1"),
        0,
        0,
        Origin::Entered,
        vec![set("name", "Dupont")],
    ))
    .unwrap();
    let entry = &log.entries()[0];
    assert_eq!(
        entry.envelope.content_hash.to_string(),
        "sha256:de5e446fcda1406826033c9b7f651cf5b89ef7822cf615b6e4bedda6fca9f9fc"
    );
    assert_eq!(
        entry.hash().to_string(),
        "sha256:eb7310677e58a7cda78e2ae36da42ace8a38fa4978fc8f79669b819d2d51d4ce"
    );
}

#[test]
fn counts_past_json_numbers_have_no_address() {
    let log = three();
    let entry = &log.entries()[0];
    assert!(entry.is_addressable());
    let mut far = entry.clone();
    far.envelope.seq = 1 << 53;
    assert!(!far.is_addressable());
    far.envelope.seq = (1 << 53) - 1;
    assert!(far.is_addressable());
    far.envelope.base_version = 1 << 53;
    assert!(!far.is_addressable());
    let add = |at: usize| {
        EntryOp::Cell(Op::AddItem {
            group: varve::GroupId::new("g"),
            parent: RowPath::root(),
            item: varve::ItemId::new("i"),
            at,
        })
    };
    let mut deep = entry.clone();
    deep.content.ops = vec![add(0)];
    assert!(deep.is_addressable());
    deep.content.ops = vec![add(1 << 53)];
    assert!(!deep.is_addressable());
    assert!(varve::addressable::is_committable(&[add(3)]));
    assert!(!varve::addressable::is_committable(&[add(3), add(1 << 53)]));
}

#[test]
fn records_begin_apart_and_a_dropped_tail_verifies() {
    assert_ne!(genesis_hash(&RecordId::new("r1")), genesis_hash(&RecordId::new("r2")));
    let log = three();
    let entries = log.entries().to_vec();
    let moved = RecordLog::from_entries(RecordId::new("r2"), entries.clone());
    assert_eq!(moved.verify_chain(), Err(ChainError::PrevMismatch { at: 0 }));
    assert_eq!(rehydrate(entries[..2].to_vec()).verify_chain(), Ok(()));
}

#[test]
fn refusals_that_need_no_hash_take_none() {
    let huge = || {
        EntryOp::Cell(Op::AddItem {
            group: varve::GroupId::new("g"),
            parent: RowPath::root(),
            item: varve::ItemId::new("i"),
            at: 1 << 60,
        })
    };
    let mut log = three();
    let mut ahead = draft(human("a1"), 9, 9, Origin::Entered, vec![]);
    ahead.ops = vec![huge()];
    ahead.salts = salts(1);
    assert_eq!(
        log.append(ahead).map(|_| ()),
        Err(AppendError::BaseVersionAhead { base: 9, version: 3 })
    );
    assert_eq!(log.version(), 3);
    let misplaced = tampered(&log, 0, |e| {
        e.envelope.seq = 1 << 60;
        e.content.ops = vec![huge()];
    });
    assert_eq!(misplaced.verify_chain(), Err(ChainError::SeqMismatch { at: 0 }));
    let unlinked = tampered(&log, 1, |e| {
        e.envelope.prev = genesis_hash(&RecordId::new("other"));
        e.envelope.base_version = 1 << 60;
        e.content.ops = vec![huge()];
    });
    assert_eq!(unlinked.verify_chain(), Err(ChainError::PrevMismatch { at: 1 }));
}

#[test]
fn every_part_of_the_content_is_committed_to() {
    let log = three();
    let last = log.entries().len() - 1;
    let edits: Vec<fn(&mut Entry)> = vec![
        |e| e.content.note = Some(String::new()),
        |e| e.content.origin = Origin::Overridden { superseded: None },
        |e| e.content.ops[0] = EntryOp::Cell(set("name", "\u{1}")),
        |e| e.salts.meta.0[31] ^= 1,
        |e| e.salts.ops[0].0[0] ^= 1,
    ];
    for edit in edits {
        for at in [0, last] {
            assert_eq!(
                tampered(&log, at, edit).verify_chain(),
                Err(ChainError::ContentMismatch { at })
            );
        }
    }
}
