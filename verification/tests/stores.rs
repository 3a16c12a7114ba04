//! What a blob store decides.

use varve::canonical::ContentHash;
use varve::files::{
    blob_path, fetch_range, manifest_hash, manifest_path, range_len, read_len, seek_target, stem,
    unix, BlobScan, FilesError, KeyringError, ManifestRecord, MemoryKeyring, PutMeta, PutNext,
    PutPhase, PutReply, ScanVerdict, Sweep, SweepReport, Whence, FETCH_SPAN,
};
use varve::sidecar::address;
use varve::OrderedSet;

const NOW: i128 = 1_766_000_000_000_000_000;
const SECOND: i128 = 1_000_000_000;

fn roots(hashes: &[ContentHash]) -> OrderedSet<ContentHash> {
    let mut set = OrderedSet::new();
    for hash in hashes {
        set.insert(*hash);
    }
    set
}

/// Runs a `put` on the replies that a backend gives.
fn put(replies: &[PutReply]) -> (PutNext, bool, bool) {
    let mut phase = PutPhase::Probe;
    let (mut discarded, mut rolled_back) = (false, false);
    for reply in replies {
        let step = phase.after(*reply);
        discarded |= step.discard;
        rolled_back |= step.roll_back;
        match step.next {
            PutNext::Go(next) => phase = next,
            done => return (done, discarded, rolled_back),
        }
    }
    panic!("the replies end before the write does");
}

#[test]
fn objects_are_filed_under_their_address() {
    let hash = address(b"abc");
    let name = "sha256-ba7816bf8f01cfea414140de5dae2223b00361a396177a9cb410ff61f20015ad";
    assert_eq!(stem(&hash), name);
    assert_eq!(blob_path(&hash), format!("blobs/{name}"));
    assert_eq!(manifest_path(&hash), format!("manifest/{name}.json"));
    assert_eq!(manifest_hash(&format!("{name}.json")), Ok(Some(hash)));
    assert_eq!(manifest_hash(name), Ok(None));
    assert_eq!(manifest_hash("json"), Ok(None));
    assert_eq!(
        manifest_hash("sha256-zz.json"),
        Err(FilesError::Corrupt("unparseable manifest name sha256-zz".to_string()))
    );
}

#[test]
fn put_is_idempotent_by_hash() {
    // Already stored: nothing is written, the staged bytes go.
    assert_eq!(put(&[PutReply::Yes]), (PutNext::Stored, true, false));
    // New: registered, then committed.
    assert_eq!(
        put(&[PutReply::No, PutReply::Yes, PutReply::Yes]),
        (PutNext::Stored, true, false)
    );
    // Another writer came first and is there.
    assert_eq!(
        put(&[PutReply::No, PutReply::No, PutReply::Yes]),
        (PutNext::Stored, true, false)
    );
    // A failed commit is rolled back.
    assert_eq!(
        put(&[PutReply::No, PutReply::Yes, PutReply::Failed]),
        (PutNext::Refused, true, true)
    );
    assert_eq!(put(&[PutReply::Failed]), (PutNext::Refused, false, false));
    assert_eq!(put(&[PutReply::No, PutReply::Failed]), (PutNext::Refused, true, false));
}

#[test]
fn a_bare_key_row_fails_loudly_and_sweep_heals_it() {
    let hash = address(b"unlucky content");
    let mut keyring = MemoryKeyring::default();
    keyring.register(&hash, "identity", NOW).unwrap();
    // The address has a key and no blob.
    assert_eq!(
        keyring.register(&hash, "another", NOW),
        Err(KeyringError::AlreadyRegistered(hash))
    );
    assert_eq!(
        put(&[PutReply::No, PutReply::No, PutReply::No]),
        (PutNext::InFlight, true, false)
    );
    let grace = 1800 * SECOND as u128;
    let young = Sweep::new(OrderedSet::new(), grace, NOW + 60 * SECOND);
    assert!(keyring.registered_before(young.cutoff().unwrap()).is_empty());
    let mut late = Sweep::new(OrderedSet::new(), grace, NOW + 3600 * SECOND);
    let rows = keyring.registered_before(late.cutoff().unwrap());
    assert_eq!(rows, vec![hash]);
    // A stored blob's key row stays.
    assert!(!late.orphan(true));
    assert!(late.orphan(false));
    keyring.shred(&hash);
    assert_eq!(late.report.keys_removed, 1);
    assert!(keyring.is_empty());
    assert_eq!(keyring.existing_identity(&hash), Err(KeyringError::Missing(hash)));
}

#[test]
fn the_first_registration_wins() {
    let (a, b) = (address(b"a"), address(b"b"));
    let mut keyring = MemoryKeyring::default();
    keyring.register(&a, "first", NOW).unwrap();
    keyring.register(&a, "second", NOW).unwrap_err();
    keyring.register(&b, "other", NOW + 1).unwrap();
    assert_eq!(keyring.existing_identity(&a).unwrap(), "first");
    assert_eq!(keyring.len(), 2);
    assert_eq!(keyring.registered_before(NOW), vec![a]);
    assert_eq!(keyring.registered_before(NOW + 1).len(), 2);
}

#[test]
fn sweep_respects_roots_and_grace() {
    let referenced = address(b"referenced");
    let orphaned = address(b"orphaned");
    let young = address(b"just uploaded");
    let mut sweep = Sweep::new(
        roots(&[referenced]),
        1800 * SECOND as u128,
        NOW + 3600 * SECOND,
    );
    for (hash, created_at) in [
        (referenced, NOW),
        (orphaned, NOW),
        (young, NOW + 3000 * SECOND),
    ] {
        if sweep.keeps(&hash) {
            continue;
        }
        if sweep.due(&hash, created_at) {
            sweep.deleted(&hash);
        }
    }
    assert_eq!(
        sweep.report,
        SweepReport {
            deleted: vec![orphaned],
            kept_live: 1,
            kept_young: 1,
            tmp_removed: 0,
            keys_removed: 0,
        }
    );
}

#[test]
fn sweep_removes_abandoned_staging() {
    let mut sweep = Sweep::new(OrderedSet::new(), 1800 * SECOND as u128, NOW);
    assert!(sweep.staged(NOW - 1800 * SECOND));
    assert!(!sweep.staged(NOW - 1799 * SECOND));
    // A clock that runs ahead does not make an object old.
    assert!(!sweep.staged(NOW + 7200 * SECOND));
    assert_eq!(sweep.report.tmp_removed, 1);
    let unbounded = Sweep::new(OrderedSet::new(), u128::MAX, NOW);
    assert_eq!(unbounded.cutoff(), None);
}

#[test]
fn scan_bookkeeping_persists() {
    let hash = address(b"scanned");
    let record = ManifestRecord::new(
        &hash,
        7,
        PutMeta { content_type: "application/pdf".to_string(), created_at: NOW + 5 },
    );
    assert_eq!(record.hash, hash.to_string());
    // The record keeps whole seconds.
    let info = record.info(&hash);
    assert_eq!((info.byte_size, info.created_at, info.scan), (7, NOW, None));
    let scan = BlobScan {
        engine: "clamav".to_string(),
        signatures: "27400".to_string(),
        at_unix_secs: unix(NOW),
        verdict: ScanVerdict::Clean,
    };
    let scanned = record.scanned(scan.clone());
    assert_eq!(scanned.info(&hash).scan, Some(scan));
    assert_eq!(unix(-1), 0);
}

#[test]
fn ranges_are_fetched_in_spans() {
    assert_eq!(fetch_range(0, 10, 0, 0), Some((0, 10)));
    assert_eq!(fetch_range(5, 10, 0, 10), None);
    assert_eq!(fetch_range(10, 10, 0, 10), None);
    assert_eq!(
        fetch_range(1, 10 * FETCH_SPAN, 0, 1),
        Some((1, 1 + FETCH_SPAN))
    );
    assert_eq!(fetch_range(u64::MAX - 1, u64::MAX, 0, 0), Some((u64::MAX - 1, u64::MAX)));
    assert_eq!(read_len(12, 10, 5, 100), (2, 3));
    assert_eq!(read_len(12, 10, 5, 1), (2, 1));
    assert_eq!(range_len(7, 23), 16);
    assert_eq!(range_len(23, 7), 0);
    assert_eq!(seek_target(Whence::Start(4), 0, 10), Some(4));
    assert_eq!(seek_target(Whence::End(-4), 0, 10), Some(6));
    assert_eq!(seek_target(Whence::Current(3), 5, 10), Some(8));
    assert_eq!(seek_target(Whence::Current(-6), 5, 10), None);
    assert_eq!(seek_target(Whence::Current(2), u64::MAX, 10), Some(1));
}

#[test]
fn streamed_bytes_are_addressed_as_a_whole() {
    let bytes: Vec<u8> = (0u32..1000).map(|i| (i % 251) as u8).collect();
    for size in [1, 63, 64, 65, 999, 1000] {
        let mut staged = varve::hasher::Staged::new();
        for piece in bytes.chunks(size) {
            staged.push(piece);
        }
        assert_eq!(staged.byte_size(), 1000);
        let meta = PutMeta { content_type: "text/plain".to_string(), created_at: NOW };
        let (hash, record) = varve::files::staged_record(staged, meta);
        assert_eq!(hash, address(&bytes));
        assert_eq!(record.byte_size, 1000);
        assert_eq!(record.hash, hash.to_string());
    }
    assert_eq!(varve::hasher::Staged::new().address(), address(b""));
}
