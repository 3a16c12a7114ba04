//! What a log takes in, what breaks its chain, what a snapshot pins, and
//! what is still awaited.

use vstd::prelude::*;
use crate::entry;
use crate::log;
use crate::schema_laws;
use crate::entry::{DraftModel, EntryModel};
use crate::ids::PathSegModel;
use crate::log::{AppendErrorModel, ChainError, FoldErrorModel, SnapshotErrorModel, SnapshotModel};
use crate::resolution::{ResolutionModel, ResolutionStatus};
use crate::scan::{ScanModel, ScanStatus};

verus! {

/// The link that the entry at a place must carry: the hash of the entry
/// before it, or the record's own for the first.
pub open spec fn link_at(record: Seq<char>, entries: Seq<EntryModel>, i: int) -> Seq<u8> {
    if i == 0 {
        entry::genesis(record)
    } else {
        entry::envelope_hash(entries[i - 1].envelope)
    }
}

/// Whether an entry is the draft, at the end of a log.
pub open spec fn is_the_draft(
    record: Seq<char>,
    entries: Seq<EntryModel>,
    d: DraftModel,
    e: EntryModel,
) -> bool {
    &&& e.envelope.seq == entries.len()
    &&& e.envelope.prev == link_at(record, entries, entries.len() as int)
    &&& e.envelope.actor == d.actor
    &&& e.envelope.timestamp == d.timestamp
    &&& e.envelope.revision == d.revision
    &&& e.envelope.base_version == d.base_version
    &&& e.envelope.content_hash == entry::content_commitment(e.content, e.salts)
    &&& e.content.ops == d.ops
    &&& e.content.origin == d.origin
    &&& e.content.note == d.note
    &&& e.salts == d.salts
}

/// A draft is appended as it is, behind the last entry, exactly where it
/// was not written against a later version, each of its operations has
/// its salt, and the log folds with it at its end. Otherwise it is
/// refused for the first of these that fails.
pub proof fn a_draft_is_appended_or_refused(
    record: Seq<char>,
    entries: Seq<EntryModel>,
    d: DraftModel,
    e: EntryModel,
)
    requires
        entries.len() < u64::MAX,
        is_the_draft(record, entries, d, e),
    ensures
        ({
            let out = log::appended(record, entries, d);
            let after = log::folded(entries.push(e));
            if d.base_version > entries.len() {
                out matches Err(AppendErrorModel::BaseVersionAhead { base, version }) && base
                    == d.base_version && version == entries.len()
            } else if d.ops.len() != d.salts.ops.len() {
                out matches Err(AppendErrorModel::SaltCount(_))
            } else if log::folded(entries) is Err {
                out == Err::<EntryModel, _>(AppendErrorModel::Unfoldable(log::folded(entries)->Err_0))
            } else {
                match after {
                    Ok(_) => out == Ok::<_, AppendErrorModel>(e),
                    Err(FoldErrorModel::Apply { error, .. }) => out == Err::<EntryModel, _>(
                        AppendErrorModel::DoesNotApply(error),
                    ),
                    Err(FoldErrorModel::Lifecycle { error, .. }) => out == Err::<EntryModel, _>(
                        AppendErrorModel::IllegalTransition(error),
                    ),
                    Err(x) => out == Err::<EntryModel, _>(AppendErrorModel::Unfoldable(x)),
                }
            }
        }),
{
    let more = entries.push(e);
    assert(more.drop_last() =~= entries);
    assert(more.last() == e);
    if entries.len() > 0 {
        assert(entries[entries.len() - 1] == entries.last());
    }
    assert(log::next_entry(record, entries, d) == e);
    assert(log::folded(more) == match log::folded(entries) {
        Err(x) => Err(x),
        Ok(s) => log::entry_step(s, e),
    });
}

/// Whether the entry at a place is a sound link of a chain: it is numbered
/// by its place, follows the one before it, has a salt for each operation,
/// and its content is what it commits to.
pub open spec fn is_sound_at(record: Seq<char>, entries: Seq<EntryModel>, i: int) -> bool {
    let e = entries[i];
    &&& e.envelope.seq == i
    &&& e.envelope.prev == link_at(record, entries, i)
    &&& e.content.ops.len() == e.salts.ops.len()
    &&& e.envelope.content_hash == entry::content_commitment(e.content, e.salts)
}

/// Whether a fault is that of the entry at a place: the first of its
/// number, its link, its salts and its content that is wrong.
pub open spec fn is_fault_of(
    record: Seq<char>,
    entries: Seq<EntryModel>,
    i: int,
    x: ChainError,
) -> bool {
    let e = entries[i];
    match x {
        ChainError::SeqMismatch { at } => at == i && e.envelope.seq != i,
        ChainError::PrevMismatch { at } => at == i && e.envelope.seq == i && e.envelope.prev
            != link_at(record, entries, i),
        ChainError::SaltCount { at, mismatch } => at == i && e.envelope.seq == i && e.envelope.prev
            == link_at(record, entries, i) && e.content.ops.len() != e.salts.ops.len()
            && mismatch.ops == e.content.ops.len() as usize && mismatch.salts
            == e.salts.ops.len() as usize,
        ChainError::ContentMismatch { at } => at == i && e.envelope.seq == i && e.envelope.prev
            == link_at(record, entries, i) && e.content.ops.len() == e.salts.ops.len()
            && e.envelope.content_hash != entry::content_commitment(e.content, e.salts),
    }
}

/// A chain verifies exactly where every entry is a sound link; otherwise
/// the fault of the first that is not is reported, with its place.
pub proof fn the_first_broken_link_is_reported(record: Seq<char>, entries: Seq<EntryModel>)
    requires
        entries.len() <= usize::MAX,
    ensures
        log::chain_fault(record, entries) is None <==> forall|i: int|
            0 <= i < entries.len() ==> #[trigger] is_sound_at(record, entries, i),
        log::chain_fault(record, entries) matches Some(x) ==> exists|i: int|
            {
                &&& 0 <= i < entries.len()
                &&& !#[trigger] is_sound_at(record, entries, i)
                &&& is_fault_of(record, entries, i, x)
                &&& forall|j: int| 0 <= j < i ==> #[trigger] is_sound_at(record, entries, j)
            },
    decreases entries.len(),
{
    if entries.len() > 0 {
        let rest = entries.drop_last();
        let n = entries.len() - 1;
        the_first_broken_link_is_reported(record, rest);
        assert(entries[n] == entries.last());
        assert forall|i: int| 0 <= i < n implies #[trigger] is_sound_at(record, entries, i)
            == is_sound_at(record, rest, i) by {
            assert(rest[i] == entries[i]);
            if i > 0 {
                assert(rest[i - 1] == entries[i - 1]);
            }
        }
        if n > 0 {
            assert(rest[rest.len() - 1] == entries[n - 1]);
        }
        assert(log::link_after(record, rest) == link_at(record, entries, n));
        match log::chain_fault(record, rest) {
            Some(x) => {
                let i = choose|i: int|
                    {
                        &&& 0 <= i < rest.len()
                        &&& !#[trigger] is_sound_at(record, rest, i)
                        &&& is_fault_of(record, rest, i, x)
                        &&& forall|j: int| 0 <= j < i ==> #[trigger] is_sound_at(record, rest, j)
                    };
                assert(!is_sound_at(record, entries, i));
                assert(rest[i] == entries[i]);
                if i > 0 {
                    assert(rest[i - 1] == entries[i - 1]);
                }
                assert(is_fault_of(record, entries, i, x));
                assert forall|j: int| 0 <= j < i implies #[trigger] is_sound_at(
                    record,
                    entries,
                    j,
                ) by {
                    assert(is_sound_at(record, rest, j));
                }
            },
            None => {
                assert forall|j: int| 0 <= j < n implies #[trigger] is_sound_at(
                    record,
                    entries,
                    j,
                ) by {
                    assert(is_sound_at(record, rest, j));
                }
                assert(log::chain_fault(record, entries) is None <==> is_sound_at(record, entries, n));
                if let Some(x) = log::chain_fault(record, entries) {
                    assert(is_fault_of(record, entries, n, x));
                }
            },
        }
    }
}

/// A snapshot at a place of a log holds what the log folds to up to
/// there, and the hash of the last entry up to there; before the first
/// entry and behind the last there is none.
pub proof fn a_snapshot_pins_its_place(entries: Seq<EntryModel>, upto: u64)
    ensures
        (upto == 0 || upto > entries.len()) ==> log::snapshot_of(entries, upto) == Err::<
            SnapshotModel,
            _,
        >(SnapshotErrorModel::OutOfRange),
        0 < upto <= entries.len() ==> match log::folded(entries.take(upto as int)) {
            Ok(s) => log::snapshot_of(entries, upto) matches Ok(x) && x.at == upto && x.state == s
                && x.entry_hash == entry::envelope_hash(entries[upto - 1].envelope),
            Err(e) => log::snapshot_of(entries, upto) == Err::<SnapshotModel, _>(
                SnapshotErrorModel::Unfoldable(e),
            ),
        },
{
}

/// A snapshot is accepted exactly where its place lies in the log, the
/// entry there has its hash, and the log folds to its state.
pub proof fn a_snapshot_is_accepted_or_refused(entries: Seq<EntryModel>, s: SnapshotModel)
    ensures
        ({
            let inside = 0 < s.at <= entries.len();
            let pinned = entry::envelope_hash(entries[s.at - 1].envelope) == s.entry_hash;
            let state = log::folded(entries.take(s.at as int));
            &&& log::snapshot_fault(entries, s) is None <==> inside && pinned && state == Ok::<
                _,
                FoldErrorModel,
            >(s.state)
            &&& !inside <==> log::snapshot_fault(entries, s) == Some(SnapshotErrorModel::OutOfRange)
            &&& inside && !pinned <==> log::snapshot_fault(entries, s) == Some(
                SnapshotErrorModel::HashMismatch,
            )
            &&& inside && pinned && state is Ok && state->Ok_0 != s.state <==> log::snapshot_fault(
                entries,
                s,
            ) == Some(SnapshotErrorModel::StateMismatch)
        }),
{
}

/// A state at a place is what the entries up to there fold to; there is
/// none behind the end.
pub proof fn a_state_is_that_of_its_entries(entries: Seq<EntryModel>, upto: u64)
    ensures
        upto <= entries.len() ==> log::folded_at(entries, upto) == log::folded(entries.take(upto as int)),
        upto > entries.len() && entries.len() <= u64::MAX ==> (log::folded_at(entries, upto) matches Err(
            FoldErrorModel::OutOfRange { upto: u, version },
        ) && u == upto && version == entries.len()),
{
}

/// What is still awaited is listed: the resolutions whose status is
/// pending, in the order of their keys, and no other.
pub proof fn pending_resolutions_are_listed(
    keys: Seq<(Seq<char>, Seq<PathSegModel>)>,
    resolutions: Map<(Seq<char>, Seq<PathSegModel>), ResolutionModel>,
    r: ResolutionModel,
)
    ensures
        log::pending_among(keys, resolutions).contains(r) <==> exists|i: int|
            0 <= i < keys.len() && resolutions[#[trigger] keys[i]] == r && r.status is Pending,
    decreases keys.len(),
{
    if keys.len() > 0 {
        let rest = keys.drop_last();
        let n = keys.len() - 1;
        pending_resolutions_are_listed(rest, resolutions, r);
        assert(keys[n] == keys.last());
        let own = resolutions[keys.last()];
        let more = if own.status == ResolutionStatus::Pending {
            seq![own]
        } else {
            Seq::empty()
        };
        assert(log::pending_among(keys, resolutions) =~= log::pending_among(rest, resolutions) + more);
        schema_laws::join_contains(log::pending_among(rest, resolutions), more, r);
        if own.status == ResolutionStatus::Pending {
            assert(more[0] == own);
        }
        if log::pending_among(rest, resolutions).contains(r) {
            let i = choose|i: int|
                0 <= i < rest.len() && resolutions[#[trigger] rest[i]] == r && r.status is Pending;
            assert(keys[i] == rest[i]);
        }
        assert forall|i: int|
            0 <= i < keys.len() && resolutions[#[trigger] keys[i]] == r
                && r.status is Pending implies log::pending_among(keys, resolutions).contains(r) by {
            if i < n {
                assert(rest[i] == keys[i]);
            }
        }
    }
}

/// The scans that are still pending are listed, and no other.
pub proof fn pending_scans_are_listed(
    keys: Seq<Seq<char>>,
    scans: Map<Seq<char>, ScanModel>,
    s: ScanModel,
)
    ensures
        log::pending_scans_among(keys, scans).contains(s) <==> exists|i: int|
            0 <= i < keys.len() && scans[#[trigger] keys[i]] == s && s.status is Pending,
    decreases keys.len(),
{
    if keys.len() > 0 {
        let rest = keys.drop_last();
        let n = keys.len() - 1;
        pending_scans_are_listed(rest, scans, s);
        assert(keys[n] == keys.last());
        let own = scans[keys.last()];
        let more = if own.status == ScanStatus::Pending {
            seq![own]
        } else {
            Seq::empty()
        };
        assert(log::pending_scans_among(keys, scans) =~= log::pending_scans_among(rest, scans) + more);
        schema_laws::join_contains(log::pending_scans_among(rest, scans), more, s);
        if own.status == ScanStatus::Pending {
            assert(more[0] == own);
        }
        if log::pending_scans_among(rest, scans).contains(s) {
            let i = choose|i: int|
                0 <= i < rest.len() && scans[#[trigger] rest[i]] == s && s.status is Pending;
            assert(keys[i] == rest[i]);
        }
        assert forall|i: int|
            0 <= i < keys.len() && scans[#[trigger] keys[i]] == s
                && s.status is Pending implies log::pending_scans_among(keys, scans).contains(s) by {
            if i < n {
                assert(rest[i] == keys[i]);
            }
        }
    }
}

/// A group is pending at a row path exactly where one of the resolutions
/// asked for there, and anchored there, is.
pub proof fn pending_is_that_of_a_resolution(
    resolutions: Map<(Seq<char>, Seq<PathSegModel>), ResolutionModel>,
    scope: Seq<PathSegModel>,
    anchor: Seq<char>,
    k: (Seq<char>, Seq<PathSegModel>),
    r: ResolutionModel,
)
    requires
        !resolutions.dom().contains(k),
    ensures
        !log::is_pending_at(Map::empty(), scope, anchor),
        log::is_pending_at(resolutions.insert(k, r), scope, anchor) <==> log::is_pending_at(
            resolutions,
            scope,
            anchor,
        ) || (r.status is Pending && r.scope == scope && r.anchor == anchor),
{
    let more = resolutions.insert(k, r);
    if log::is_pending_at(resolutions, scope, anchor) {
        let q = choose|q: (Seq<char>, Seq<PathSegModel>)| #[trigger]
            resolutions.dom().contains(q) && resolutions[q].status == ResolutionStatus::Pending
                && resolutions[q].scope == scope && resolutions[q].anchor == anchor;
        assert(more.dom().contains(q));
    }
    if r.status is Pending && r.scope == scope && r.anchor == anchor {
        assert(more.dom().contains(k));
    }
    if log::is_pending_at(more, scope, anchor) {
        let q = choose|q: (Seq<char>, Seq<PathSegModel>)| #[trigger]
            more.dom().contains(q) && more[q].status == ResolutionStatus::Pending && more[q].scope
                == scope && more[q].anchor == anchor;
        if q != k {
            assert(resolutions.dom().contains(q));
        }
    }
}

} // verus!
