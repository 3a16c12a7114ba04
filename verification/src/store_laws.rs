//! What a store of files does: when a blob is swept away, what a record
//! says of it, which bytes are fetched, and which keys are old.

use vstd::prelude::*;
use crate::canonical;
use crate::files;
use crate::impact;
use crate::files::{KeyRowModel, PutMetaModel, PutNext, PutPhase, PutReply, Whence};

verus! {

/// A blob lives where a root refers to it; one that none refers to is
/// young for as long as the grace window, and deleted from then on.
pub proof fn blobs_are_swept_in_time(
    live: Set<Seq<u8>>,
    grace: u128,
    now: int,
    hash: Seq<u8>,
    created_at: int,
)
    ensures
        files::fate_of(live, grace, now, hash, created_at) is Live <==> live.contains(hash),
        files::fate_of(live, grace, now, hash, created_at) is Delete <==> !live.contains(hash) && (grace
            == 0 || now >= created_at + grace),
        files::fate_of(live, grace, now, hash, created_at) is Young <==> !live.contains(hash) && grace > 0
            && now < created_at + grace,
{
}

/// Seconds since the epoch are whole and not ahead of the time; before
/// the epoch there are none.
pub proof fn seconds_are_whole(t: int)
    ensures
        t < 0 ==> files::unix_secs(t) == 0,
        t >= 0 ==> files::unix_secs(t) * 1_000_000_000 <= t < (files::unix_secs(t) + 1) * 1_000_000_000,
{
}

/// What a new record says of a blob is what was stored: its address, its
/// size, its type, the second it was stored in, and that it is not
/// scanned yet.
pub proof fn a_record_says_what_was_stored(hash: Seq<u8>, byte_size: u64, meta: PutMetaModel)
    requires
        0 <= meta.created_at <= 170141183460469231731687303715,
    ensures
        ({
            let r = files::new_record(hash, byte_size, meta);
            let info = files::record_info(hash, r);
            &&& r.hash == canonical::hash_text(hash)
            &&& info.hash == hash
            &&& info.byte_size == byte_size
            &&& info.content_type == meta.content_type
            &&& info.scan is None
            &&& meta.created_at <= u64::MAX * 1_000_000_000 ==> info.created_at <= meta.created_at
                < info.created_at + 1_000_000_000
        }),
{
}

/// What is fetched to read at a position begins there, ends with the
/// object or a whole span further, and nothing is fetched where there is
/// nothing to read or it is at hand.
pub proof fn a_fetch_begins_where_it_reads(pos: u64, len: u64, buf_start: u64, buf_len: u64)
    ensures
        files::fetch_at(pos, len, buf_start, buf_len) is None <==> pos >= len || (buf_start <= pos && pos
            < buf_start + buf_len),
        files::fetch_at(pos, len, buf_start, buf_len) matches Some((a, b)) ==> a == pos && b <= len && (b
            == len || b == pos + 4 * 1024 * 1024) && b - a <= 4 * 1024 * 1024,
{
}

/// A seek counts from the start, from the end or from where it is.
pub proof fn a_seek_counts_from_where_it_says(pos: u64, len: u64, n: u64, d: i64)
    ensures
        files::seek_position(Whence::Start(n), pos, len) == n,
        files::seek_position(Whence::End(d), pos, len) == len + d,
        files::seek_position(Whence::Current(d), pos, len) == pos + d,
{
}

/// The keys that are listed as old are those registered at the time or
/// before it.
pub proof fn old_keys_are_listed(
    order: Seq<Seq<u8>>,
    keys: Map<Seq<u8>, KeyRowModel>,
    before: i128,
    h: Seq<u8>,
)
    ensures
        impact::kept(order, files::row_before(keys, before)).contains(h) <==> order.contains(h) && keys[h].at
            <= before,
    decreases order.len(),
{
    let p = files::row_before(keys, before);
    if order.len() > 0 {
        let rest = order.drop_last();
        let last = order.last();
        old_keys_are_listed(rest, keys, before, h);
        assert(order =~= rest + seq![last]);
        crate::schema_laws::join_contains(rest, seq![last], h);
        assert(seq![last][0] == last);
        assert(seq![last].contains(h) == (h == last));
        if p(last) {
            assert(impact::kept(order, p) =~= impact::kept(rest, p) + seq![last]);
            crate::schema_laws::join_contains(impact::kept(rest, p), seq![last], h);
        }
    }
}

/// A new key is registered as it is, and no other changes.
pub proof fn a_key_is_registered_alone(
    keys: Map<Seq<u8>, KeyRowModel>,
    hash: Seq<u8>,
    row: KeyRowModel,
    other: Seq<u8>,
)
    requires
        other != hash,
    ensures
        files::registered(keys, hash, row).1 is Ok <==> !keys.dom().contains(hash),
        files::registered(keys, hash, row).1 is Ok ==> files::registered(keys, hash, row).0.dom().contains(hash)
            && files::registered(keys, hash, row).0[hash] == row,
        files::registered(keys, hash, row).0.dom().contains(other) == keys.dom().contains(other),
        keys.dom().contains(other) ==> files::registered(keys, hash, row).0[other] == keys[other],
{
}

/// How often the staged bytes are dropped on the way.
pub open spec fn drops_along(phase: PutPhase, replies: Seq<PutReply>) -> nat
    decreases replies.len(),
{
    if replies.len() == 0 {
        0
    } else {
        let step = files::put_after(phase, replies[0]);
        let own: nat = if step.discard {
            1
        } else {
            0
        };
        match step.next {
            PutNext::Go(next) => own + drops_along(next, replies.drop_first()),
            _ => own,
        }
    }
}

/// A put that ends with its blob stored, or finds another write in
/// flight, drops its staged bytes once on the way.
pub proof fn staged_bytes_are_dropped_once(replies: Seq<PutReply>)
    ensures
        files::put_run(PutPhase::Probe, replies) matches Some(end) ==> (end is Stored || end is InFlight
            ==> drops_along(PutPhase::Probe, replies) == 1),
{
    reveal_with_fuel(files::put_run, 4);
    reveal_with_fuel(drops_along, 4);
}

} // verus!
