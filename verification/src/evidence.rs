//! Tamper evidence: what was committed to cannot be edited unseen.
//!
//! A digest stands for what it was taken of as far as no two byte strings
//! with one digest are known. So a law says either that what was hashed
//! is the same, or that two different byte strings, which it names, have
//! one digest; nothing else is taken of the hash.

use vstd::prelude::*;
use crate::canonical;
use crate::distinct_forms;
use crate::entry;
use crate::entry_codec;
use crate::log;
use crate::one_text;
use crate::text;
use crate::canonical::{CanonicalError, CanonicalValueModel, sha256};
use crate::entry::{
    EntryContentModel, EntryModel, EntrySaltsModel, EnvelopeModel, SaltCountMismatch,
};
use crate::entry_codec::meta;
use crate::log::ChainError;

verus! {

proof fn sound_up_to(record: Seq<char>, entries: Seq<EntryModel>, n: int)
    requires
        log::chain_fault(record, entries) is None,
        0 <= n <= entries.len(),
    ensures
        log::chain_fault(record, entries.take(n)) is None,
        n < entries.len() ==> log::link_fault(record, entries.take(n), entries[n]) is None,
{
    if log::chain_fault(record, entries.take(n)) is Some {
        log::chain_fault_stays(record, entries, n);
    }
    if n < entries.len() {
        if log::chain_fault(record, entries.take(n + 1)) is Some {
            log::chain_fault_stays(record, entries, n + 1);
        }
        assert(entries.take(n + 1).drop_last() =~= entries.take(n));
    }
}

proof fn first_fault_shows(record: Seq<char>, entries: Seq<EntryModel>, n: int)
    requires
        0 <= n < entries.len(),
        log::chain_fault(record, entries.take(n)) is None,
        log::link_fault(record, entries.take(n), entries[n]) is Some,
    ensures
        log::chain_fault(record, entries) == log::link_fault(record, entries.take(n), entries[n]),
{
    assert(entries.take(n + 1).drop_last() =~= entries.take(n));
    log::chain_fault_stays(record, entries, n + 1);
}

/// Content addresses in double quotes, one after the other, with commas
/// between them.
pub open spec fn quoted_list(hashes: Seq<Seq<u8>>) -> Seq<char>
    decreases hashes.len(),
{
    if hashes.len() == 0 {
        Seq::empty()
    } else {
        let one = seq!['"'] + canonical::hash_text(hashes.last()) + seq!['"'];
        if hashes.len() == 1 {
            one
        } else {
            quoted_list(hashes.drop_last()) + seq![','] + one
        }
    }
}

proof fn plain_text_is_not_escaped(s: Seq<char>)
    requires
        forall|i: int|
            0 <= i < s.len() ==> (#[trigger] s[i] as nat) >= 0x20 && s[i] != '"' && s[i] != '\\',
    ensures
        canonical::escaped_text(s) == s,
    decreases s.len(),
{
    if s.len() > 0 {
        let rest = s.drop_last();
        assert forall|i: int| 0 <= i < rest.len() implies (#[trigger] rest[i] as nat) >= 0x20
            && rest[i] != '"' && rest[i] != '\\' by {
            assert(rest[i] == s[i]);
        }
        plain_text_is_not_escaped(rest);
        assert(s[s.len() - 1] == s.last());
        assert(canonical::escaped(s.last()) == seq![s.last()]);
        assert(rest + seq![s.last()] =~= s);
    } else {
        assert(canonical::escaped_text(s) =~= s);
    }
}

proof fn address_is_plain(hash: Seq<u8>)
    ensures
        canonical::quoted(canonical::hash_text(hash)) == seq!['"'] + canonical::hash_text(hash) + seq!['"'],
{
    let s = canonical::hash_text(hash);
    let n = "sha256:"@.len() as int;
    text::hex_index(hash);
    assert forall|i: int| 0 <= i < s.len() implies (#[trigger] s[i] as nat) >= 0x20 && s[i] != '"'
        && s[i] != '\\' by {
        if i < n {
            assert(s[i] == "sha256:"@[i]);
            reveal_strlit("sha256:");
        } else {
            assert(s[i] == text::hex(hash)[i - n]);
            assert(text::is_hex(text::hex(hash)[i - n]));
        }
    }
    plain_text_is_not_escaped(s);
}

proof fn addresses_are_listed(hashes: Seq<Seq<u8>>)
    ensures
        canonical::jcs_items(canonical::hash_list(hashes)->Array_0) == Ok::<Seq<char>, CanonicalError>(
            quoted_list(hashes),
        ),
    decreases hashes.len(),
{
    let items = canonical::hash_list(hashes)->Array_0;
    if hashes.len() > 0 {
        let rest = hashes.drop_last();
        addresses_are_listed(rest);
        assert(items.drop_last() =~= canonical::hash_list(rest)->Array_0);
        assert(items.last() == CanonicalValueModel::String(canonical::hash_text(hashes.last())));
        address_is_plain(hashes.last());
        let one = canonical::quoted(canonical::hash_text(hashes.last()));
        let t = quoted_list(rest);
        assert(canonical::jcs(items.last()) == Ok::<Seq<char>, CanonicalError>(one));
        assert(items.len() == hashes.len());
        if hashes.len() == 1 {
            assert(t =~= Seq::<char>::empty());
        }
        assert(canonical::separated(t, hashes.len() > 1) + one =~= quoted_list(hashes));
    } else {
        assert(items =~= Seq::<CanonicalValueModel>::empty());
    }
}

/// A vector commitment is the digest of the commitments' texts, each in
/// double quotes, with commas between them, in square brackets. So who
/// recomputes some of them from what was disclosed, and takes the others
/// as sent, gets the writer's address.
pub proof fn vector_commitment_is_of_the_list(hashes: Seq<Seq<u8>>)
    ensures
        canonical::vector_commitment(hashes) == canonical::sha256_digest(
            vstd::utf8::encode_utf8(seq!['['] + quoted_list(hashes) + seq![']']),
        ),
{
    addresses_are_listed(hashes);
}

/// The commitments that an entry's content commitment is taken of.
pub open spec fn commitments(c: EntryContentModel, s: EntrySaltsModel) -> Seq<Seq<u8>> {
    seq![canonical::commitment(s.meta, entry_codec::meta_form(c.origin, c.note))->Ok_0] + entry::op_commitments(c.ops, s.ops)
}

/// What is hashed for an entry's origin and note.
pub open spec fn meta_bytes(c: EntryContentModel, s: EntrySaltsModel) -> Seq<u8> {
    s.meta + canonical::canonical(entry_codec::meta_form(c.origin, c.note))->Ok_0
}

/// What is hashed for an operation.
pub open spec fn op_bytes(c: EntryContentModel, s: EntrySaltsModel, i: int) -> Seq<u8> {
    s.ops[i] + canonical::canonical(entry_codec::entry_op_form(c.ops[i]))->Ok_0
}

/// What is hashed for the list of an entry's commitments.
pub open spec fn list_bytes(c: EntryContentModel, s: EntrySaltsModel) -> Seq<u8> {
    canonical::canonical(canonical::hash_list(commitments(c, s)))->Ok_0
}

/// Whether a byte string is hashed for an entry's content commitment.
pub open spec fn is_hashed(c: EntryContentModel, s: EntrySaltsModel, b: Seq<u8>) -> bool {
    ||| b == meta_bytes(c, s)
    ||| exists|i: int| 0 <= i < c.ops.len() && b == #[trigger] op_bytes(c, s, i)
    ||| b == list_bytes(c, s)
}

/// Whether two different byte strings, one hashed for each of two
/// contents, have one digest.
pub open spec fn contents_collide(
    c: EntryContentModel,
    s: EntrySaltsModel,
    d: EntryContentModel,
    t: EntrySaltsModel,
) -> bool {
    exists|x: Seq<u8>, y: Seq<u8>|
        is_hashed(c, s, x) && is_hashed(d, t, y) && #[trigger] canonical::collide(x, y)
}

/// What the types of a content's and its salts' parts promise, with one
/// salt for each operation and counts that fit JSON numbers.
pub open spec fn is_committed(c: EntryContentModel, s: EntrySaltsModel) -> bool {
    &&& entry_codec::origin_is_valid(c.origin)
    &&& forall|i: int| 0 <= i < c.ops.len() ==> distinct_forms::operation_is_valid(#[trigger] c.ops[i])
    &&& entry::committable(c.ops)
    &&& c.ops.len() == s.ops.len()
    &&& s.meta.len() == 32
    &&& forall|i: int| 0 <= i < s.ops.len() ==> (#[trigger] s.ops[i]).len() == 32
}

/// Whether two contents are one, but for how the whole numbers of a
/// geometry are held.
pub open spec fn contents_alike(c: EntryContentModel, d: EntryContentModel) -> bool {
    &&& c.origin == d.origin
    &&& c.note == d.note
    &&& c.ops.len() == d.ops.len()
    &&& forall|i: int| 0 <= i < c.ops.len() ==> distinct_forms::operations_alike(#[trigger] c.ops[i], d.ops[i])
}

/// Contents whose geometry holds no doubles are alike only where they are
/// one.
pub proof fn exact_contents_alike_are_equal(c: EntryContentModel, d: EntryContentModel)
    requires
        contents_alike(c, d),
        forall|i: int| 0 <= i < c.ops.len() ==> distinct_forms::operation_is_exact(#[trigger] c.ops[i]),
        forall|i: int| 0 <= i < d.ops.len() ==> distinct_forms::operation_is_exact(#[trigger] d.ops[i]),
    ensures
        c == d,
{
    assert forall|i: int| 0 <= i < c.ops.len() implies c.ops[i] == d.ops[i] by {
        distinct_forms::exact_operations_alike_are_equal(c.ops[i], d.ops[i]);
    }
    assert(c.ops =~= d.ops);
}

proof fn address_lists_are_distinct(a: Seq<Seq<u8>>, b: Seq<Seq<u8>>)
    requires
        canonical::canonical(canonical::hash_list(a)) == canonical::canonical(canonical::hash_list(b)),
    ensures
        a == b,
{
    let x = canonical::hash_list(a)->Array_0;
    let y = canonical::hash_list(b)->Array_0;
    addresses_are_listed(a);
    addresses_are_listed(b);
    assert forall|i: int| 0 <= i < x.len() implies one_text::is_exact(#[trigger] x[i]) by {}
    assert forall|i: int| 0 <= i < y.len() implies one_text::is_exact(#[trigger] y[i]) by {}
    one_text::different_texts_have_different_bytes(canonical::jcs(canonical::hash_list(a))->Ok_0, canonical::jcs(canonical::hash_list(b))->Ok_0);
    one_text::different_values_have_different_texts(canonical::hash_list(a), canonical::hash_list(b));
    assert(a.len() == x.len() && b.len() == y.len());
    assert forall|i: int| 0 <= i < a.len() implies a[i] == b[i] by {
        assert(x[i] == y[i]);
        distinct_forms::hash_texts_are_distinct(a[i], b[i]);
    }
    assert(a =~= b);
}

proof fn salted_apart(s: Seq<u8>, x: Seq<u8>, t: Seq<u8>, y: Seq<u8>)
    requires
        s.len() == t.len(),
        s + x == t + y,
    ensures
        s == t,
        x == y,
{
    let n = s.len() as int;
    assert((s + x).take(n) =~= s);
    assert((t + y).take(n) =~= t);
    assert((s + x).skip(n) =~= x);
    assert((t + y).skip(n) =~= y);
}

proof fn same_notes(
    c: EntryContentModel,
    s: EntrySaltsModel,
    d: EntryContentModel,
    t: EntrySaltsModel,
)
    requires
        is_committed(c, s),
        is_committed(d, t),
        commitments(c, s)[0] == commitments(d, t)[0],
        !contents_collide(c, s, d, t),
    ensures
        c.origin == d.origin,
        c.note == d.note,
        s.meta == t.meta,
{
    distinct_forms::different_notes_have_different_bytes(c.origin, c.note, d.origin, d.note);
    distinct_forms::different_notes_have_different_bytes(d.origin, d.note, c.origin, c.note);
    let x = meta_bytes(c, s);
    let y = meta_bytes(d, t);
    assert(commitments(c, s)[0] == canonical::sha256_digest(x));
    assert(commitments(d, t)[0] == canonical::sha256_digest(y));
    assert(is_hashed(c, s, x) && is_hashed(d, t, y));
    assert(!canonical::collide(x, y));
    salted_apart(
        s.meta,
        canonical::canonical(entry_codec::meta_form(c.origin, c.note))->Ok_0,
        t.meta,
        canonical::canonical(entry_codec::meta_form(d.origin, d.note))->Ok_0,
    );
}

proof fn same_operation(
    c: EntryContentModel,
    s: EntrySaltsModel,
    d: EntryContentModel,
    t: EntrySaltsModel,
    i: int,
)
    requires
        is_committed(c, s),
        is_committed(d, t),
        0 <= i < c.ops.len(),
        i < d.ops.len(),
        commitments(c, s)[i + 1] == commitments(d, t)[i + 1],
        !contents_collide(c, s, d, t),
    ensures
        distinct_forms::operations_alike(c.ops[i], d.ops[i]),
        s.ops[i] == t.ops[i],
{
    let a = c.ops[i];
    let b = d.ops[i];
    distinct_forms::safe_operations_have_bytes(a);
    distinct_forms::safe_operations_have_bytes(b);
    let x = op_bytes(c, s, i);
    let y = op_bytes(d, t, i);
    assert(commitments(c, s)[i + 1] == entry::op_commitments(c.ops, s.ops)[i]);
    assert(commitments(d, t)[i + 1] == entry::op_commitments(d.ops, t.ops)[i]);
    assert(commitments(c, s)[i + 1] == canonical::sha256_digest(x));
    assert(commitments(d, t)[i + 1] == canonical::sha256_digest(y));
    assert(is_hashed(c, s, x) && is_hashed(d, t, y));
    assert(!canonical::collide(x, y));
    assert(s.ops[i].len() == t.ops[i].len());
    salted_apart(
        s.ops[i],
        canonical::canonical(entry_codec::entry_op_form(a))->Ok_0,
        t.ops[i],
        canonical::canonical(entry_codec::entry_op_form(b))->Ok_0,
    );
    distinct_forms::different_operations_have_different_bytes(a, b);
}

/// A content commitment stands for one content under one set of salts:
/// contents with one commitment are one, with the same salts, or two
/// different byte strings among those hashed for them have one digest.
pub proof fn a_commitment_has_one_content(
    c: EntryContentModel,
    s: EntrySaltsModel,
    d: EntryContentModel,
    t: EntrySaltsModel,
)
    requires
        is_committed(c, s),
        is_committed(d, t),
        entry::content_commitment(c, s) == entry::content_commitment(d, t),
    ensures
        contents_alike(c, d) && s == t || contents_collide(c, s, d, t),
{
    if !contents_collide(c, s, d, t) {
        let a = commitments(c, s);
        let b = commitments(d, t);
        let x = list_bytes(c, s);
        let y = list_bytes(d, t);
        assert(entry::content_commitment(c, s) == canonical::sha256_digest(x));
        assert(entry::content_commitment(d, t) == canonical::sha256_digest(y));
        assert(is_hashed(c, s, x) && is_hashed(d, t, y));
        assert(!canonical::collide(x, y));
        addresses_are_listed(a);
        addresses_are_listed(b);
        address_lists_are_distinct(a, b);
        assert(a.len() == c.ops.len() + 1 && b.len() == d.ops.len() + 1);
        same_notes(c, s, d, t);
        assert forall|i: int| 0 <= i < c.ops.len() implies distinct_forms::operations_alike(
            #[trigger] c.ops[i],
            d.ops[i],
        ) && s.ops[i] == t.ops[i] by {
            same_operation(c, s, d, t, i);
        }
        assert forall|i: int| 0 <= i < s.ops.len() implies s.ops[i] == t.ops[i] by {
            assert(distinct_forms::operations_alike(c.ops[i], d.ops[i]));
        }
        assert(s.ops =~= t.ops);
    }
}

/// What is hashed for an entry's hash.
pub open spec fn envelope_bytes(e: EnvelopeModel) -> Seq<u8> {
    canonical::canonical(entry_codec::envelope_form(e))->Ok_0
}

/// An entry's hash stands for one envelope: envelopes with one hash are
/// one, or the two byte strings hashed for them differ and have one
/// digest.
pub proof fn a_hash_has_one_envelope(a: EnvelopeModel, b: EnvelopeModel)
    requires
        distinct_forms::envelope_is_valid(a),
        distinct_forms::envelope_is_valid(b),
        entry::hashable(a),
        entry::hashable(b),
        entry::envelope_hash(a) == entry::envelope_hash(b),
    ensures
        a == b || canonical::collide(envelope_bytes(a), envelope_bytes(b)),
{
    distinct_forms::different_envelopes_have_different_bytes(a, b);
    distinct_forms::different_envelopes_have_different_bytes(b, a);
}

/// What is hashed for a record's first link.
pub open spec fn genesis_bytes(record: Seq<char>) -> Seq<u8> {
    canonical::canonical(CanonicalValueModel::String(entry::genesis_text(record)))->Ok_0
}

/// Records have their own first links: two records with one link are one,
/// or the two byte strings hashed for them differ and have one digest.
pub proof fn records_have_their_own_genesis(a: Seq<char>, b: Seq<char>)
    ensures
        entry::genesis(a) == entry::genesis(b) ==> a == b || canonical::collide(genesis_bytes(a), genesis_bytes(b)),
{
    let x = CanonicalValueModel::String(entry::genesis_text(a));
    let y = CanonicalValueModel::String(entry::genesis_text(b));
    if entry::genesis(a) == entry::genesis(b) && genesis_bytes(a) == genesis_bytes(b) {
        one_text::different_texts_have_different_bytes(canonical::jcs(x)->Ok_0, canonical::jcs(y)->Ok_0);
        one_text::different_values_have_different_texts(x, y);
        let n = "varve:genesis:"@.len() as int;
        assert(entry::genesis_text(a).skip(n) =~= a);
        assert(entry::genesis_text(b).skip(n) =~= b);
    }
}

/// An edit of an entry's operations, origin, note or salts shows at that
/// entry, the last one not excepted, unless two different byte strings
/// among those hashed before and after the edit have one digest.
pub proof fn edited_content_shows(
    record: Seq<char>,
    entries: Seq<EntryModel>,
    i: int,
    e: EntryModel,
)
    requires
        0 <= i < entries.len(),
        log::chain_fault(record, entries) is None,
        e.envelope == entries[i].envelope,
        is_committed(entries[i].content, entries[i].salts),
        is_committed(e.content, e.salts),
        !contents_alike(entries[i].content, e.content) || entries[i].salts != e.salts,
        !contents_collide(entries[i].content, entries[i].salts, e.content, e.salts),
    ensures
        log::chain_fault(record, entries.update(i, e)) == Some(
            ChainError::ContentMismatch { at: i as usize },
        ),
{
    let after = entries.update(i, e);
    sound_up_to(record, entries, i);
    assert(after.take(i) =~= entries.take(i));
    if entry::content_commitment(e.content, e.salts) == entry::content_commitment(
        entries[i].content,
        entries[i].salts,
    ) {
        a_commitment_has_one_content(entries[i].content, entries[i].salts, e.content, e.salts);
    }
    first_fault_shows(record, after, i);
}

/// An operation without its salt, or a salt without its operation, shows
/// at the entry.
pub proof fn missing_salt_shows(
    record: Seq<char>,
    entries: Seq<EntryModel>,
    i: int,
    e: EntryModel,
)
    requires
        0 <= i < entries.len(),
        log::chain_fault(record, entries) is None,
        e.envelope == entries[i].envelope,
        e.content.ops.len() != e.salts.ops.len(),
    ensures
        log::chain_fault(record, entries.update(i, e)) == Some(
            ChainError::SaltCount {
                at: i as usize,
                mismatch: SaltCountMismatch {
                    ops: e.content.ops.len() as usize,
                    salts: e.salts.ops.len() as usize,
                },
            },
        ),
{
    let after = entries.update(i, e);
    sound_up_to(record, entries, i);
    assert(after.take(i) =~= entries.take(i));
    first_fault_shows(record, after, i);
}

proof fn another_hash_shows(
    record: Seq<char>,
    entries: Seq<EntryModel>,
    i: int,
    e: EntryModel,
)
    requires
        0 <= i < entries.len() - 1,
        log::chain_fault(record, entries) is None,
        e.content == entries[i].content,
        e.salts == entries[i].salts,
        e.envelope.seq == entries[i].envelope.seq,
        e.envelope.prev == entries[i].envelope.prev,
        e.envelope.content_hash == entries[i].envelope.content_hash,
        entry::envelope_hash(e.envelope) != entry::envelope_hash(entries[i].envelope),
        i + 1 <= usize::MAX,
    ensures
        log::chain_fault(record, entries.update(i, e)) == Some(
            ChainError::PrevMismatch { at: (i + 1) as usize },
        ),
{
    let after = entries.update(i, e);
    sound_up_to(record, entries, i);
    sound_up_to(record, entries, i + 1);
    assert(after.take(i) =~= entries.take(i));
    let front = after.take(i + 1);
    assert(front.drop_last() =~= entries.take(i));
    assert(front.last() == e);
    assert(log::chain_fault(record, front) is None);
    assert(entries.take(i + 1).last() == entries[i]);
    first_fault_shows(record, after, i + 1);
}

/// An edit of an entry's author, time, revision or base shows at the next
/// entry, unless the two byte strings hashed before and after the edit
/// have one digest.
pub proof fn edited_envelope_shows(
    record: Seq<char>,
    entries: Seq<EntryModel>,
    i: int,
    e: EntryModel,
)
    requires
        0 <= i < entries.len() - 1,
        log::chain_fault(record, entries) is None,
        e.content == entries[i].content,
        e.salts == entries[i].salts,
        e.envelope.seq == entries[i].envelope.seq,
        e.envelope.prev == entries[i].envelope.prev,
        e.envelope.content_hash == entries[i].envelope.content_hash,
        distinct_forms::envelope_is_valid(entries[i].envelope) && entry::hashable(entries[i].envelope),
        distinct_forms::envelope_is_valid(e.envelope) && entry::hashable(e.envelope),
        e.envelope != entries[i].envelope,
        !canonical::collide(envelope_bytes(entries[i].envelope), envelope_bytes(e.envelope)),
        i + 1 <= usize::MAX,
    ensures
        log::chain_fault(record, entries.update(i, e)) == Some(
            ChainError::PrevMismatch { at: (i + 1) as usize },
        ),
{
    if entry::envelope_hash(entries[i].envelope) == entry::envelope_hash(e.envelope) {
        a_hash_has_one_envelope(entries[i].envelope, e.envelope);
    }
    another_hash_shows(record, entries, i, e);
}

/// A log does not verify under another record, unless the two byte
/// strings hashed for the records' first links have one digest.
pub proof fn another_record_shows(
    record: Seq<char>,
    other: Seq<char>,
    entries: Seq<EntryModel>,
)
    requires
        entries.len() > 0,
        log::chain_fault(record, entries) is None,
        other != record,
        !canonical::collide(genesis_bytes(record), genesis_bytes(other)),
    ensures
        log::chain_fault(other, entries) == Some(ChainError::PrevMismatch { at: 0 }),
{
    records_have_their_own_genesis(record, other);
    sound_up_to(record, entries, 0);
    assert(entries.take(0) =~= Seq::<EntryModel>::empty());
    first_fault_shows(other, entries, 0);
}

/// Entries dropped from the end do not show: what is left is the log as
/// it once was.
pub proof fn dropped_tail_verifies(record: Seq<char>, entries: Seq<EntryModel>, n: int)
    requires
        log::chain_fault(record, entries) is None,
        0 <= n <= entries.len(),
    ensures
        log::chain_fault(record, entries.take(n)) is None,
{
    sound_up_to(record, entries, n);
}

/// What the types of an entry's parts promise, with counts that fit JSON
/// numbers and one salt for each operation.
pub open spec fn is_recorded(e: EntryModel) -> bool {
    is_committed(e.content, e.salts) && distinct_forms::envelope_is_valid(e.envelope) && entry::hashable(e.envelope)
}

/// Whether two entries are one, but for how the whole numbers of a
/// geometry are held.
pub open spec fn entries_alike(a: EntryModel, b: EntryModel) -> bool {
    a.envelope == b.envelope && contents_alike(a.content, b.content) && a.salts == b.salts
}

/// Whether two different byte strings, one hashed for each of two
/// entries, have one digest.
pub open spec fn entries_collide(a: EntryModel, b: EntryModel) -> bool {
    canonical::collide(envelope_bytes(a.envelope), envelope_bytes(b.envelope)) || contents_collide(
        a.content,
        a.salts,
        b.content,
        b.salts,
    )
}

/// Whether two different byte strings, one hashed for an entry of each of
/// two logs, have one digest.
pub open spec fn logs_collide(a: Seq<EntryModel>, b: Seq<EntryModel>) -> bool {
    exists|i: int, j: int|
        0 <= i < a.len() && 0 <= j < b.len() && #[trigger] entries_collide(a[i], b[j])
}

/// Whether two logs are one, but for how the whole numbers of a geometry
/// are held.
pub open spec fn logs_alike(a: Seq<EntryModel>, b: Seq<EntryModel>) -> bool {
    a.len() == b.len() && forall|i: int|
        0 <= i < a.len() ==> entries_alike(#[trigger] a[i], b[i])
}

proof fn collisions_stay(a: Seq<EntryModel>, b: Seq<EntryModel>)
    requires
        a.len() > 0,
        b.len() > 0,
        logs_collide(a.drop_last(), b.drop_last()),
    ensures
        logs_collide(a, b),
{
    let x = a.drop_last();
    let y = b.drop_last();
    let (i, j) = choose|i: int, j: int|
        0 <= i < x.len() && 0 <= j < y.len() && #[trigger] entries_collide(x[i], y[j]);
    assert(entries_collide(a[i], b[j]));
}

/// A pinned head pins the log: two logs of a record that verify and end
/// in entries with one hash are one log, or two different byte strings
/// among those hashed for them have one digest.
pub proof fn a_head_has_one_log(record: Seq<char>, a: Seq<EntryModel>, b: Seq<EntryModel>)
    requires
        0 < a.len() <= usize::MAX,
        0 < b.len() <= usize::MAX,
        log::chain_fault(record, a) is None,
        log::chain_fault(record, b) is None,
        forall|i: int| 0 <= i < a.len() ==> is_recorded(#[trigger] a[i]),
        forall|i: int| 0 <= i < b.len() ==> is_recorded(#[trigger] b[i]),
        entry::envelope_hash(a.last().envelope) == entry::envelope_hash(b.last().envelope),
    ensures
        logs_alike(a, b) || logs_collide(a, b),
    decreases a.len(),
{
    let m = a.len() - 1;
    let n = b.len() - 1;
    let x = a.drop_last();
    let y = b.drop_last();
    assert(a[m] == a.last() && b[n] == b.last());
    if !logs_collide(a, b) {
        assert(!entries_collide(a[m], b[n]));
        a_hash_has_one_envelope(a[m].envelope, b[n].envelope);
        a_commitment_has_one_content(a[m].content, a[m].salts, b[n].content, b[n].salts);
        assert(entries_alike(a[m], b[n]));
        assert(m == n);
        if m > 0 {
            assert forall|i: int| 0 <= i < x.len() implies is_recorded(#[trigger] x[i]) by {
                assert(x[i] == a[i]);
            }
            assert forall|i: int| 0 <= i < y.len() implies is_recorded(#[trigger] y[i]) by {
                assert(y[i] == b[i]);
            }
            a_head_has_one_log(record, x, y);
            if logs_collide(x, y) {
                collisions_stay(a, b);
            }
        }
        assert forall|i: int| 0 <= i < a.len() implies entries_alike(#[trigger] a[i], b[i]) by {
            if i < m {
                assert(x[i] == a[i] && y[i] == b[i]);
            }
        }
    }
}

} // verus!
