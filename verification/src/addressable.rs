//! Whether hashes and commitments can be taken, and that they can of
//! every entry that was read from its form.

use vstd::prelude::*;
use crate::canonical;
use crate::codec;
use crate::entry;
use crate::entry_codec;
use crate::log;
use crate::canonical::{CanonicalValueModel, MAX_SAFE_INTEGER};
use crate::codec::op;
use crate::entry::{Entry, EntryModel, EntryOp};
use crate::value::{CellState, CellStateModel, CellValue, CellValueModel, Op, Scalar, ScalarModel};

verus! {

fn fits_number(n: u64) -> (r: bool)
    ensures
        r == codec::is_safe(n),
{
    let i: i64 = n as i64;
    -MAX_SAFE_INTEGER <= i && i <= MAX_SAFE_INTEGER
}

fn scalar_fits(s: &Scalar) -> (r: bool)
    ensures
        r == codec::scalar_is_safe(s@),
{
    match s {
        Scalar::Attachment(a) => fits_number(a.byte_size),
        _ => true,
    }
}

proof fn one_spoils_all(s: CellStateModel, vs: Seq<ScalarModel>, i: int)
    requires
        s == CellStateModel::Value(CellValueModel::Many(vs)),
        0 <= i < vs.len(),
        !codec::scalar_is_safe(vs[i]),
    ensures
        !codec::state_is_safe(s),
{
    match s {
        CellStateModel::Value(CellValueModel::Many(ws)) => {
            assert(ws == vs);
            assert(codec::state_is_safe(s) ==> codec::scalar_is_safe(ws[i]));
        },
        _ => {},
    }
}

fn state_fits(s: &CellState) -> (r: bool)
    ensures
        r == codec::state_is_safe(s@),
{
    match s {
        CellState::Empty => true,
        CellState::Value(CellValue::One(v)) => scalar_fits(v),
        CellState::Value(CellValue::Many(vs)) => {
            let ghost m = vs.deep_view();
            let mut i: usize = 0;
            while i < vs.len()
                invariant
                    i <= vs@.len(),
                    m == vs.deep_view(),
                    s@ == CellStateModel::Value(CellValueModel::Many(m)),
                    forall|j: int| 0 <= j < i ==> codec::scalar_is_safe(#[trigger] m[j]),
                decreases vs@.len() - i,
            {
                assert(m[i as int] == vs@[i as int].deep_view());
                if !scalar_fits(&vs[i]) {
                    proof {
                        one_spoils_all(s@, m, i as int);
                    }
                    return false;
                }
                i += 1;
            }
            true
        },
    }
}

/// Whether every count in an entry's operations fits a JSON number, so
/// that a commitment to them can be taken.
pub fn is_committable(ops: &[EntryOp]) -> (r: bool)
    ensures
        r == entry::committable(ops.deep_view()),
{
    let ghost m = ops.deep_view();
    let mut i: usize = 0;
    while i < ops.len()
        invariant
            i <= ops@.len(),
            m == ops.deep_view(),
            forall|j: int| 0 <= j < i ==> entry_codec::entry_op_is_safe(#[trigger] m[j]),
        decreases ops@.len() - i,
    {
        assert(m[i as int] == ops@[i as int].deep_view());
        let fits = match &ops[i] {
            EntryOp::Cell(Op::Put { state, .. }) => state_fits(state),
            EntryOp::Cell(Op::AddItem { at, .. }) => fits_number(*at as u64),
            _ => true,
        };
        assert(fits == entry_codec::entry_op_is_safe(m[i as int]));
        if !fits {
            return false;
        }
        i += 1;
    }
    true
}

impl Entry {
    /// Whether the entry's hash and commitment can be taken: its counts
    /// fit JSON numbers.
    pub fn is_addressable(&self) -> (r: bool)
        ensures
            r == log::is_addressable(self@),
    {
        fits_number(self.envelope.seq) && fits_number(self.envelope.base_version) && (
        self.content.ops.len() != self.salts.ops.len() || is_committable(
            self.content.ops.as_slice(),
        ))
    }
}

proof fn read_counts_fit(m: Seq<(Seq<char>, CanonicalValueModel)>, k: Seq<char>)
    ensures
        codec::count_member(m, k) matches Some(n) ==> codec::is_safe(n),
{
}

proof fn read_scalars_fit(v: CanonicalValueModel)
    ensures
        codec::scalar_of(v) matches Some(s) ==> codec::scalar_is_safe(s),
{
    if let Some(ScalarModel::Attachment(a)) = codec::scalar_of(v) {
        let (kind, inner) = codec::tag_of(v)->0;
        if let CanonicalValueModel::Object(m) = inner {
            read_counts_fit(m, "byte_size"@);
        }
    }
}

proof fn read_states_fit(v: CanonicalValueModel)
    ensures
        codec::state_of(v) matches Some(s) ==> codec::state_is_safe(s),
{
    match v {
        CanonicalValueModel::Object(_) => read_scalars_fit(v),
        CanonicalValueModel::Array(a) => {
            assert forall|i: int| 0 <= i < a.len() && codec::scalar_of(a[i]) is Some implies codec::scalar_is_safe(
                (#[trigger] codec::scalar_of(a[i]))->0,
            ) by {
                read_scalars_fit(a[i]);
            }
        },
        _ => {},
    }
}

proof fn read_changes_fit(v: CanonicalValueModel)
    ensures
        codec::op_of(v) matches Some(op) ==> codec::op_is_safe(op),
{
    if let CanonicalValueModel::Object(m) = v {
        read_counts_fit(m, "at"@);
        if let Some(state) = canonical::member(m, "state"@) {
            read_states_fit(state);
        }
    }
}

/// An entry that was read from its form is addressable: its hash and its
/// commitment can be taken.
pub proof fn read_entries_are_addressable(v: CanonicalValueModel)
    ensures
        entry_codec::entry_of(v) matches Some(e) ==> log::is_addressable(e) && entry::hashable(e.envelope) && entry::committable(
            e.content.ops,
        ),
{
    if let Some(e) = entry_codec::entry_of(v) {
        let m = v->Object_0;
        read_counts_fit(m, "seq"@);
        read_counts_fit(m, "base_version"@);
        let a = canonical::member(m, "ops"@)->0->Array_0;
        assert forall|i: int| 0 <= i < e.content.ops.len() implies entry_codec::entry_op_is_safe(
            #[trigger] e.content.ops[i],
        ) by {
            read_changes_fit(a[i]);
        }
    }
}

proof fn wrapper_keys_stand_apart()
    ensures
        forall|i: int|
            2 <= i < entry_codec::entry_keys().len() ==> (#[trigger] entry_codec::entry_keys()[i]) != "k"@ && entry_codec::entry_keys()[i]
                != "record"@,
{
    reveal_strlit("k");
    reveal_strlit("record");
    reveal_strlit("seq");
    reveal_strlit("prev");
    reveal_strlit("actor");
    reveal_strlit("actor_kind");
    reveal_strlit("timestamp");
    reveal_strlit("revision");
    reveal_strlit("base_version");
    reveal_strlit("content_hash");
    reveal_strlit("origin");
    reveal_strlit("note");
    reveal_strlit("ops");
    reveal_strlit("meta_salt");
    reveal_strlit("op_salts");
    assert("k"@.len() == 1);
    assert("record"@.len() == 6);
    assert("seq"@.len() == 3);
    assert("prev"@.len() == 4);
    assert("actor"@.len() == 5);
    assert("actor_kind"@.len() == 10);
    assert("timestamp"@.len() == 9);
    assert("revision"@.len() == 8);
    assert("base_version"@.len() == 12);
    assert("content_hash"@.len() == 12);
    assert("origin"@.len() == 6);
    assert("note"@.len() == 4);
    assert("ops"@.len() == 3);
    assert("meta_salt"@.len() == 9);
    assert("op_salts"@.len() == 8);
    assert("record"@[0] == 'r');
    assert("seq"@[0] == 's');
    assert("prev"@[0] == 'p');
    assert("timestamp"@[0] == 't');
    assert("revision"@[0] == 'r');
    assert("base_version"@[0] == 'b');
    assert("content_hash"@[0] == 'c');
    assert("origin"@[0] == 'o');
    assert("note"@[0] == 'n');
    assert("ops"@[0] == 'o');
    assert("meta_salt"@[0] == 'm');
    assert("op_salts"@[0] == 'o');
    assert("k"@.len() == 1 && "record"@.len() == 6 && "record"@[0] == 'r');
    assert("origin"@[0] == 'o');
    let keys = entry_codec::entry_keys();
    assert forall|i: int| 2 <= i < keys.len() implies (#[trigger] keys[i]).len() != 1 && (
    keys[i].len() != 6 || keys[i][0] != 'r') by {}
}

proof fn same_parts(
    m: Seq<(Seq<char>, CanonicalValueModel)>,
    w: Seq<(Seq<char>, CanonicalValueModel)>,
    h: Seq<u8>,
)
    requires
        forall|i: int|
            2 <= i < entry_codec::entry_keys().len() ==> canonical::member(w, #[trigger] entry_codec::entry_keys()[i]) == canonical::member(
                m,
                entry_codec::entry_keys()[i],
            ),
    ensures
        entry_codec::content_of(w) == entry_codec::content_of(m),
        entry_codec::entry_salts_of(w) == entry_codec::entry_salts_of(m),
        codec::hash_member(w, "content_hash"@) == codec::hash_member(m, "content_hash"@),
        entry_codec::head_of(w, h) == entry_codec::head_of(m, h),
{
    let keys = entry_codec::entry_keys();
    assert(keys[2] == "seq"@ && keys[3] == "prev"@ && keys[4] == "actor"@);
    assert(keys[5] == "actor_kind"@ && keys[6] == "timestamp"@ && keys[7] == "revision"@);
    assert(keys[8] == "base_version"@ && keys[9] == "content_hash"@ && keys[10] == "origin"@);
    assert(keys[11] == "note"@ && keys[12] == "ops"@ && keys[13] == "meta_salt"@);
    assert(keys[14] == "op_salts"@);
}

proof fn same_keys(
    m: Seq<(Seq<char>, CanonicalValueModel)>,
    w: Seq<(Seq<char>, CanonicalValueModel)>,
    keys: Seq<Seq<char>>,
    a: Seq<char>,
    b: Seq<char>,
)
    requires
        keys.contains(a),
        keys.contains(b),
        forall|q: Seq<char>| q != a && q != b ==> #[trigger] canonical::member(w, q) == canonical::member(m, q),
    ensures
        codec::has_only(w, keys) == codec::has_only(m, keys),
{
    codec::has_only_is(m, keys);
    codec::has_only_is(w, keys);
    if codec::has_only(w, keys) {
        assert forall|q: Seq<char>| #[trigger] canonical::member(m, q) is Some implies keys.contains(q) by {
            if q != a && q != b {
                assert(canonical::member(w, q) is Some);
            }
        }
    }
    if codec::has_only(m, keys) {
        assert forall|q: Seq<char>| #[trigger] canonical::member(w, q) is Some implies keys.contains(q) by {
            if q != a && q != b {
                assert(canonical::member(m, q) is Some);
            }
        }
    }
}

/// An addressable entry can be checked at any place of a chain.
pub proof fn addressable_entries_can_be_checked(at: usize, prev: Seq<u8>, e: EntryModel)
    requires
        log::is_addressable(e),
    ensures
        log::can_be_checked(at, prev, e),
{
}

/// The keys `k` and `record`, which wrap an exported entry, leave the
/// entry as it is, whatever they hold.
pub proof fn wrapper_keys_change_nothing(
    m: Seq<(Seq<char>, CanonicalValueModel)>,
    kind: CanonicalValueModel,
    record: CanonicalValueModel,
)
    requires
        canonical::members_in_order(m),
    ensures
        entry_codec::entry_of(
            CanonicalValueModel::Object(canonical::with_member(canonical::with_member(m, "k"@, kind), "record"@, record)),
        ) == entry_codec::entry_of(CanonicalValueModel::Object(m)),
{
    let once = canonical::with_member(m, "k"@, kind);
    let w = canonical::with_member(once, "record"@, record);
    let keys = entry_codec::entry_keys();
    canonical::with_member_is(m, "k"@, kind);
    canonical::with_member_is(once, "record"@, record);
    assert forall|q: Seq<char>| q != "k"@ && q != "record"@ implies #[trigger] canonical::member(w, q)
        == canonical::member(m, q) by {
        assert(canonical::member(once, q) == canonical::member(m, q));
    }
    assert(keys[0] == "k"@ && keys[1] == "record"@);
    same_keys(m, w, keys, "k"@, "record"@);
    wrapper_keys_stand_apart();
    assert forall|i: int| 2 <= i < keys.len() implies canonical::member(w, #[trigger] keys[i]) == canonical::member(
        m,
        keys[i],
    ) by {}
    same_parts(m, w, codec::hash_member(m, "content_hash"@)->0);
}

} // verus!
