//! Canonical JSON-shaped forms of row paths, scalars, cell states and
//! operations, and their strict reading.
//!
//! Exact numbers and instants are written as their normalized texts: a
//! JSON number cannot carry every 64-bit integer. One value has one
//! form, and reading refuses every other spelling.

use vstd::prelude::*;
use crate::canonical;
use crate::collections;
use crate::decimal;
use crate::order;
use crate::text;
use crate::time;
use crate::value;
use crate::canonical::{
    CanonicalValue, CanonicalValueModel, ContentHash, MAX_SAFE_INTEGER, MemberKey, Members,
    push_int, same_text,
};
use crate::decimal::{Decimal, PrimitiveError, PrimitiveErrorModel};
use crate::ids::{ColumnId, GroupId, ItemId, OptionId, PathSeg, PathSegModel, RowPath};
use crate::order::{Order, compare_text};
use crate::text::{parse_integer, push_text, text_of};
use crate::time::{Date, Instant, MAX_YEAR};
use crate::value::{
    AttachmentRef, AttachmentRefModel, CellState, CellStateModel, CellValue, CellValueModel,
    Feature, Op, OpModel, Scalar, ScalarModel,
};

verus! {

/// Record data that is not in its canonical form, and why.
#[derive(Clone, Debug, PartialEq, Eq)]
pub struct RecordDecodeError(pub String);

/// An error with a message.
pub fn malformed(message: &str) -> (r: RecordDecodeError)
    ensures
        r.0@ == message@,
{
    RecordDecodeError(message.to_owned())
}

/// A message about a key.
pub open spec fn keyed(message: Seq<char>, key: Seq<char>) -> Seq<char> {
    message + " '"@ + key + "'"@
}

/// A message about a key, as a text.
pub fn keyed_text(message: &str, key: &str) -> (r: String)
    ensures
        r@ == keyed(message@, key@),
{
    let mut text: Vec<char> = Vec::new();
    push_text(&mut text, message);
    push_text(&mut text, " '");
    push_text(&mut text, key);
    push_text(&mut text, "'");
    let r = text_of(&text);
    assert(r@ =~= keyed(message@, key@));
    r
}

/// An error with a message about a key.
pub fn malformed_key(message: &str, key: &str) -> (r: RecordDecodeError)
    ensures
        r.0@ == keyed(message@, key@),
{
    RecordDecodeError(keyed_text(message, key))
}

/// One text after another, as a text.
pub fn joined(first: &str, second: &str) -> (r: String)
    ensures
        r@ == first@ + second@,
{
    let mut text: Vec<char> = Vec::new();
    push_text(&mut text, first);
    push_text(&mut text, second);
    let r = text_of(&text);
    assert(r@ =~= first@ + second@);
    r
}

/// Where the first of some values that cannot be read stands.
pub open spec fn first_unread(read: Seq<bool>) -> int {
    choose|i: int|
        #![trigger read[i]]
        0 <= i < read.len() && !read[i] && forall|j: int| 0 <= j < i ==> #[trigger] read[j]
}

pub proof fn first_unread_is(read: Seq<bool>, i: int)
    requires
        0 <= i < read.len(),
        !read[i],
        forall|j: int| 0 <= j < i ==> #[trigger] read[j],
    ensures
        first_unread(read) == i,
{
    let k = first_unread(read);
    assert(0 <= k < read.len() && !read[k]);
    if k < i {
        assert(read[k]);
    } else if i < k {
        assert(read[i]);
    }
}

/// The first, in the order of texts, of an object's keys that are not
/// among some.
#[verifier::opaque]
pub open spec fn extra_key(
    m: Seq<(Seq<char>, CanonicalValueModel)>,
    keys: Seq<Seq<char>>,
) -> Option<Seq<char>>
    decreases m.len(),
{
    if m.len() == 0 {
        None
    } else {
        let rest = extra_key(m.drop_last(), keys);
        let k = m.last().0;
        if keys.contains(k) {
            rest
        } else {
            match rest {
                Some(q) if order::text_order(q, k) != Order::Greater => rest,
                _ => Some(k),
            }
        }
    }
}

/// Whether an object has no keys but some.
pub open spec fn has_only(
    m: Seq<(Seq<char>, CanonicalValueModel)>,
    keys: Seq<Seq<char>>,
) -> bool {
    extra_key(m, keys) is None
}

proof fn extra_key_stands_out(m: Seq<(Seq<char>, CanonicalValueModel)>, keys: Seq<Seq<char>>)
    ensures
        has_only(m, keys) <==> forall|i: int|
            0 <= i < m.len() ==> keys.contains((#[trigger] m[i]).0),
    decreases m.len(),
{
    reveal(extra_key);
    if m.len() > 0 {
        let rest = m.drop_last();
        extra_key_stands_out(rest, keys);
        assert(m[m.len() - 1] == m.last());
        assert forall|i: int| 0 <= i < rest.len() implies rest[i] == #[trigger] m[i] by {}
        if has_only(m, keys) {
            assert forall|i: int| 0 <= i < m.len() implies keys.contains((#[trigger] m[i]).0) by {
                if i < rest.len() {
                    assert(rest[i] == m[i]);
                }
            }
        }
    }
}

/// An object has no keys but some where each key under which it has a
/// member is among them.
pub proof fn has_only_is(m: Seq<(Seq<char>, CanonicalValueModel)>, keys: Seq<Seq<char>>)
    ensures
        has_only(m, keys) <==> forall|k: Seq<char>|
            #[trigger] canonical::member(m, k) is Some ==> keys.contains(k),
{
    extra_key_stands_out(m, keys);
    if has_only(m, keys) {
        assert forall|k: Seq<char>| #[trigger] canonical::member(m, k) is Some implies keys.contains(k) by {
            assert(collections::firsts(m).contains(k));
            let i = collections::firsts(m).index_of(k);
            assert(collections::firsts(m)[i] == k);
            assert(keys.contains(m[i].0));
        }
    }
    if forall|k: Seq<char>| #[trigger] canonical::member(m, k) is Some ==> keys.contains(k) {
        assert forall|i: int| 0 <= i < m.len() implies keys.contains((#[trigger] m[i]).0) by {
            assert(collections::firsts(m)[i] == m[i].0);
            assert(collections::firsts(m).contains(m[i].0));
            assert(canonical::member(m, m[i].0) is Some);
        }
    }
}

proof fn member_key_is_had(
    s: Seq<(Seq<char>, CanonicalValueModel)>,
    keys: Seq<Seq<char>>,
    k: Seq<char>,
    v: CanonicalValueModel,
)
    requires
        canonical::members_in_order(s),
        has_only(s, keys),
    ensures
        has_only(canonical::with_member(s, k, v), keys.push(k)),
{
    let t = canonical::with_member(s, k, v);
    let more = keys.push(k);
    canonical::with_member_is(s, k, v);
    has_only_is(s, keys);
    assert forall|q: Seq<char>| #[trigger] canonical::member(t, q) is Some implies more.contains(q) by {
        if q == k {
            assert(more[keys.len() as int] == k);
        } else {
            assert(canonical::member(s, q) is Some);
            let i = keys.index_of(q);
            assert(more[i] == q);
        }
    }
    has_only_is(t, more);
}

/// The texts of some string slices.
pub open spec fn texts_at(s: Seq<&str>) -> Seq<Seq<char>> {
    Seq::new(s.len(), |i: int| s[i]@)
}

fn is_among(key: &str, keys: &[&str]) -> (r: bool)
    ensures
        r == texts_at(keys@).contains(key@),
{
    let ghost all = texts_at(keys@);
    let mut i: usize = 0;
    while i < keys.len()
        invariant
            i <= keys@.len(),
            all == texts_at(keys@),
            forall|j: int| 0 <= j < i ==> #[trigger] all[j] != key@,
        decreases keys@.len() - i,
    {
        if same_text(keys[i], key) {
            assert(all[i as int] == key@);
            return true;
        }
        i += 1;
    }
    false
}

/// The first, in the order of texts, of an object's keys that are not
/// among some.
pub fn unexpected_key(m: &Members, keys: &[&str]) -> (r: Option<String>)
    ensures
        match r {
            Some(k) => extra_key(m@, texts_at(keys@)) == Some(k@),
            None => has_only(m@, texts_at(keys@)),
        },
        canonical::members_in_order(m@),
{
    let ghost s = m@;
    let ghost all = texts_at(keys@);
    let mut r: Option<String> = None;
    let mut i: usize = 0;
    let n = m.len();
    proof {
        reveal(extra_key);
        assert(s.take(0) =~= no_members());
    }
    while i < n
        invariant
            i <= n == s.len(),
            s == m@,
            canonical::members_in_order(s),
            all == texts_at(keys@),
            match r {
                Some(k) => extra_key(s.take(i as int), all) == Some(k@),
                None => has_only(s.take(i as int), all),
            },
        decreases s.len() - i,
    {
        let k = m.key_at(i);
        proof {
            reveal(extra_key);
            assert(s.take(i + 1).drop_last() =~= s.take(i as int));
            assert(s.take(i + 1).last() == s[i as int]);
        }
        if !is_among(k, keys) {
            let first = match &r {
                Some(q) => match compare_text(q.as_str(), k) {
                    Order::Greater => true,
                    _ => false,
                },
                None => true,
            };
            if first {
                r = Some(k.to_owned());
            }
        }
        i += 1;
    }
    assert(s.take(s.len() as int) =~= s);
    r
}

/// What is wrong with an object that has a key too many.
pub open spec fn extra_fault(
    m: Seq<(Seq<char>, CanonicalValueModel)>,
    keys: Seq<Seq<char>>,
) -> Seq<char> {
    keyed("unexpected key"@, extra_key(m, keys)->0)
}

/// Whether an object has no keys but some.
pub fn only_keys(m: &Members, keys: &[&str]) -> (r: Result<(), RecordDecodeError>)
    ensures
        match r {
            Ok(_) => has_only(m@, texts_at(keys@)),
            Err(e) => !has_only(m@, texts_at(keys@)) && e.0@ == extra_fault(
                m@,
                texts_at(keys@),
            ),
        },
        canonical::members_in_order(m@),
{
    match unexpected_key(m, keys) {
        Some(k) => Err(malformed_key("unexpected key", k.as_str())),
        None => Ok(()),
    }
}

pub open spec fn no_members() -> Seq<(Seq<char>, CanonicalValueModel)> {
    Seq::empty()
}

/// Puts a member into an object under construction.
pub fn put(m: &mut Members, key: &str, value: CanonicalValue)
    ensures
        final(m)@ == canonical::with_member(old(m)@, key@, value@),
        canonical::members_in_order(final(m)@),
{
    m.insert(key.to_owned(), value);
}

/// Puts a text into an object under construction.
pub fn put_text(m: &mut Members, key: &str, text: &str)
    ensures
        final(m)@ == canonical::with_member(old(m)@, key@, CanonicalValueModel::String(text@)),
        canonical::members_in_order(final(m)@),
{
    m.insert(key.to_owned(), CanonicalValue::String(text.to_owned()));
}

/// Whether every member's value has a canonical text.
pub open spec fn all_encode(s: Seq<(Seq<char>, CanonicalValueModel)>) -> bool {
    forall|i: int| 0 <= i < s.len() ==> canonical::jcs((#[trigger] s[i]).1) is Ok
}

pub proof fn members_encode(s: Seq<(Seq<char>, CanonicalValueModel)>)
    requires
        all_encode(s),
    ensures
        canonical::jcs(CanonicalValueModel::Object(s)) is Ok,
        canonical::jcs_members(s) is Ok,
    decreases s.len(),
{
    if s.len() > 0 {
        assert forall|i: int| 0 <= i < s.drop_last().len() implies canonical::jcs(
            (#[trigger] s.drop_last()[i]).1,
        ) is Ok by {
            assert(s.drop_last()[i] == s[i]);
        }
        members_encode(s.drop_last());
        assert(s.last() == s[s.len() - 1]);
    }
}

pub proof fn items_encode(s: Seq<CanonicalValueModel>)
    requires
        forall|i: int| 0 <= i < s.len() ==> canonical::jcs(#[trigger] s[i]) is Ok,
    ensures
        canonical::jcs(CanonicalValueModel::Array(s)) is Ok,
        canonical::jcs_items(s) is Ok,
    decreases s.len(),
{
    if s.len() > 0 {
        assert forall|i: int| 0 <= i < s.drop_last().len() implies canonical::jcs(
            #[trigger] s.drop_last()[i],
        ) is Ok by {
            assert(s.drop_last()[i] == s[i]);
        }
        items_encode(s.drop_last());
        assert(s.last() == s[s.len() - 1]);
    }
}

/// A member with a canonical text keeps an object one that has one, and
/// the object keeps its other members.
pub proof fn member_encodes(
    s: Seq<(Seq<char>, CanonicalValueModel)>,
    k: Seq<char>,
    v: CanonicalValueModel,
)
    requires
        canonical::members_in_order(s),
        all_encode(s),
        canonical::jcs(v) is Ok,
    ensures
        all_encode(canonical::with_member(s, k, v)),
        canonical::jcs(CanonicalValueModel::Object(canonical::with_member(s, k, v))) is Ok,
        canonical::members_in_order(canonical::with_member(s, k, v)),
{
    let t = canonical::with_member(s, k, v);
    canonical::with_member_is(s, k, v);
    key_place_bounds(collections::firsts(s), k);
    let p = canonical::key_place(collections::firsts(s), k);
    assert forall|i: int| 0 <= i < t.len() implies canonical::jcs((#[trigger] t[i]).1) is Ok by {
        if p < s.len() && s[p].0 == k {
            if i != p {
                assert(t[i] == s[i]);
            }
        } else if i < p {
            assert(t[i] == s[i]);
        } else if i > p {
            assert(t[i] == s[i - 1]);
        }
    }
    members_encode(t);
}

/// A key's place is among the others, or behind them.
pub proof fn key_place_bounds(keys: Seq<Seq<char>>, k: Seq<char>)
    ensures
        0 <= canonical::key_place(keys, k) <= keys.len(),
    decreases keys.len(),
{
    if keys.len() > 0 {
        key_place_bounds(keys.drop_first(), k);
    }
}

/// An object's members, put in one by one.
pub open spec fn members1(
    k1: Seq<char>,
    v1: CanonicalValueModel,
) -> Seq<(Seq<char>, CanonicalValueModel)> {
    canonical::with_member(no_members(), k1, v1)
}

/// Members under different keys are all there, and no others.
pub proof fn members1_are(
    k1: Seq<char>,
    v1: CanonicalValueModel,
)
    ensures
        canonical::members_in_order(members1(k1, v1)),
        members1(k1, v1).len() == 1,
        has_only(members1(k1, v1), seq![k1]),
        forall|k: Seq<char>| #[trigger] canonical::member(members1(k1, v1), k) == (if k == k1 {
            Some(v1)
        } else {
            None
        }),
        canonical::jcs(v1) is Ok ==> all_encode(members1(k1, v1)) && canonical::jcs(
            CanonicalValueModel::Object(members1(k1, v1)),
        ) is Ok,
{
    canonical::with_member_is(no_members(), k1, v1);
    if canonical::jcs(v1) is Ok {
        member_encodes(no_members(), k1, v1);
    }
    reveal(extra_key);
    member_key_is_had(no_members(), Seq::empty(), k1, v1);
}

/// An object's members, put in one by one.
pub open spec fn members2(
    k1: Seq<char>,
    v1: CanonicalValueModel,
    k2: Seq<char>,
    v2: CanonicalValueModel,
) -> Seq<(Seq<char>, CanonicalValueModel)> {
    canonical::with_member(members1(k1, v1), k2, v2)
}

/// Members under different keys are all there, and no others.
pub proof fn members2_are(
    k1: Seq<char>,
    v1: CanonicalValueModel,
    k2: Seq<char>,
    v2: CanonicalValueModel,
)
    requires
        k1 != k2,
    ensures
        canonical::members_in_order(members2(k1, v1, k2, v2)),
        members2(k1, v1, k2, v2).len() == 2,
        has_only(members2(k1, v1, k2, v2), seq![k1, k2]),
        forall|k: Seq<char>| #[trigger] canonical::member(members2(k1, v1, k2, v2), k) == (if k == k1 {
            Some(v1)
        } else {
            (if k == k2 {
            Some(v2)
        } else {
            None
        })
        }),
        canonical::jcs(v1) is Ok && canonical::jcs(v2) is Ok ==> all_encode(members2(k1, v1, k2, v2)) && canonical::jcs(
            CanonicalValueModel::Object(members2(k1, v1, k2, v2)),
        ) is Ok,
{
    members1_are(k1, v1);
    canonical::with_member_is(members1(k1, v1), k2, v2);
    if canonical::jcs(v1) is Ok && canonical::jcs(v2) is Ok {
        member_encodes(members1(k1, v1), k2, v2);
    }
    member_key_is_had(members1(k1, v1), seq![k1], k2, v2);
    assert(seq![k1].push(k2) =~= seq![k1, k2]);
}

/// An object's members, put in one by one.
pub open spec fn members3(
    k1: Seq<char>,
    v1: CanonicalValueModel,
    k2: Seq<char>,
    v2: CanonicalValueModel,
    k3: Seq<char>,
    v3: CanonicalValueModel,
) -> Seq<(Seq<char>, CanonicalValueModel)> {
    canonical::with_member(members2(k1, v1, k2, v2), k3, v3)
}

/// Members under different keys are all there, and no others.
pub proof fn members3_are(
    k1: Seq<char>,
    v1: CanonicalValueModel,
    k2: Seq<char>,
    v2: CanonicalValueModel,
    k3: Seq<char>,
    v3: CanonicalValueModel,
)
    requires
        k1 != k2,
        k1 != k3,
        k2 != k3,
    ensures
        canonical::members_in_order(members3(k1, v1, k2, v2, k3, v3)),
        members3(k1, v1, k2, v2, k3, v3).len() == 3,
        has_only(members3(k1, v1, k2, v2, k3, v3), seq![k1, k2, k3]),
        forall|k: Seq<char>| #[trigger] canonical::member(members3(k1, v1, k2, v2, k3, v3), k) == (if k == k1 {
            Some(v1)
        } else {
            (if k == k2 {
            Some(v2)
        } else {
            (if k == k3 {
            Some(v3)
        } else {
            None
        })
        })
        }),
        canonical::jcs(v1) is Ok && canonical::jcs(v2) is Ok && canonical::jcs(v3) is Ok ==> all_encode(members3(k1, v1, k2, v2, k3, v3)) && canonical::jcs(
            CanonicalValueModel::Object(members3(k1, v1, k2, v2, k3, v3)),
        ) is Ok,
{
    members2_are(k1, v1, k2, v2);
    canonical::with_member_is(members2(k1, v1, k2, v2), k3, v3);
    if canonical::jcs(v1) is Ok && canonical::jcs(v2) is Ok && canonical::jcs(v3) is Ok {
        member_encodes(members2(k1, v1, k2, v2), k3, v3);
    }
    member_key_is_had(members2(k1, v1, k2, v2), seq![k1, k2], k3, v3);
    assert(seq![k1, k2].push(k3) =~= seq![k1, k2, k3]);
}

/// An object's members, put in one by one.
pub open spec fn members4(
    k1: Seq<char>,
    v1: CanonicalValueModel,
    k2: Seq<char>,
    v2: CanonicalValueModel,
    k3: Seq<char>,
    v3: CanonicalValueModel,
    k4: Seq<char>,
    v4: CanonicalValueModel,
) -> Seq<(Seq<char>, CanonicalValueModel)> {
    canonical::with_member(members3(k1, v1, k2, v2, k3, v3), k4, v4)
}

/// Members under different keys are all there, and no others.
pub proof fn members4_are(
    k1: Seq<char>,
    v1: CanonicalValueModel,
    k2: Seq<char>,
    v2: CanonicalValueModel,
    k3: Seq<char>,
    v3: CanonicalValueModel,
    k4: Seq<char>,
    v4: CanonicalValueModel,
)
    requires
        k1 != k2,
        k1 != k3,
        k1 != k4,
        k2 != k3,
        k2 != k4,
        k3 != k4,
    ensures
        canonical::members_in_order(members4(k1, v1, k2, v2, k3, v3, k4, v4)),
        members4(k1, v1, k2, v2, k3, v3, k4, v4).len() == 4,
        has_only(members4(k1, v1, k2, v2, k3, v3, k4, v4), seq![k1, k2, k3, k4]),
        forall|k: Seq<char>| #[trigger] canonical::member(members4(k1, v1, k2, v2, k3, v3, k4, v4), k) == (if k == k1 {
            Some(v1)
        } else {
            (if k == k2 {
            Some(v2)
        } else {
            (if k == k3 {
            Some(v3)
        } else {
            (if k == k4 {
            Some(v4)
        } else {
            None
        })
        })
        })
        }),
        canonical::jcs(v1) is Ok && canonical::jcs(v2) is Ok && canonical::jcs(v3) is Ok && canonical::jcs(v4) is Ok ==> all_encode(members4(k1, v1, k2, v2, k3, v3, k4, v4)) && canonical::jcs(
            CanonicalValueModel::Object(members4(k1, v1, k2, v2, k3, v3, k4, v4)),
        ) is Ok,
{
    members3_are(k1, v1, k2, v2, k3, v3);
    canonical::with_member_is(members3(k1, v1, k2, v2, k3, v3), k4, v4);
    if canonical::jcs(v1) is Ok && canonical::jcs(v2) is Ok && canonical::jcs(v3) is Ok && canonical::jcs(v4) is Ok {
        member_encodes(members3(k1, v1, k2, v2, k3, v3), k4, v4);
    }
    member_key_is_had(members3(k1, v1, k2, v2, k3, v3), seq![k1, k2, k3], k4, v4);
    assert(seq![k1, k2, k3].push(k4) =~= seq![k1, k2, k3, k4]);
}

/// An object's members, put in one by one.
pub open spec fn members5(
    k1: Seq<char>,
    v1: CanonicalValueModel,
    k2: Seq<char>,
    v2: CanonicalValueModel,
    k3: Seq<char>,
    v3: CanonicalValueModel,
    k4: Seq<char>,
    v4: CanonicalValueModel,
    k5: Seq<char>,
    v5: CanonicalValueModel,
) -> Seq<(Seq<char>, CanonicalValueModel)> {
    canonical::with_member(members4(k1, v1, k2, v2, k3, v3, k4, v4), k5, v5)
}

/// Members under different keys are all there, and no others.
pub proof fn members5_are(
    k1: Seq<char>,
    v1: CanonicalValueModel,
    k2: Seq<char>,
    v2: CanonicalValueModel,
    k3: Seq<char>,
    v3: CanonicalValueModel,
    k4: Seq<char>,
    v4: CanonicalValueModel,
    k5: Seq<char>,
    v5: CanonicalValueModel,
)
    requires
        k1 != k2,
        k1 != k3,
        k1 != k4,
        k1 != k5,
        k2 != k3,
        k2 != k4,
        k2 != k5,
        k3 != k4,
        k3 != k5,
        k4 != k5,
    ensures
        canonical::members_in_order(members5(k1, v1, k2, v2, k3, v3, k4, v4, k5, v5)),
        members5(k1, v1, k2, v2, k3, v3, k4, v4, k5, v5).len() == 5,
        has_only(members5(k1, v1, k2, v2, k3, v3, k4, v4, k5, v5), seq![k1, k2, k3, k4, k5]),
        forall|k: Seq<char>| #[trigger] canonical::member(members5(k1, v1, k2, v2, k3, v3, k4, v4, k5, v5), k) == (if k == k1 {
            Some(v1)
        } else {
            (if k == k2 {
            Some(v2)
        } else {
            (if k == k3 {
            Some(v3)
        } else {
            (if k == k4 {
            Some(v4)
        } else {
            (if k == k5 {
            Some(v5)
        } else {
            None
        })
        })
        })
        })
        }),
        canonical::jcs(v1) is Ok && canonical::jcs(v2) is Ok && canonical::jcs(v3) is Ok && canonical::jcs(v4) is Ok && canonical::jcs(v5) is Ok ==> all_encode(members5(k1, v1, k2, v2, k3, v3, k4, v4, k5, v5)) && canonical::jcs(
            CanonicalValueModel::Object(members5(k1, v1, k2, v2, k3, v3, k4, v4, k5, v5)),
        ) is Ok,
{
    members4_are(k1, v1, k2, v2, k3, v3, k4, v4);
    canonical::with_member_is(members4(k1, v1, k2, v2, k3, v3, k4, v4), k5, v5);
    if canonical::jcs(v1) is Ok && canonical::jcs(v2) is Ok && canonical::jcs(v3) is Ok && canonical::jcs(v4) is Ok && canonical::jcs(v5) is Ok {
        member_encodes(members4(k1, v1, k2, v2, k3, v3, k4, v4), k5, v5);
    }
    member_key_is_had(members4(k1, v1, k2, v2, k3, v3, k4, v4), seq![k1, k2, k3, k4], k5, v5);
    assert(seq![k1, k2, k3, k4].push(k5) =~= seq![k1, k2, k3, k4, k5]);
}

/// Two objects in key order that hold the same are the same.
pub proof fn same_members(
    s: Seq<(Seq<char>, CanonicalValueModel)>,
    t: Seq<(Seq<char>, CanonicalValueModel)>,
)
    requires
        canonical::members_in_order(s),
        canonical::members_in_order(t),
        forall|k: Seq<char>| #[trigger] canonical::member(s, k) == canonical::member(t, k),
    ensures
        s == t,
{
    let dom = collections::as_map(s).dom();
    assert forall|k: Seq<char>| #[trigger] collections::firsts(s).contains(k) <==> dom.contains(k) by {}
    assert forall|k: Seq<char>| #[trigger] collections::firsts(t).contains(k) <==> dom.contains(k) by {
        assert(canonical::member(s, k) == canonical::member(t, k));
    }
    collections::lists_unique::<MemberKey>(collections::firsts(s), collections::firsts(t), dom);
    assert(s.len() == collections::firsts(s).len());
    assert(t.len() == collections::firsts(t).len());
    assert forall|i: int| 0 <= i < s.len() implies s[i] == t[i] by {
        let k = collections::firsts(s)[i];
        collections::in_order_index::<MemberKey>(collections::firsts(s), i);
        collections::in_order_index::<MemberKey>(collections::firsts(t), i);
        assert(canonical::member(s, k) == canonical::member(t, k));
        assert(s[i].0 == k);
        assert(t[i].0 == collections::firsts(t)[i]);
    }
    assert(s =~= t);
}

/// An object with one member is made of it.
pub proof fn only_member1(m: Seq<(Seq<char>, CanonicalValueModel)>, k1: Seq<char>)
    requires
        canonical::members_in_order(m),
        has_only(m, seq![k1]),
        canonical::member(m, k1) is Some,
    ensures
        m == members1(k1, canonical::member(m, k1)->0),
        m == seq![(k1, canonical::member(m, k1)->0)],
{
    members1_are(k1, canonical::member(m, k1)->0);
    let keys = seq![k1];
    has_only_is(m, keys);
    assert forall|k: Seq<char>| k != k1 implies #[trigger] canonical::member(m, k) is None by {
        if canonical::member(m, k) is Some {
            assert(keys.contains(k));
        }
    }
    same_members(m, members1(k1, canonical::member(m, k1)->0));
    assert(m =~= seq![(k1, canonical::member(m, k1)->0)]);
}

/// An object with two members is made of them.
pub proof fn only_members2(
    m: Seq<(Seq<char>, CanonicalValueModel)>,
    k1: Seq<char>,
    k2: Seq<char>,
)
    requires
        canonical::members_in_order(m),
        has_only(m, seq![k1, k2]),
        k1 != k2,
        canonical::member(m, k1) is Some,
        canonical::member(m, k2) is Some,
    ensures
        m == members2(k1, canonical::member(m, k1)->0, k2, canonical::member(m, k2)->0),
{
    members2_are(k1, canonical::member(m, k1)->0, k2, canonical::member(m, k2)->0);
    let keys = seq![k1, k2];
    has_only_is(m, keys);
    assert forall|k: Seq<char>| k != k1 && k != k2 implies #[trigger] canonical::member(m, k) is None by {
        if canonical::member(m, k) is Some {
            assert(keys.contains(k));
        }
    }
    same_members(m, members2(k1, canonical::member(m, k1)->0, k2, canonical::member(m, k2)->0));
}

/// An object with three members is made of them.
pub proof fn only_members3(
    m: Seq<(Seq<char>, CanonicalValueModel)>,
    k1: Seq<char>,
    k2: Seq<char>,
    k3: Seq<char>,
)
    requires
        canonical::members_in_order(m),
        has_only(m, seq![k1, k2, k3]),
        k1 != k2,
        k1 != k3,
        k2 != k3,
        canonical::member(m, k1) is Some,
        canonical::member(m, k2) is Some,
        canonical::member(m, k3) is Some,
    ensures
        m == members3(k1, canonical::member(m, k1)->0, k2, canonical::member(m, k2)->0, k3, canonical::member(m, k3)->0),
{
    members3_are(k1, canonical::member(m, k1)->0, k2, canonical::member(m, k2)->0, k3, canonical::member(m, k3)->0);
    let keys = seq![k1, k2, k3];
    has_only_is(m, keys);
    assert forall|k: Seq<char>| k != k1 && k != k2 && k != k3 implies #[trigger] canonical::member(m, k) is None by {
        if canonical::member(m, k) is Some {
            assert(keys.contains(k));
        }
    }
    same_members(m, members3(k1, canonical::member(m, k1)->0, k2, canonical::member(m, k2)->0, k3, canonical::member(m, k3)->0));
}

/// Whether a count fits a JSON number.
pub open spec fn is_safe(n: u64) -> bool {
    -MAX_SAFE_INTEGER <= (n as i64) <= MAX_SAFE_INTEGER
}

/// A count as a JSON number.
pub open spec fn count_form(n: u64) -> CanonicalValueModel {
    CanonicalValueModel::Int(n as i64)
}

/// A text under a key.
pub open spec fn text_member(m: Seq<(Seq<char>, CanonicalValueModel)>, k: Seq<char>) -> Option<
    Seq<char>,
> {
    match canonical::member(m, k) {
        Some(CanonicalValueModel::String(s)) => Some(s),
        _ => None,
    }
}

/// What is wrong where a text is missing under a key.
pub open spec fn text_fault(k: Seq<char>) -> Seq<char> {
    keyed("missing string"@, k)
}

/// What is wrong where nothing stands under a key.
pub open spec fn missing_fault(k: Seq<char>) -> Seq<char> {
    keyed("missing"@, k)
}

/// An integer under a key, as far as a JSON number carries it exactly.
pub open spec fn int_member(m: Seq<(Seq<char>, CanonicalValueModel)>, k: Seq<char>) -> Option<
    i64,
> {
    match canonical::member(m, k) {
        Some(CanonicalValueModel::Int(i)) if -MAX_SAFE_INTEGER <= i <= MAX_SAFE_INTEGER => Some(i),
        _ => None,
    }
}

/// What is wrong with a count under a key that cannot be read, where
/// `bad` names an integer that is no such count.
pub open spec fn count_fault(
    m: Seq<(Seq<char>, CanonicalValueModel)>,
    k: Seq<char>,
    bad: Seq<char>,
) -> Seq<char> {
    if int_member(m, k) is None {
        keyed("missing JCS-safe integer"@, k)
    } else {
        bad
    }
}

/// What is wrong with a content address under a key that cannot be read.
pub open spec fn hash_fault(
    m: Seq<(Seq<char>, CanonicalValueModel)>,
    k: Seq<char>,
    bad: Seq<char>,
) -> Seq<char> {
    if text_member(m, k) is None {
        text_fault(k)
    } else {
        bad
    }
}

/// A count under a key, as far as a JSON number carries it exactly.
pub open spec fn count_member(m: Seq<(Seq<char>, CanonicalValueModel)>, k: Seq<char>) -> Option<
    u64,
> {
    match canonical::member(m, k) {
        Some(CanonicalValueModel::Int(i)) if 0 <= i <= MAX_SAFE_INTEGER => Some(i as u64),
        _ => None,
    }
}

/// A 32-bit version under a key.
pub open spec fn version_member(m: Seq<(Seq<char>, CanonicalValueModel)>, k: Seq<char>) -> Option<
    u32,
> {
    match count_member(m, k) {
        Some(n) if n <= u32::MAX => Some(n as u32),
        _ => None,
    }
}

/// A content address under a key.
pub open spec fn hash_member(m: Seq<(Seq<char>, CanonicalValueModel)>, k: Seq<char>) -> Option<
    Seq<u8>,
> {
    match text_member(m, k) {
        Some(t) => canonical::hash_of_text(t),
        None => None,
    }
}

pub fn get_str(m: &Members, key: &str) -> (r: Result<String, RecordDecodeError>)
    ensures
        match r {
            Ok(s) => text_member(m@, key@) == Some(s@),
            Err(e) => text_member(m@, key@) is None && e.0@ == text_fault(key@),
        },
{
    match m.get(key) {
        Some(CanonicalValue::String(s)) => Ok(s.clone()),
        _ => Err(malformed_key("missing string", key)),
    }
}

pub fn get_int(m: &Members, key: &str) -> (r: Result<i64, RecordDecodeError>)
    ensures
        match r {
            Ok(i) => int_member(m@, key@) == Some(i),
            Err(e) => int_member(m@, key@) is None && e.0@ == keyed(
                "missing JCS-safe integer"@,
                key@,
            ),
        },
{
    match m.get(key) {
        Some(CanonicalValue::Int(i)) => {
            if -MAX_SAFE_INTEGER <= *i && *i <= MAX_SAFE_INTEGER {
                Ok(*i)
            } else {
                Err(malformed_key("missing JCS-safe integer", key))
            }
        },
        _ => Err(malformed_key("missing JCS-safe integer", key)),
    }
}

pub fn get_count(m: &Members, key: &str, bad: &str) -> (r: Result<u64, RecordDecodeError>)
    ensures
        match r {
            Ok(n) => count_member(m@, key@) == Some(n) && int_member(m@, key@) is Some,
            Err(e) => count_member(m@, key@) is None && e.0@ == count_fault(m@, key@, bad@),
        },
{
    match get_int(m, key) {
        Ok(i) => {
            if 0 <= i {
                Ok(i as u64)
            } else {
                Err(malformed(bad))
            }
        },
        Err(e) => Err(e),
    }
}

pub fn get_version(m: &Members, key: &str) -> (r: Result<u32, RecordDecodeError>)
    ensures
        match r {
            Ok(n) => version_member(m@, key@) == Some(n),
            Err(e) => version_member(m@, key@) is None && e.0@ == count_fault(
                m@,
                key@,
                "bad version"@,
            ),
        },
{
    match get_count(m, key, "bad version") {
        Ok(n) => {
            if n <= u32::MAX as u64 {
                Ok(n as u32)
            } else {
                Err(malformed("bad version"))
            }
        },
        Err(e) => Err(e),
    }
}

pub fn get_hash(m: &Members, key: &str, bad: &str) -> (r: Result<ContentHash, RecordDecodeError>)
    ensures
        match r {
            Ok(h) => hash_member(m@, key@) == Some(h@),
            Err(e) => hash_member(m@, key@) is None && e.0@ == hash_fault(m@, key@, bad@),
        },
{
    match get_str(m, key) {
        Ok(t) => match ContentHash::from_str(t.as_str()) {
            Ok(h) => Ok(h),
            Err(_) => Err(malformed(bad)),
        },
        Err(e) => Err(e),
    }
}

pub fn get_member<'a>(m: &'a Members, key: &str) -> (r: Result<
    &'a CanonicalValue,
    RecordDecodeError,
>)
    ensures
        match r {
            Ok(v) => canonical::member(m@, key@) == Some(v@),
            Err(e) => canonical::member(m@, key@) is None && e.0@ == missing_fault(key@),
        },
{
    match m.get(key) {
        Some(v) => Ok(v),
        None => Err(malformed_key("missing", key)),
    }
}

/// A row path: an array of pairs of group and item.
pub open spec fn path_form(p: Seq<PathSegModel>) -> CanonicalValueModel {
    CanonicalValueModel::Array(Seq::new(p.len(), |i: int| segment_form(p[i])))
}

pub open spec fn segment_form(s: PathSegModel) -> CanonicalValueModel {
    CanonicalValueModel::Array(
        seq![CanonicalValueModel::String(s.group), CanonicalValueModel::String(s.item)],
    )
}

pub open spec fn segment_of(v: CanonicalValueModel) -> Option<PathSegModel> {
    match v {
        CanonicalValueModel::Array(a) => if a.len() == 2 {
            match (a[0], a[1]) {
                (CanonicalValueModel::String(group), CanonicalValueModel::String(item)) => Some(
                    PathSegModel { group, item },
                ),
                _ => None,
            }
        } else {
            None
        },
        _ => None,
    }
}

/// What a form of a row path spells, if it is one.
pub open spec fn path_of(v: CanonicalValueModel) -> Option<Seq<PathSegModel>> {
    match v {
        CanonicalValueModel::Array(a) => if forall|i: int|
            0 <= i < a.len() ==> segment_of(#[trigger] a[i]) is Some {
            Some(Seq::new(a.len(), |i: int| segment_of(a[i])->0))
        } else {
            None
        },
        _ => None,
    }
}

/// Which of some segments of a row path can be read.
pub open spec fn segments_read(a: Seq<CanonicalValueModel>) -> Seq<bool> {
    Seq::new(a.len(), |i: int| segment_of(a[i]) is Some)
}

pub open spec fn segment_fault(v: CanonicalValueModel) -> Seq<char> {
    if v is Array {
        "path segment must be [group, item]"@
    } else {
        "expected an array"@
    }
}

/// What is wrong with a value that is no row path's form.
pub open spec fn path_fault(v: CanonicalValueModel) -> Seq<char> {
    match v {
        CanonicalValueModel::Array(a) => segment_fault(a[first_unread(segments_read(a))]),
        _ => "expected an array"@,
    }
}

proof fn path_stops(v: CanonicalValueModel, i: int)
    requires
        v is Array,
        0 <= i < (v->Array_0).len(),
        segment_of((v->Array_0)[i]) is None,
        forall|j: int| 0 <= j < i ==> segment_of(#[trigger] (v->Array_0)[j]) is Some,
    ensures
        path_of(v) is None,
        path_fault(v) == segment_fault((v->Array_0)[i]),
{
    let a = v->Array_0;
    let read = segments_read(a);
    assert(!read[i]);
    assert forall|j: int| 0 <= j < i implies #[trigger] read[j] by {
        assert(segment_of(a[j]) is Some);
    }
    first_unread_is(read, i);
}

/// A row path reads back from its form, and only a path's own form reads
/// as that path.
pub proof fn path_reads_back(p: Seq<PathSegModel>, v: CanonicalValueModel)
    ensures
        path_of(path_form(p)) == Some(p),
        path_of(v) == Some(p) ==> v == path_form(p),
        canonical::jcs(path_form(p)) is Ok,
{
    let a = path_form(p)->Array_0;
    assert forall|i: int| 0 <= i < a.len() implies segment_of(#[trigger] a[i]) == Some(
        p[i],
    ) && canonical::jcs(a[i]) is Ok by {
        let s = seq![
            CanonicalValueModel::String(p[i].group),
            CanonicalValueModel::String(p[i].item),
        ];
        assert(a[i] == CanonicalValueModel::Array(s));
        items_encode(s);
    }
    assert(path_of(path_form(p))->0 =~= p);
    items_encode(a);
    if path_of(v) == Some(p) {
        let b = v->Array_0;
        assert forall|i: int| 0 <= i < b.len() implies #[trigger] b[i] == a[i] by {
            assert(segment_of(b[i]) == Some(p[i]));
            let s = b[i]->Array_0;
            assert(s =~= seq![
                CanonicalValueModel::String(p[i].group),
                CanonicalValueModel::String(p[i].item),
            ]);
        }
        assert(b =~= a);
    }
}

pub fn path_canonical(p: &RowPath) -> (r: CanonicalValue)
    ensures
        r@ == path_form(p@),
{
    let segments = p.segments();
    let mut items: Vec<CanonicalValue> = Vec::new();
    let mut i: usize = 0;
    while i < segments.len()
        invariant
            i <= segments@.len(),
            order::models(segments@) == p@,
            items@.len() == i,
            forall|j: int| 0 <= j < i ==> canonical::value_model(#[trigger] items@[j]) == segment_form(p@[j]),
        decreases segments@.len() - i,
    {
        let seg = &segments[i];
        let mut pair: Vec<CanonicalValue> = Vec::new();
        pair.push(CanonicalValue::String(seg.group.to_string()));
        pair.push(CanonicalValue::String(seg.item.to_string()));
        proof {
            assert(p@[i as int] == seg@);
            assert(canonical::items_model(pair@) =~= seq![
                CanonicalValueModel::String(seg@.group),
                CanonicalValueModel::String(seg@.item),
            ]);
        }
        items.push(CanonicalValue::Array(pair));
        i += 1;
    }
    assert(canonical::items_model(items@) =~= path_form(p@)->Array_0);
    CanonicalValue::Array(items)
}

pub fn path_from(v: &CanonicalValue) -> (r: Result<RowPath, RecordDecodeError>)
    ensures
        match r {
            Ok(p) => path_of(v@) == Some(p@),
            Err(e) => path_of(v@) is None && e.0@ == path_fault(v@),
        },
{
    match v {
        CanonicalValue::Array(segments) => {
            let mut path = RowPath::root();
            let ghost a = v@->Array_0;
            assert(a == canonical::items_model(segments@));
            let mut i: usize = 0;
            while i < segments.len()
                invariant
                    i <= segments@.len(),
                    a == canonical::items_model(segments@),
                    v@ == CanonicalValueModel::Array(a),
                    path@.len() == i,
                    forall|j: int|
                        0 <= j < i ==> segment_of(#[trigger] a[j]) == Some(path@[j]),
                decreases segments@.len() - i,
            {
                let ghost before = path@;
                assert(a[i as int] == canonical::value_model(segments@[i as int]));
                let pair = match &segments[i] {
                    CanonicalValue::Array(pair) => pair,
                    _ => {
                        proof {
                            path_stops(v@, i as int);
                        }
                        return Err(malformed("expected an array"));
                    },
                };
                if pair.len() != 2 {
                    proof {
                        path_stops(v@, i as int);
                    }
                    return Err(malformed("path segment must be [group, item]"));
                }
                assert(canonical::items_model(pair@)[0] == canonical::value_model(pair@[0]));
                assert(canonical::items_model(pair@)[1] == canonical::value_model(pair@[1]));
                match (&pair[0], &pair[1]) {
                    (CanonicalValue::String(group), CanonicalValue::String(item)) => {
                        let seg = PathSeg {
                            group: GroupId::new(group.as_str()),
                            item: ItemId::new(item.as_str()),
                        };
                        let ghost s = seg@;
                        path = path.child(seg);
                        proof {
                            assert(segment_of(a[i as int]) == Some(s));
                            assert forall|j: int| 0 <= j < i + 1 implies segment_of(
                                #[trigger] a[j],
                            ) == Some(path@[j]) by {
                                if j < i {
                                    assert(path@[j] == before[j]);
                                }
                            }
                        }
                    },
                    _ => {
                        proof {
                            path_stops(v@, i as int);
                        }
                        return Err(malformed("path segment must be [group, item]"));
                    },
                }
                i += 1;
            }
            assert(path_of(v@)->0 =~= path@);
            Ok(path)
        },
        _ => Err(malformed("expected an array")),
    }
}

/// An object with one member.
pub open spec fn tagged(tag: Seq<char>, v: CanonicalValueModel) -> CanonicalValueModel {
    CanonicalValueModel::Object(seq![(tag, v)])
}

/// The one member of an object that has no other.
pub open spec fn tag_of(v: CanonicalValueModel) -> Option<(Seq<char>, CanonicalValueModel)> {
    match v {
        CanonicalValueModel::Object(m) => if m.len() == 1 {
            Some(m[0])
        } else {
            None
        },
        _ => None,
    }
}

/// An object with one member keeps it, and has a canonical text where
/// the member's value has one.
pub proof fn tagged_reads_back(tag: Seq<char>, v: CanonicalValueModel, w: CanonicalValueModel)
    ensures
        tag_of(tagged(tag, v)) == Some((tag, v)),
        tag_of(w) == Some((tag, v)) ==> w == tagged(tag, v),
        canonical::jcs(v) is Ok ==> canonical::jcs(tagged(tag, v)) is Ok,
{
    if canonical::jcs(v) is Ok {
        members_encode(seq![(tag, v)]);
    }
    if tag_of(w) == Some((tag, v)) {
        assert(w->Object_0 =~= seq![(tag, v)]);
    }
}

pub fn tagged_value(tag: &str, v: CanonicalValue) -> (r: CanonicalValue)
    ensures
        r@ == tagged(tag@, v@),
        canonical::jcs(v@) is Ok ==> canonical::jcs(r@) is Ok,
{
    let mut m = Members::new();
    let ghost value = v@;
    put(&mut m, tag, v);
    proof {
        canonical::with_member_is(no_members(), tag@, value);
        assert(m@ =~= seq![(tag@, value)]);
        tagged_reads_back(tag@, value, value);
    }
    CanonicalValue::Object(m)
}

/// What is wrong with a value that is no object with one member.
pub open spec fn tag_fault(v: CanonicalValueModel, what: Seq<char>) -> Seq<char> {
    match v {
        CanonicalValueModel::Object(m) => if m.len() == 0 {
            "empty "@ + what
        } else {
            what + " must have exactly one key"@
        },
        _ => "expected an object"@,
    }
}

/// The one member of an object that has no other; `what` names the object.
pub fn single_key<'a>(v: &'a CanonicalValue, what: &str) -> (r: Result<
    (&'a str, &'a CanonicalValue),
    RecordDecodeError,
>)
    ensures
        match r {
            Ok(p) => tag_of(v@) == Some((p.0@, p.1@)),
            Err(e) => tag_of(v@) is None && e.0@ == tag_fault(v@, what@),
        },
{
    match v {
        CanonicalValue::Object(m) => {
            if m.len() == 1 {
                Ok((m.key_at(0), m.value_at(0)))
            } else if m.len() == 0 {
                Err(RecordDecodeError(joined("empty ", what)))
            } else {
                Err(RecordDecodeError(joined(what, " must have exactly one key")))
            }
        },
        _ => Err(malformed("expected an object")),
    }
}

/// The keys of an attachment.
pub open spec fn attachment_keys() -> Seq<Seq<char>> {
    seq!["id"@, "hash"@, "filename"@, "content_type"@, "byte_size"@]
}

pub open spec fn attachment_members(a: AttachmentRefModel) -> Seq<
    (Seq<char>, CanonicalValueModel),
> {
    members5(
        "id"@,
        CanonicalValueModel::String(a.id),
        "hash"@,
        CanonicalValueModel::String(canonical::hash_text(a.hash)),
        "filename"@,
        CanonicalValueModel::String(a.filename),
        "content_type"@,
        CanonicalValueModel::String(a.content_type),
        "byte_size"@,
        count_form(a.byte_size),
    )
}

/// What an attachment's members spell, if they are exactly its members.
pub open spec fn attachment_of(v: CanonicalValueModel) -> Option<AttachmentRefModel> {
    match v {
        CanonicalValueModel::Object(m) => match (
            text_member(m, "id"@),
            hash_member(m, "hash"@),
            text_member(m, "filename"@),
            text_member(m, "content_type"@),
            count_member(m, "byte_size"@),
        ) {
            (Some(id), Some(hash), Some(filename), Some(content_type), Some(byte_size)) => if has_only(
                m,
                attachment_keys(),
            ) {
                Some(AttachmentRefModel { id, hash, filename, content_type, byte_size })
            } else {
                None
            },
            _ => None,
        },
        _ => None,
    }
}

/// What is wrong with a value that is no attachment's form.
pub open spec fn attachment_fault(v: CanonicalValueModel) -> Seq<char> {
    match v {
        CanonicalValueModel::Object(m) => if !has_only(m, attachment_keys()) {
            extra_fault(m, attachment_keys())
        } else if text_member(m, "id"@) is None {
            text_fault("id"@)
        } else if hash_member(m, "hash"@) is None {
            hash_fault(m, "hash"@, "bad content hash"@)
        } else if text_member(m, "filename"@) is None {
            text_fault("filename"@)
        } else if text_member(m, "content_type"@) is None {
            text_fault("content_type"@)
        } else {
            count_fault(m, "byte_size"@, "bad byte_size"@)
        },
        _ => "expected an object"@,
    }
}

proof fn attachment_reads_back(a: AttachmentRefModel)
    requires
        a.hash.len() == 32,
    ensures
        a.byte_size <= MAX_SAFE_INTEGER ==> attachment_of(
            CanonicalValueModel::Object(attachment_members(a)),
        ) == Some(a),
        is_safe(a.byte_size) ==> canonical::jcs(CanonicalValueModel::Object(attachment_members(a))) is Ok,
{
    reveal_strlit("id");
    reveal_strlit("hash");
    reveal_strlit("filename");
    reveal_strlit("content_type");
    reveal_strlit("byte_size");
    assert("id"@.len() == 2);
    assert("hash"@.len() == 4);
    assert("filename"@.len() == 8);
    assert("content_type"@.len() == 12);
    assert("byte_size"@.len() == 9);
    canonical::hash_text_reads_back(a.hash, a.id);
    members5_are(
        "id"@,
        CanonicalValueModel::String(a.id),
        "hash"@,
        CanonicalValueModel::String(canonical::hash_text(a.hash)),
        "filename"@,
        CanonicalValueModel::String(a.filename),
        "content_type"@,
        CanonicalValueModel::String(a.content_type),
        "byte_size"@,
        count_form(a.byte_size),
    );
}

/// The form of a scalar: one member that names its kind.
pub open spec fn scalar_form(s: ScalarModel) -> CanonicalValueModel {
    match s {
        ScalarModel::Text(t) => tagged("text"@, CanonicalValueModel::String(t)),
        ScalarModel::Boolean(b) => tagged("boolean"@, CanonicalValueModel::Bool(b)),
        ScalarModel::Integer(i) => tagged(
            "integer"@,
            CanonicalValueModel::String(canonical::int_text(i as int)),
        ),
        ScalarModel::Decimal(d) => tagged("decimal"@, CanonicalValueModel::String(decimal::rendered(d))),
        ScalarModel::Date(d) => tagged("date"@, CanonicalValueModel::String(d.text())),
        ScalarModel::Datetime(t) => tagged(
            "datetime"@,
            CanonicalValueModel::String(time::timestamp_text(t)),
        ),
        ScalarModel::Enum(o) => tagged("option"@, CanonicalValueModel::String(o)),
        ScalarModel::Attachment(a) => tagged(
            "attachment"@,
            CanonicalValueModel::Object(attachment_members(a)),
        ),
        ScalarModel::Geometry(g) => tagged("geometry"@, g),
    }
}

/// What the text of one kind of scalar spells.
pub open spec fn scalar_of_text(kind: Seq<char>, t: Seq<char>) -> Option<ScalarModel> {
    if kind == "text"@ {
        Some(ScalarModel::Text(t))
    } else if kind == "integer"@ {
        match text::integer_of(t) {
            Some(i) if canonical::int_text(i) == t => Some(ScalarModel::Integer(i as i64)),
            _ => None,
        }
    } else if kind == "decimal"@ {
        match decimal::parsed(t) {
            Ok(d) if decimal::rendered(d) == t => Some(ScalarModel::Decimal(d)),
            _ => None,
        }
    } else if kind == "date"@ {
        match time::parsed_date(t) {
            Ok(d) => Some(ScalarModel::Date(d)),
            Err(_) => None,
        }
    } else if kind == "datetime"@ {
        match time::instant_of(t) {
            Some(n) if time::timestamp_text(n) == t => Some(ScalarModel::Datetime(n)),
            _ => None,
        }
    } else if kind == "option"@ {
        Some(ScalarModel::Enum(t))
    } else {
        None
    }
}

/// Whether the scalars of a kind are spelled as texts.
pub open spec fn is_spelled(kind: Seq<char>) -> bool {
    kind == "text"@ || kind == "integer"@ || kind == "decimal"@ || kind == "date"@ || kind
        == "datetime"@ || kind == "option"@
}

/// What is wrong with a text that is no scalar of its kind.
pub open spec fn spelling_fault(kind: Seq<char>, t: Seq<char>) -> Seq<char> {
    if kind == "integer"@ {
        "integer must be a normalized decimal string"@
    } else if kind == "decimal"@ {
        match decimal::parsed(t) {
            Ok(_) => "decimal must be in normalized form"@,
            Err(e) => decimal::primitive_text(e),
        }
    } else if kind == "date"@ {
        decimal::primitive_text(time::parsed_date(t)->Err_0)
    } else {
        if time::instant_of(t) is Some {
            "datetime must be in normalized form"@
        } else {
            instant_fault()
        }
    }
}

/// What is wrong with a text that is no instant.
pub open spec fn instant_fault() -> Seq<char> {
    decimal::primitive_text(PrimitiveErrorModel::Malformed("expected RFC 3339 instant"@))
}

/// What is wrong with a value that is no scalar's form.
pub open spec fn scalar_fault(v: CanonicalValueModel) -> Seq<char> {
    match tag_of(v) {
        Some((kind, inner)) => if kind == "boolean"@ {
            "boolean must be a bool"@
        } else if kind == "attachment"@ {
            attachment_fault(inner)
        } else if kind == "geometry"@ {
            "geometry must be a GeoJSON Feature"@
        } else if is_spelled(kind) {
            match inner {
                CanonicalValueModel::String(t) => spelling_fault(kind, t),
                _ => "expected a string"@,
            }
        } else {
            keyed("unknown scalar kind"@, kind)
        },
        None => tag_fault(v, "scalar"@),
    }
}

/// The scalar that a value spells, if it is a scalar's form.
pub open spec fn scalar_of(v: CanonicalValueModel) -> Option<ScalarModel> {
    match tag_of(v) {
        Some((kind, inner)) => match inner {
            CanonicalValueModel::String(t) => scalar_of_text(kind, t),
            CanonicalValueModel::Bool(b) => if kind == "boolean"@ {
                Some(ScalarModel::Boolean(b))
            } else {
                None
            },
            _ => if kind == "attachment"@ {
                match attachment_of(inner) {
                    Some(a) => Some(ScalarModel::Attachment(a)),
                    None => None,
                }
            } else if kind == "geometry"@ && value::is_feature(inner) {
                Some(ScalarModel::Geometry(inner))
            } else {
                None
            },
        },
        None => None,
    }
}

/// Whether the scalar's counts fit JSON numbers.
pub open spec fn scalar_is_safe(s: ScalarModel) -> bool {
    s matches ScalarModel::Attachment(a) ==> is_safe(a.byte_size)
}

/// Whether the scalar's form spells it: all do, but a file too large for
/// a JSON number and the one decimal whose digits do not parse.
pub open spec fn scalar_is_readable(s: ScalarModel) -> bool {
    match s {
        ScalarModel::Attachment(a) => a.byte_size <= MAX_SAFE_INTEGER,
        ScalarModel::Decimal(d) => d.mantissa != i128::MIN,
        _ => true,
    }
}

/// What the types of a scalar's parts promise.
pub open spec fn scalar_is_valid(s: ScalarModel) -> bool {
    match s {
        ScalarModel::Decimal(d) => d.normal() && d.in_range(),
        ScalarModel::Date(d) => d.valid() && d.year <= MAX_YEAR,
        ScalarModel::Datetime(t) => time::instant_of(time::timestamp_text(t)) == Some(t),
        ScalarModel::Attachment(a) => a.hash.len() == 32,
        ScalarModel::Geometry(g) => value::is_feature(g),
        _ => true,
    }
}

/// Reading back the decimal text of an integer gives that integer.
pub proof fn integer_reads_back(i: int)
    requires
        i64::MIN <= i <= i64::MAX,
    ensures
        text::integer_of(canonical::int_text(i)) == Some(i),
{
    let n = if i < 0 {
        (-i) as nat
    } else {
        i as nat
    };
    text::digits_spell(n);
    let t = canonical::int_text(i);
    if i < 0 {
        assert(t.skip(1) =~= text::digits(n));
    } else {
        assert(text::is_digit(t[0]));
    }
}

proof fn scalar_kinds()
    ensures
        "text"@ != "boolean"@,
        "text"@ != "integer"@,
        "text"@ != "decimal"@,
        "text"@ != "date"@,
        "text"@ != "datetime"@,
        "text"@ != "option"@,
        "integer"@ != "decimal"@,
        "integer"@ != "date"@,
        "integer"@ != "datetime"@,
        "integer"@ != "option"@,
        "decimal"@ != "date"@,
        "decimal"@ != "datetime"@,
        "decimal"@ != "option"@,
        "date"@ != "datetime"@,
        "date"@ != "option"@,
        "datetime"@ != "option"@,
        "attachment"@ != "geometry"@,
        forall|k: Seq<char>|
            k == "boolean"@ || k == "attachment"@ || k == "geometry"@ ==> !(#[trigger] is_spelled(
                k,
            )),
        "boolean"@ != "attachment"@,
        "boolean"@ != "geometry"@,
{
    reveal_strlit("text");
    reveal_strlit("boolean");
    reveal_strlit("integer");
    reveal_strlit("decimal");
    reveal_strlit("date");
    reveal_strlit("datetime");
    reveal_strlit("option");
    reveal_strlit("attachment");
    reveal_strlit("geometry");
    assert("text"@.len() == 4);
    assert("boolean"@.len() == 7);
    assert("integer"@.len() == 7);
    assert("decimal"@.len() == 7);
    assert("date"@.len() == 4);
    assert("datetime"@.len() == 8);
    assert("option"@.len() == 6);
    assert("attachment"@.len() == 10);
    assert("geometry"@.len() == 8);
    assert("text"@[0] == 't');
    assert("boolean"@[0] == 'b');
    assert("integer"@[0] == 'i');
    assert("decimal"@[0] == 'd');
    assert("date"@[0] == 'd');
    assert("datetime"@[0] == 'd');
    assert("geometry"@[0] == 'g');
}

/// A scalar reads back from its form.
pub proof fn scalar_reads_back(s: ScalarModel)
    requires
        scalar_is_valid(s),
    ensures
        scalar_is_readable(s) ==> scalar_of(scalar_form(s)) == Some(s),
        scalar_is_safe(s) ==> canonical::jcs(scalar_form(s)) is Ok,
{
    scalar_kinds();
    let (kind, inner) = tag_of(scalar_form(s))->0;
    tagged_reads_back(kind, inner, inner);
    match s {
        ScalarModel::Integer(i) => {
            integer_reads_back(i as int);
        },
        ScalarModel::Decimal(d) => {
            if d.mantissa != i128::MIN {
                decimal::parse_of_rendered(d);
            }
        },
        ScalarModel::Date(d) => {
            time::date_text_reads_back(d);
        },
        ScalarModel::Attachment(a) => {
            attachment_reads_back(a);
        },
        ScalarModel::Geometry(g) => {
            assert(canonical::jcs(g) is Ok);
        },
        _ => {},
    }
}

fn attachment_canonical(a: &AttachmentRef) -> (r: CanonicalValue)
    ensures
        r@ == CanonicalValueModel::Object(attachment_members(a@)),
{
    let mut m = Members::new();
    put_text(&mut m, "id", a.id.as_str());
    put_text(&mut m, "hash", a.hash.to_string().as_str());
    put_text(&mut m, "filename", a.filename.as_str());
    put_text(&mut m, "content_type", a.content_type.as_str());
    put(&mut m, "byte_size", CanonicalValue::Int(a.byte_size as i64));
    CanonicalValue::Object(m)
}

fn integer_text(i: i64) -> (r: String)
    ensures
        r@ == canonical::int_text(i as int),
{
    let mut out: Vec<char> = Vec::new();
    push_int(&mut out, i);
    let r = text_of(&out);
    assert(r@ =~= canonical::int_text(i as int));
    r
}

/// The form of a scalar, which reads back as the scalar.
pub fn scalar_canonical(s: &Scalar) -> (r: CanonicalValue)
    ensures
        r@ == scalar_form(s@),
        scalar_is_valid(s@),
        scalar_is_safe(s@) ==> canonical::jcs(r@) is Ok,
        scalar_is_readable(s@) ==> scalar_of(r@) == Some(s@),
{
    let r = match s {
        Scalar::Text(t) => tagged_value("text", CanonicalValue::String(t.clone())),
        Scalar::Boolean(b) => tagged_value("boolean", CanonicalValue::Bool(*b)),
        Scalar::Integer(i) => tagged_value("integer", CanonicalValue::String(integer_text(*i))),
        Scalar::Decimal(d) => {
            d.facts();
            tagged_value("decimal", CanonicalValue::String(d.to_string()))
        },
        Scalar::Date(d) => {
            d.facts();
            tagged_value("date", CanonicalValue::String(d.to_string()))
        },
        Scalar::Datetime(t) => tagged_value("datetime", CanonicalValue::String(t.to_string())),
        Scalar::Enum(o) => tagged_value("option", CanonicalValue::String(o.to_string())),
        Scalar::Attachment(a) => tagged_value("attachment", attachment_canonical(a)),
        Scalar::Geometry(f) => {
            f.facts();
            tagged_value("geometry", f.to_canonical().clone())
        },
    };
    proof {
        scalar_reads_back(s@);
    }
    r
}

fn attachment_from(v: &CanonicalValue) -> (r: Result<AttachmentRef, RecordDecodeError>)
    ensures
        match r {
            Ok(a) => attachment_of(v@) == Some(a@),
            Err(e) => attachment_of(v@) is None && e.0@ == attachment_fault(v@),
        },
{
    let m = match v {
        CanonicalValue::Object(m) => m,
        _ => {
            return Err(malformed("expected an object"));
        },
    };
    let keys: [&str; 5] = ["id", "hash", "filename", "content_type", "byte_size"];
    assert(texts_at(keys@) =~= attachment_keys());
    if let Err(e) = only_keys(m, &keys) {
        return Err(e);
    }
    let id = match get_str(m, "id") {
        Ok(x) => x,
        Err(e) => {
            return Err(e);
        },
    };
    let hash = match get_hash(m, "hash", "bad content hash") {
        Ok(x) => x,
        Err(e) => {
            return Err(e);
        },
    };
    let filename = match get_str(m, "filename") {
        Ok(x) => x,
        Err(e) => {
            return Err(e);
        },
    };
    let content_type = match get_str(m, "content_type") {
        Ok(x) => x,
        Err(e) => {
            return Err(e);
        },
    };
    let byte_size = match get_count(m, "byte_size", "bad byte_size") {
        Ok(x) => x,
        Err(e) => {
            return Err(e);
        },
    };
    Ok(AttachmentRef { id, hash, filename, content_type, byte_size })
}

fn scalar_from_text(kind: &str, t: &String) -> (r: Result<Scalar, RecordDecodeError>)
    requires
        is_spelled(kind@),
    ensures
        match r {
            Ok(s) => scalar_of_text(kind@, t@) == Some(s@),
            Err(e) => scalar_of_text(kind@, t@) is None && e.0@ == spelling_fault(kind@, t@),
        },
{
    proof {
        scalar_kinds();
    }
    if same_text(kind, "text") {
        Ok(Scalar::Text(t.clone()))
    } else if same_text(kind, "integer") {
        match parse_integer(t.as_str()) {
            Some(i) => {
                if same_text(integer_text(i).as_str(), t.as_str()) {
                    Ok(Scalar::Integer(i))
                } else {
                    Err(malformed("integer must be a normalized decimal string"))
                }
            },
            None => Err(malformed("integer must be a normalized decimal string")),
        }
    } else if same_text(kind, "decimal") {
        match Decimal::parse(t.as_str()) {
            Ok(d) => {
                if same_text(d.to_string().as_str(), t.as_str()) {
                    Ok(Scalar::Decimal(d))
                } else {
                    Err(malformed("decimal must be in normalized form"))
                }
            },
            Err(e) => Err(unreadable(e)),
        }
    } else if same_text(kind, "date") {
        match Date::parse(t.as_str()) {
            Ok(d) => Ok(Scalar::Date(d)),
            Err(e) => Err(unreadable(e)),
        }
    } else if same_text(kind, "datetime") {
        match Instant::parse(t.as_str()) {
            Ok(i) => {
                if same_text(i.to_string().as_str(), t.as_str()) {
                    Ok(Scalar::Datetime(i))
                } else {
                    Err(malformed("datetime must be in normalized form"))
                }
            },
            Err(e) => Err(unreadable(e)),
        }
    } else {
        Ok(Scalar::Enum(OptionId::new(t.as_str())))
    }
}

/// The error of a primitive that could not be read.
pub fn unreadable(e: PrimitiveError) -> (r: RecordDecodeError)
    ensures
        r.0@ == decimal::primitive_text(e@),
{
    RecordDecodeError(e.to_string())
}

fn spells(kind: &str) -> (r: bool)
    ensures
        r == is_spelled(kind@),
{
    same_text(kind, "text") || same_text(kind, "integer") || same_text(kind, "decimal")
        || same_text(kind, "date") || same_text(kind, "datetime") || same_text(kind, "option")
}

/// Reads a scalar strictly: one value, one spelling.
pub fn scalar_from(v: &CanonicalValue) -> (r: Result<Scalar, RecordDecodeError>)
    ensures
        match r {
            Ok(s) => scalar_of(v@) == Some(s@),
            Err(e) => scalar_of(v@) is None && e.0@ == scalar_fault(v@),
        },
{
    let (kind, inner) = match single_key(v, "scalar") {
        Ok(p) => p,
        Err(e) => {
            return Err(e);
        },
    };
    proof {
        scalar_kinds();
        assert("boolean"@ == kind@ ==> !is_spelled("boolean"@));
        assert("attachment"@ == kind@ ==> !is_spelled("attachment"@));
        assert("geometry"@ == kind@ ==> !is_spelled("geometry"@));
    }
    if same_text(kind, "boolean") {
        match inner {
            CanonicalValue::Bool(b) => Ok(Scalar::Boolean(*b)),
            _ => Err(malformed("boolean must be a bool")),
        }
    } else if same_text(kind, "attachment") {
        match attachment_from(inner) {
            Ok(a) => Ok(Scalar::Attachment(Box::new(a))),
            Err(e) => Err(e),
        }
    } else if same_text(kind, "geometry") {
        match Feature::from_canonical(inner) {
            Ok(f) => Ok(Scalar::Geometry(Box::new(f))),
            Err(_) => Err(malformed("geometry must be a GeoJSON Feature")),
        }
    } else if spells(kind) {
        match inner {
            CanonicalValue::String(t) => scalar_from_text(kind, t),
            _ => Err(malformed("expected a string")),
        }
    } else {
        Err(malformed_key("unknown scalar kind", kind))
    }
}

/// The form of a cell's state: null, a scalar, or an array of scalars.
pub open spec fn state_form(s: CellStateModel) -> CanonicalValueModel {
    match s {
        CellStateModel::Empty => CanonicalValueModel::Null,
        CellStateModel::Value(CellValueModel::One(v)) => scalar_form(v),
        CellStateModel::Value(CellValueModel::Many(vs)) => CanonicalValueModel::Array(
            Seq::new(vs.len(), |i: int| scalar_form(vs[i])),
        ),
    }
}

/// The state that a value spells, if it is a state's form.
pub open spec fn state_of(v: CanonicalValueModel) -> Option<CellStateModel> {
    match v {
        CanonicalValueModel::Null => Some(CellStateModel::Empty),
        CanonicalValueModel::Object(_) => match scalar_of(v) {
            Some(s) => Some(CellStateModel::Value(CellValueModel::One(s))),
            None => None,
        },
        CanonicalValueModel::Array(a) => if a.len() > 0 && forall|i: int|
            0 <= i < a.len() ==> scalar_of(#[trigger] a[i]) is Some {
            Some(
                CellStateModel::Value(
                    CellValueModel::Many(Seq::new(a.len(), |i: int| scalar_of(a[i])->0)),
                ),
            )
        } else {
            None
        },
        _ => None,
    }
}

/// Which of some values spell scalars.
pub open spec fn scalars_read(a: Seq<CanonicalValueModel>) -> Seq<bool> {
    Seq::new(a.len(), |i: int| scalar_of(a[i]) is Some)
}

/// What is wrong with a value that is no state's form.
pub open spec fn state_fault(v: CanonicalValueModel) -> Seq<char> {
    match v {
        CanonicalValueModel::Object(_) => scalar_fault(v),
        CanonicalValueModel::Array(a) => if a.len() == 0 {
            "a zero-length list is not a value — use null"@
        } else {
            scalar_fault(a[first_unread(scalars_read(a))])
        },
        _ => "a cell state is null, a scalar object, or an array of scalar objects"@,
    }
}

proof fn state_stops(v: CanonicalValueModel, i: int)
    requires
        v is Array,
        0 <= i < (v->Array_0).len(),
        scalar_of((v->Array_0)[i]) is None,
        forall|j: int| 0 <= j < i ==> scalar_of(#[trigger] (v->Array_0)[j]) is Some,
    ensures
        state_of(v) is None,
        state_fault(v) == scalar_fault((v->Array_0)[i]),
{
    let a = v->Array_0;
    let read = scalars_read(a);
    assert(!read[i]);
    assert forall|j: int| 0 <= j < i implies #[trigger] read[j] by {
        assert(scalar_of(a[j]) is Some);
    }
    first_unread_is(read, i);
}

/// Whether the state's counts fit JSON numbers.
pub open spec fn state_is_safe(s: CellStateModel) -> bool {
    match s {
        CellStateModel::Empty => true,
        CellStateModel::Value(CellValueModel::One(v)) => scalar_is_safe(v),
        CellStateModel::Value(CellValueModel::Many(vs)) => forall|i: int|
            0 <= i < vs.len() ==> scalar_is_safe(#[trigger] vs[i]),
    }
}

/// Whether the state's form spells it.
pub open spec fn state_is_readable(s: CellStateModel) -> bool {
    match s {
        CellStateModel::Empty => true,
        CellStateModel::Value(CellValueModel::One(v)) => scalar_is_readable(v),
        CellStateModel::Value(CellValueModel::Many(vs)) => vs.len() > 0 && forall|i: int|
            0 <= i < vs.len() ==> scalar_is_readable(#[trigger] vs[i]),
    }
}

/// What the types of a state's parts promise.
pub open spec fn state_is_valid(s: CellStateModel) -> bool {
    match s {
        CellStateModel::Empty => true,
        CellStateModel::Value(CellValueModel::One(v)) => scalar_is_valid(v),
        CellStateModel::Value(CellValueModel::Many(vs)) => forall|i: int|
            0 <= i < vs.len() ==> scalar_is_valid(#[trigger] vs[i]),
    }
}

/// A state reads back from its form.
pub proof fn state_reads_back(s: CellStateModel)
    requires
        state_is_valid(s),
    ensures
        state_is_readable(s) ==> state_of(state_form(s)) == Some(s),
        state_is_safe(s) ==> canonical::jcs(state_form(s)) is Ok,
{
    match s {
        CellStateModel::Empty => {},
        CellStateModel::Value(CellValueModel::One(v)) => {
            scalar_reads_back(v);
        },
        CellStateModel::Value(CellValueModel::Many(vs)) => {
            let a = state_form(s)->Array_0;
            assert forall|i: int| 0 <= i < a.len() implies (scalar_is_readable(vs[i])
                ==> scalar_of(#[trigger] a[i]) == Some(vs[i])) && (scalar_is_safe(vs[i]) ==> canonical::jcs(
                a[i],
            ) is Ok) by {
                scalar_reads_back(vs[i]);
            }
            if state_is_safe(s) {
                items_encode(a);
            }
            if state_is_readable(s) {
                assert(Seq::new(a.len(), |i: int| scalar_of(a[i])->0) =~= vs);
            }
        },
    }
}

/// The form of a state, which reads back as the state.
pub fn state_canonical(s: &CellState) -> (r: CanonicalValue)
    ensures
        r@ == state_form(s@),
        state_is_valid(s@),
        state_is_safe(s@) ==> canonical::jcs(r@) is Ok,
        state_is_readable(s@) ==> state_of(r@) == Some(s@),
{
    let r = match s {
        CellState::Empty => CanonicalValue::Null,
        CellState::Value(CellValue::One(v)) => scalar_canonical(v),
        CellState::Value(CellValue::Many(vs)) => {
            let ghost m = vs.deep_view();
            let mut items: Vec<CanonicalValue> = Vec::new();
            let mut i: usize = 0;
            while i < vs.len()
                invariant
                    i <= vs@.len(),
                    m == vs.deep_view(),
                    items@.len() == i,
                    forall|j: int|
                        0 <= j < i ==> canonical::value_model(#[trigger] items@[j]) == scalar_form(m[j]),
                    forall|j: int| 0 <= j < i ==> scalar_is_valid(#[trigger] m[j]),
                decreases vs@.len() - i,
            {
                assert(m[i as int] == vs@[i as int].deep_view());
                items.push(scalar_canonical(&vs[i]));
                i += 1;
            }
            assert(canonical::items_model(items@) =~= state_form(s@)->Array_0);
            CanonicalValue::Array(items)
        },
    };
    proof {
        state_reads_back(s@);
    }
    r
}

/// Reads a state strictly.
pub fn state_from(v: &CanonicalValue) -> (r: Result<CellState, RecordDecodeError>)
    ensures
        match r {
            Ok(s) => state_of(v@) == Some(s@),
            Err(e) => state_of(v@) is None && e.0@ == state_fault(v@),
        },
{
    match v {
        CanonicalValue::Null => Ok(CellState::Empty),
        CanonicalValue::Object(_) => match scalar_from(v) {
            Ok(s) => Ok(CellState::Value(CellValue::One(s))),
            Err(e) => Err(e),
        },
        CanonicalValue::Array(list) => {
            if list.len() == 0 {
                return Err(malformed("a zero-length list is not a value — use null"));
            }
            let ghost a = v@->Array_0;
            let mut scalars: Vec<Scalar> = Vec::new();
            let mut i: usize = 0;
            while i < list.len()
                invariant
                    i <= list@.len(),
                    a == canonical::items_model(list@),
                    v@ == CanonicalValueModel::Array(a),
                    scalars@.len() == i,
                    forall|j: int|
                        0 <= j < i ==> scalar_of(#[trigger] a[j]) == Some(
                            scalars.deep_view()[j],
                        ),
                decreases list@.len() - i,
            {
                assert(a[i as int] == canonical::value_model(list@[i as int]));
                let ghost before = scalars.deep_view();
                match scalar_from(&list[i]) {
                    Ok(s) => {
                        scalars.push(s);
                        assert forall|j: int| 0 <= j < i implies scalars.deep_view()[j]
                            == before[j] by {}
                    },
                    Err(e) => {
                        proof {
                            state_stops(v@, i as int);
                        }
                        return Err(e);
                    },
                }
                i += 1;
            }
            assert(Seq::new(a.len(), |i: int| scalar_of(a[i])->0) =~= scalars.deep_view());
            Ok(CellState::Value(CellValue::Many(scalars)))
        },
        _ => Err(
            malformed("a cell state is null, a scalar object, or an array of scalar objects"),
        ),
    }
}

/// An array of texts.
pub open spec fn texts_form(texts: Seq<Seq<char>>) -> CanonicalValueModel {
    CanonicalValueModel::Array(
        Seq::new(texts.len(), |i: int| CanonicalValueModel::String(texts[i])),
    )
}

/// The texts of an array that holds nothing else.
pub open spec fn texts_of(v: CanonicalValueModel) -> Option<Seq<Seq<char>>> {
    match v {
        CanonicalValueModel::Array(a) => if forall|i: int|
            0 <= i < a.len() ==> (#[trigger] a[i]) is String {
            Some(Seq::new(a.len(), |i: int| a[i]->String_0))
        } else {
            None
        },
        _ => None,
    }
}

/// What is wrong with a value that is no order of items.
pub open spec fn order_fault(v: CanonicalValueModel) -> Seq<char> {
    if v is Array {
        "order entries must be strings"@
    } else {
        "expected an array"@
    }
}

pub proof fn texts_read_back(texts: Seq<Seq<char>>)
    ensures
        texts_of(texts_form(texts)) == Some(texts),
        canonical::jcs(texts_form(texts)) is Ok,
{
    let a = texts_form(texts)->Array_0;
    assert(texts_of(texts_form(texts))->0 =~= texts);
    items_encode(a);
}

/// An array of the items' texts.
pub fn items_canonical(items: &Vec<ItemId>) -> (r: CanonicalValue)
    ensures
        r@ == texts_form(items.deep_view()),
{
    let ghost m = items.deep_view();
    let mut out: Vec<CanonicalValue> = Vec::new();
    let mut i: usize = 0;
    while i < items.len()
        invariant
            i <= items@.len(),
            m == items.deep_view(),
            out@.len() == i,
            forall|j: int|
                0 <= j < i ==> canonical::value_model(#[trigger] out@[j]) == CanonicalValueModel::String(m[j]),
        decreases items@.len() - i,
    {
        out.push(CanonicalValue::String(items[i].to_string()));
        i += 1;
    }
    assert(canonical::items_model(out@) =~= texts_form(m)->Array_0);
    CanonicalValue::Array(out)
}

pub fn items_from(v: &CanonicalValue) -> (r: Result<Vec<ItemId>, RecordDecodeError>)
    ensures
        match r {
            Ok(s) => texts_of(v@) == Some(s.deep_view()),
            Err(e) => texts_of(v@) is None && e.0@ == order_fault(v@),
        },
{
    match v {
        CanonicalValue::Array(list) => {
            let ghost a = v@->Array_0;
            let mut out: Vec<ItemId> = Vec::new();
            let mut i: usize = 0;
            while i < list.len()
                invariant
                    i <= list@.len(),
                    a == canonical::items_model(list@),
                    v@ == CanonicalValueModel::Array(a),
                    out@.len() == i,
                    forall|j: int|
                        0 <= j < i ==> #[trigger] a[j] == CanonicalValueModel::String(
                            out.deep_view()[j],
                        ),
                decreases list@.len() - i,
            {
                assert(a[i as int] == canonical::value_model(list@[i as int]));
                let ghost before = out.deep_view();
                match &list[i] {
                    CanonicalValue::String(s) => {
                        out.push(ItemId::new(s.as_str()));
                        assert forall|j: int| 0 <= j < i implies out.deep_view()[j]
                            == before[j] by {}
                    },
                    _ => {
                        assert(!(a[i as int] is String));
                        return Err(malformed("order entries must be strings"));
                    },
                }
                i += 1;
            }
            assert(texts_of(v@)->0 =~= out.deep_view());
            Ok(out)
        },
        _ => Err(malformed("expected an array")),
    }
}

/// The form of an operation: an object that names it.
pub open spec fn op_form(op: OpModel) -> CanonicalValueModel {
    CanonicalValueModel::Object(
        match op {
            OpModel::Put { column, path, state } => members4(
                "op"@,
                CanonicalValueModel::String("set"@),
                "column"@,
                CanonicalValueModel::String(column),
                "path"@,
                path_form(path),
                "state"@,
                state_form(state),
            ),
            OpModel::Unset { column, path } => members3(
                "op"@,
                CanonicalValueModel::String("unset"@),
                "column"@,
                CanonicalValueModel::String(column),
                "path"@,
                path_form(path),
            ),
            OpModel::AddItem { group, parent, item, at } => members5(
                "op"@,
                CanonicalValueModel::String("add_item"@),
                "group"@,
                CanonicalValueModel::String(group),
                "parent"@,
                path_form(parent),
                "item"@,
                CanonicalValueModel::String(item),
                "at"@,
                count_form(at as u64),
            ),
            OpModel::RemoveItem { group, parent, item } => members4(
                "op"@,
                CanonicalValueModel::String("remove_item"@),
                "group"@,
                CanonicalValueModel::String(group),
                "parent"@,
                path_form(parent),
                "item"@,
                CanonicalValueModel::String(item),
            ),
            OpModel::Reorder { group, parent, order } => members4(
                "op"@,
                CanonicalValueModel::String("reorder"@),
                "group"@,
                CanonicalValueModel::String(group),
                "parent"@,
                path_form(parent),
                "order"@,
                texts_form(order),
            ),
        },
    )
}

pub open spec fn path_member(m: Seq<(Seq<char>, CanonicalValueModel)>, k: Seq<char>) -> Option<
    Seq<PathSegModel>,
> {
    match canonical::member(m, k) {
        Some(v) => path_of(v),
        None => None,
    }
}

pub open spec fn state_member(m: Seq<(Seq<char>, CanonicalValueModel)>, k: Seq<char>) -> Option<
    CellStateModel,
> {
    match canonical::member(m, k) {
        Some(v) => state_of(v),
        None => None,
    }
}

pub open spec fn texts_member(m: Seq<(Seq<char>, CanonicalValueModel)>, k: Seq<char>) -> Option<
    Seq<Seq<char>>,
> {
    match canonical::member(m, k) {
        Some(v) => texts_of(v),
        None => None,
    }
}

/// What is wrong with a row path under a key that cannot be read.
pub open spec fn path_member_fault(
    m: Seq<(Seq<char>, CanonicalValueModel)>,
    k: Seq<char>,
) -> Seq<char> {
    match canonical::member(m, k) {
        Some(v) => path_fault(v),
        None => missing_fault(k),
    }
}

/// What is wrong with a state under a key that cannot be read.
pub open spec fn state_member_fault(
    m: Seq<(Seq<char>, CanonicalValueModel)>,
    k: Seq<char>,
) -> Seq<char> {
    match canonical::member(m, k) {
        Some(v) => state_fault(v),
        None => missing_fault(k),
    }
}

/// What is wrong with an order of items under a key that cannot be read.
pub open spec fn order_member_fault(
    m: Seq<(Seq<char>, CanonicalValueModel)>,
    k: Seq<char>,
) -> Seq<char> {
    match canonical::member(m, k) {
        Some(v) => order_fault(v),
        None => missing_fault(k),
    }
}

/// The keys of an operation of one name.
pub open spec fn op_keys(name: Seq<char>) -> Seq<Seq<char>> {
    if name == "set"@ {
        seq!["op"@, "column"@, "path"@, "state"@]
    } else if name == "unset"@ {
        seq!["op"@, "column"@, "path"@]
    } else if name == "add_item"@ {
        seq!["op"@, "group"@, "parent"@, "item"@, "at"@]
    } else if name == "remove_item"@ {
        seq!["op"@, "group"@, "parent"@, "item"@]
    } else {
        seq!["op"@, "group"@, "parent"@, "order"@]
    }
}

/// Whether a name is that of an operation.
pub open spec fn is_op(name: Seq<char>) -> bool {
    name == "set"@ || name == "unset"@ || name == "add_item"@ || name == "remove_item"@ || name
        == "reorder"@
}

/// What is wrong with the column and the row that an object names.
pub open spec fn cell_fault(m: Seq<(Seq<char>, CanonicalValueModel)>) -> Seq<char> {
    if text_member(m, "column"@) is None {
        text_fault("column"@)
    } else {
        path_member_fault(m, "path"@)
    }
}

/// What is wrong with the group and the parent row that an object names.
pub open spec fn place_fault(m: Seq<(Seq<char>, CanonicalValueModel)>) -> Seq<char> {
    if text_member(m, "group"@) is None {
        text_fault("group"@)
    } else {
        path_member_fault(m, "parent"@)
    }
}

/// What is wrong with an object's members, which spell no operation of a
/// name.
pub open spec fn op_members_fault(
    name: Seq<char>,
    m: Seq<(Seq<char>, CanonicalValueModel)>,
) -> Seq<char> {
    if !is_op(name) {
        keyed("unknown op"@, name)
    } else if !has_only(m, op_keys(name)) {
        extra_fault(m, op_keys(name))
    } else if name == "set"@ || name == "unset"@ {
        if text_member(m, "column"@) is None || path_member(m, "path"@) is None {
            cell_fault(m)
        } else {
            state_member_fault(m, "state"@)
        }
    } else if text_member(m, "group"@) is None || path_member(m, "parent"@) is None {
        place_fault(m)
    } else if name == "reorder"@ {
        order_member_fault(m, "order"@)
    } else if text_member(m, "item"@) is None {
        text_fault("item"@)
    } else {
        count_fault(m, "at"@, "bad index"@)
    }
}

/// What is wrong with a value that is no operation's form.
pub open spec fn op_fault(v: CanonicalValueModel) -> Seq<char> {
    match v {
        CanonicalValueModel::Object(m) => match text_member(m, "op"@) {
            Some(name) => op_members_fault(name, m),
            None => text_fault("op"@),
        },
        _ => "expected an object"@,
    }
}

/// The operation of one name that an object's members spell.
pub open spec fn op_of_members(
    name: Seq<char>,
    m: Seq<(Seq<char>, CanonicalValueModel)>,
) -> Option<OpModel> {
    if name == "set"@ {
        match (text_member(m, "column"@), path_member(m, "path"@), state_member(m, "state"@)) {
            (Some(column), Some(path), Some(state)) if has_only(m, op_keys(name)) => Some(
                OpModel::Put { column, path, state },
            ),
            _ => None,
        }
    } else if name == "unset"@ {
        match (text_member(m, "column"@), path_member(m, "path"@)) {
            (Some(column), Some(path)) if has_only(m, op_keys(name)) => Some(OpModel::Unset { column, path }),
            _ => None,
        }
    } else if name == "add_item"@ {
        match (
            text_member(m, "group"@),
            path_member(m, "parent"@),
            text_member(m, "item"@),
            count_member(m, "at"@),
        ) {
            (Some(group), Some(parent), Some(item), Some(at)) if has_only(m, op_keys(name)) && at
                <= usize::MAX => Some(OpModel::AddItem { group, parent, item, at: at as usize }),
            _ => None,
        }
    } else if name == "remove_item"@ {
        match (text_member(m, "group"@), path_member(m, "parent"@), text_member(m, "item"@)) {
            (Some(group), Some(parent), Some(item)) if has_only(m, op_keys(name)) => Some(
                OpModel::RemoveItem { group, parent, item },
            ),
            _ => None,
        }
    } else if name == "reorder"@ {
        match (text_member(m, "group"@), path_member(m, "parent"@), texts_member(m, "order"@)) {
            (Some(group), Some(parent), Some(order)) if has_only(m, op_keys(name)) => Some(
                OpModel::Reorder { group, parent, order },
            ),
            _ => None,
        }
    } else {
        None
    }
}

/// The operation that a value spells, if it is an operation's form.
pub open spec fn op_of(v: CanonicalValueModel) -> Option<OpModel> {
    match v {
        CanonicalValueModel::Object(m) => match text_member(m, "op"@) {
            Some(name) => op_of_members(name, m),
            None => None,
        },
        _ => None,
    }
}

/// Whether the operation's counts fit JSON numbers.
pub open spec fn op_is_safe(op: OpModel) -> bool {
    match op {
        OpModel::Put { state, .. } => state_is_safe(state),
        OpModel::AddItem { at, .. } => is_safe(at as u64),
        _ => true,
    }
}

/// Whether the operation's form spells it.
pub open spec fn op_is_readable(op: OpModel) -> bool {
    match op {
        OpModel::Put { state, .. } => state_is_readable(state),
        OpModel::AddItem { at, .. } => at <= MAX_SAFE_INTEGER,
        _ => true,
    }
}

/// What the types of an operation's parts promise.
pub open spec fn op_is_valid(op: OpModel) -> bool {
    op matches OpModel::Put { state, .. } ==> state_is_valid(state)
}

pub proof fn op_names()
    ensures
        "set"@ != "unset"@,
        "set"@ != "add_item"@,
        "set"@ != "remove_item"@,
        "set"@ != "reorder"@,
        "unset"@ != "add_item"@,
        "unset"@ != "remove_item"@,
        "unset"@ != "reorder"@,
        "add_item"@ != "remove_item"@,
        "add_item"@ != "reorder"@,
        "remove_item"@ != "reorder"@,
{
    reveal_strlit("set");
    reveal_strlit("unset");
    reveal_strlit("add_item");
    reveal_strlit("remove_item");
    reveal_strlit("reorder");
    assert("set"@.len() == 3);
    assert("unset"@.len() == 5);
    assert("add_item"@.len() == 8);
    assert("remove_item"@.len() == 11);
    assert("reorder"@.len() == 7);
}

proof fn put_reads_back(op: OpModel)
    requires
        op_is_valid(op),
        op is Put,
    ensures
        op_is_readable(op) ==> op_of(op_form(op)) == Some(op),
        op_is_safe(op) ==> canonical::jcs(op_form(op)) is Ok,
{
    reveal_strlit("op");
    reveal_strlit("column");
    reveal_strlit("path");
    reveal_strlit("state");
    assert("op"@.len() == 2);
    assert("column"@.len() == 6);
    assert("path"@.len() == 4);
    assert("state"@.len() == 5);
    op_names();
    if let OpModel::Put { column, path, state } = op {
        path_reads_back(path, CanonicalValueModel::Null);
        state_reads_back(state);
        members4_are(
            "op"@,
            CanonicalValueModel::String("set"@),
            "column"@,
            CanonicalValueModel::String(column),
            "path"@,
            path_form(path),
            "state"@,
            state_form(state),
        );
    }
}

proof fn unset_reads_back(op: OpModel)
    requires
        op_is_valid(op),
        op is Unset,
    ensures
        op_is_readable(op) ==> op_of(op_form(op)) == Some(op),
        op_is_safe(op) ==> canonical::jcs(op_form(op)) is Ok,
{
    reveal_strlit("op");
    reveal_strlit("column");
    reveal_strlit("path");
    assert("op"@.len() == 2);
    assert("column"@.len() == 6);
    assert("path"@.len() == 4);
    op_names();
    if let OpModel::Unset { column, path } = op {
        path_reads_back(path, CanonicalValueModel::Null);
        members3_are(
            "op"@,
            CanonicalValueModel::String("unset"@),
            "column"@,
            CanonicalValueModel::String(column),
            "path"@,
            path_form(path),
        );
    }
}

proof fn addition_reads_back(op: OpModel)
    requires
        op_is_valid(op),
        op is AddItem,
    ensures
        op_is_readable(op) ==> op_of(op_form(op)) == Some(op),
        op_is_safe(op) ==> canonical::jcs(op_form(op)) is Ok,
{
    reveal_strlit("op");
    reveal_strlit("group");
    reveal_strlit("parent");
    reveal_strlit("item");
    reveal_strlit("at");
    assert("op"@.len() == 2);
    assert("group"@.len() == 5);
    assert("parent"@.len() == 6);
    assert("item"@.len() == 4);
    assert("at"@.len() == 2);
    assert("op"@[0] == 'o');
    assert("at"@[0] == 'a');
    op_names();
    if let OpModel::AddItem { group, parent, item, at } = op {
        path_reads_back(parent, CanonicalValueModel::Null);
        members5_are(
            "op"@,
            CanonicalValueModel::String("add_item"@),
            "group"@,
            CanonicalValueModel::String(group),
            "parent"@,
            path_form(parent),
            "item"@,
            CanonicalValueModel::String(item),
            "at"@,
            count_form(at as u64),
        );
    }
}

proof fn removal_reads_back(op: OpModel)
    requires
        op_is_valid(op),
        op is RemoveItem,
    ensures
        op_is_readable(op) ==> op_of(op_form(op)) == Some(op),
        op_is_safe(op) ==> canonical::jcs(op_form(op)) is Ok,
{
    reveal_strlit("op");
    reveal_strlit("group");
    reveal_strlit("parent");
    reveal_strlit("item");
    assert("op"@.len() == 2);
    assert("group"@.len() == 5);
    assert("parent"@.len() == 6);
    assert("item"@.len() == 4);
    op_names();
    if let OpModel::RemoveItem { group, parent, item } = op {
        path_reads_back(parent, CanonicalValueModel::Null);
        members4_are(
            "op"@,
            CanonicalValueModel::String("remove_item"@),
            "group"@,
            CanonicalValueModel::String(group),
            "parent"@,
            path_form(parent),
            "item"@,
            CanonicalValueModel::String(item),
        );
    }
}

proof fn reorder_reads_back(op: OpModel)
    requires
        op_is_valid(op),
        op is Reorder,
    ensures
        op_is_readable(op) ==> op_of(op_form(op)) == Some(op),
        op_is_safe(op) ==> canonical::jcs(op_form(op)) is Ok,
{
    reveal_strlit("op");
    reveal_strlit("group");
    reveal_strlit("parent");
    reveal_strlit("order");
    assert("op"@.len() == 2);
    assert("group"@.len() == 5);
    assert("parent"@.len() == 6);
    assert("order"@.len() == 5);
    assert("group"@[0] == 'g');
    assert("order"@[0] == 'o');
    op_names();
    if let OpModel::Reorder { group, parent, order } = op {
        path_reads_back(parent, CanonicalValueModel::Null);
        texts_read_back(order);
        members4_are(
            "op"@,
            CanonicalValueModel::String("reorder"@),
            "group"@,
            CanonicalValueModel::String(group),
            "parent"@,
            path_form(parent),
            "order"@,
            texts_form(order),
        );
    }
}

/// An operation reads back from its form.
pub proof fn op_reads_back(op: OpModel)
    requires
        op_is_valid(op),
    ensures
        op_is_readable(op) ==> op_of(op_form(op)) == Some(op),
        op_is_safe(op) ==> canonical::jcs(op_form(op)) is Ok,
{
    match op {
        OpModel::Put { .. } => put_reads_back(op),
        OpModel::Unset { .. } => unset_reads_back(op),
        OpModel::AddItem { .. } => addition_reads_back(op),
        OpModel::RemoveItem { .. } => removal_reads_back(op),
        OpModel::Reorder { .. } => reorder_reads_back(op),
    }
}

/// The form of an operation, which reads back as the operation.
pub fn op(change: &Op) -> (r: CanonicalValue)
    ensures
        r@ == op_form(change@),
        op_is_valid(change@),
        op_is_safe(change@) ==> canonical::jcs(r@) is Ok,
        op_is_readable(change@) ==> op_of(r@) == Some(change@),
{
    let mut m = Members::new();
    match change {
        Op::Put { column, path, state } => {
            put_text(&mut m, "op", "set");
            put_text(&mut m, "column", column.as_str());
            put(&mut m, "path", path_canonical(path));
            put(&mut m, "state", state_canonical(state));
        },
        Op::Unset { column, path } => {
            put_text(&mut m, "op", "unset");
            put_text(&mut m, "column", column.as_str());
            put(&mut m, "path", path_canonical(path));
        },
        Op::AddItem { group, parent, item, at } => {
            put_text(&mut m, "op", "add_item");
            put_text(&mut m, "group", group.as_str());
            put(&mut m, "parent", path_canonical(parent));
            put_text(&mut m, "item", item.as_str());
            put(&mut m, "at", CanonicalValue::Int((*at as u64) as i64));
        },
        Op::RemoveItem { group, parent, item } => {
            put_text(&mut m, "op", "remove_item");
            put_text(&mut m, "group", group.as_str());
            put(&mut m, "parent", path_canonical(parent));
            put_text(&mut m, "item", item.as_str());
        },
        Op::Reorder { group, parent, order } => {
            put_text(&mut m, "op", "reorder");
            put_text(&mut m, "group", group.as_str());
            put(&mut m, "parent", path_canonical(parent));
            put(&mut m, "order", items_canonical(order));
        },
    }
    proof {
        op_reads_back(change@);
    }
    CanonicalValue::Object(m)
}

/// A row path under a key.
pub fn get_path(m: &Members, key: &str) -> (r: Result<RowPath, RecordDecodeError>)
    ensures
        match r {
            Ok(p) => path_member(m@, key@) == Some(p@),
            Err(e) => path_member(m@, key@) is None && e.0@ == path_member_fault(m@, key@),
        },
{
    match get_member(m, key) {
        Ok(v) => path_from(v),
        Err(e) => Err(e),
    }
}

fn get_state(m: &Members, key: &str) -> (r: Result<CellState, RecordDecodeError>)
    ensures
        match r {
            Ok(s) => state_member(m@, key@) == Some(s@),
            Err(e) => state_member(m@, key@) is None && e.0@ == state_member_fault(m@, key@),
        },
{
    match get_member(m, key) {
        Ok(v) => state_from(v),
        Err(e) => Err(e),
    }
}

fn get_items(m: &Members, key: &str) -> (r: Result<Vec<ItemId>, RecordDecodeError>)
    ensures
        match r {
            Ok(s) => texts_member(m@, key@) == Some(s.deep_view()),
            Err(e) => texts_member(m@, key@) is None && e.0@ == order_member_fault(m@, key@),
        },
{
    match get_member(m, key) {
        Ok(v) => items_from(v),
        Err(e) => Err(e),
    }
}

/// The group, the parent path and the item that an item operation names.
fn get_place(m: &Members) -> (r: Result<(GroupId, RowPath), RecordDecodeError>)
    ensures
        match r {
            Ok(p) => text_member(m@, "group"@) == Some(p.0@) && path_member(m@, "parent"@) == Some(
                p.1@,
            ),
            Err(e) => (text_member(m@, "group"@) is None || path_member(m@, "parent"@) is None)
                && e.0@ == place_fault(m@),
        },
{
    let group = match get_str(m, "group") {
        Ok(g) => GroupId::new(g.as_str()),
        Err(e) => {
            return Err(e);
        },
    };
    match get_path(m, "parent") {
        Ok(p) => Ok((group, p)),
        Err(e) => Err(e),
    }
}

fn get_cell(m: &Members) -> (r: Result<(ColumnId, RowPath), RecordDecodeError>)
    ensures
        match r {
            Ok(p) => text_member(m@, "column"@) == Some(p.0@) && path_member(m@, "path"@) == Some(
                p.1@,
            ),
            Err(e) => (text_member(m@, "column"@) is None || path_member(m@, "path"@) is None)
                && e.0@ == cell_fault(m@),
        },
{
    let column = match get_str(m, "column") {
        Ok(c) => ColumnId::new(c.as_str()),
        Err(e) => {
            return Err(e);
        },
    };
    match get_path(m, "path") {
        Ok(p) => Ok((column, p)),
        Err(e) => Err(e),
    }
}

fn only_op_keys(name: &str, m: &Members) -> (r: Result<(), RecordDecodeError>)
    requires
        is_op(name@),
    ensures
        match r {
            Ok(_) => has_only(m@, op_keys(name@)),
            Err(e) => !has_only(m@, op_keys(name@)) && e.0@ == extra_fault(m@, op_keys(name@)),
        },
{
    proof {
        op_names();
    }
    if same_text(name, "set") {
        let keys: [&str; 4] = ["op", "column", "path", "state"];
        assert(texts_at(keys@) =~= op_keys(name@));
        only_keys(m, &keys)
    } else if same_text(name, "unset") {
        let keys: [&str; 3] = ["op", "column", "path"];
        assert(texts_at(keys@) =~= op_keys(name@));
        only_keys(m, &keys)
    } else if same_text(name, "add_item") {
        let keys: [&str; 5] = ["op", "group", "parent", "item", "at"];
        assert(texts_at(keys@) =~= op_keys(name@));
        only_keys(m, &keys)
    } else if same_text(name, "remove_item") {
        let keys: [&str; 4] = ["op", "group", "parent", "item"];
        assert(texts_at(keys@) =~= op_keys(name@));
        only_keys(m, &keys)
    } else {
        let keys: [&str; 4] = ["op", "group", "parent", "order"];
        assert(texts_at(keys@) =~= op_keys(name@));
        only_keys(m, &keys)
    }
}

fn op_from_members(name: &str, m: &Members) -> (r: Result<Op, RecordDecodeError>)
    ensures
        match r {
            Ok(op) => op_of_members(name@, m@) == Some(op@),
            Err(e) => op_of_members(name@, m@) is None && e.0@ == op_members_fault(name@, m@),
        },
{
    proof {
        op_names();
    }
    if same_text(name, "set") {
        match (only_op_keys(name, m), get_cell(m), get_state(m, "state")) {
            (Ok(_), Ok((column, path)), Ok(state)) => Ok(Op::Put { column, path, state }),
            (Err(e), _, _) => Err(e),
            (_, Err(e), _) => Err(e),
            (_, _, Err(e)) => Err(e),
        }
    } else if same_text(name, "unset") {
        match (only_op_keys(name, m), get_cell(m)) {
            (Ok(_), Ok((column, path))) => Ok(Op::Unset { column, path }),
            (Err(e), _) => Err(e),
            (_, Err(e)) => Err(e),
        }
    } else if same_text(name, "add_item") {
        match (only_op_keys(name, m), get_place(m), get_str(m, "item"), get_count(m, "at", "bad index")) {
            (Ok(_), Ok((group, parent)), Ok(item), Ok(at)) => {
                if at <= usize::MAX as u64 {
                    Ok(
                        Op::AddItem {
                            group,
                            parent,
                            item: ItemId::new(item.as_str()),
                            at: at as usize,
                        },
                    )
                } else {
                    Err(malformed("bad index"))
                }
            },
            (Err(e), _, _, _) => Err(e),
            (_, Err(e), _, _) => Err(e),
            (_, _, Err(e), _) => Err(e),
            (_, _, _, Err(e)) => Err(e),
        }
    } else if same_text(name, "remove_item") {
        match (only_op_keys(name, m), get_place(m), get_str(m, "item")) {
            (Ok(_), Ok((group, parent)), Ok(item)) => Ok(
                Op::RemoveItem { group, parent, item: ItemId::new(item.as_str()) },
            ),
            (Err(e), _, _) => Err(e),
            (_, Err(e), _) => Err(e),
            (_, _, Err(e)) => Err(e),
        }
    } else if same_text(name, "reorder") {
        match (only_op_keys(name, m), get_place(m), get_items(m, "order")) {
            (Ok(_), Ok((group, parent)), Ok(order)) => Ok(Op::Reorder { group, parent, order }),
            (Err(e), _, _) => Err(e),
            (_, Err(e), _) => Err(e),
            (_, _, Err(e)) => Err(e),
        }
    } else {
        Err(malformed_key("unknown op", name))
    }
}

/// Reads an operation strictly.
pub fn op_from(v: &CanonicalValue) -> (r: Result<Op, RecordDecodeError>)
    ensures
        match r {
            Ok(op) => op_of(v@) == Some(op@),
            Err(e) => op_of(v@) is None && e.0@ == op_fault(v@),
        },
{
    match v {
        CanonicalValue::Object(m) => match get_str(m, "op") {
            Ok(name) => op_from_members(name.as_str(), m),
            Err(e) => Err(e),
        },
        _ => Err(malformed("expected an object")),
    }
}

} // verus!
