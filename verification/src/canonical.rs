//! Canonical bytes and content addresses.
//!
//! The canonical form is JCS (RFC 8785) over JSON-shaped values: object
//! keys sorted by UTF-16 code units, minimal string escaping, ES6 number
//! texts. Schema objects hash plain; record content hashes as salted
//! commitments.

use vstd::prelude::*;
use crate::collections;
use crate::decimal;
use crate::order;
use crate::text;
use crate::decimal::append_chars;
use crate::order::{Key, Modeled, Order, compare_slices};
use crate::text::{chars_of, code_point, digits_text, push_hex, push_text, read_hex, text_of};
use vstd::utf8::encode_utf8;

verus! {

/// The largest integer that a JSON number carries exactly.
pub const MAX_SAFE_INTEGER: i64 = 9007199254740991;

/// A double-precision number, ready to be written: the shortest decimal
/// digits that round-trip, without leading or trailing zeros, scaled by
/// a power of ten. Zero has no digits.
#[derive(Clone, Debug, PartialEq, Eq)]
pub enum Float {
    Finite { negative: bool, digits: String, exponent: i32 },
    NonFinite,
}

/// The model of [`Float`].
#[verifier::ext_equal]
pub enum FloatModel {
    Finite { negative: bool, digits: Seq<char>, exponent: i32 },
    NonFinite,
}

impl DeepView for Float {
    type V = FloatModel;

    open spec fn deep_view(&self) -> FloatModel {
        match self {
            Float::Finite { negative, digits, exponent } => FloatModel::Finite {
                negative: *negative,
                digits: digits.deep_view(),
                exponent: *exponent,
            },
            Float::NonFinite => FloatModel::NonFinite,
        }
    }
}

impl View for Float {
    type V = FloatModel;

    open spec fn view(&self) -> FloatModel {
        self.deep_view()
    }
}

impl Modeled for Float {
    fn dup(&self) -> (r: Self) {
        match self {
            Float::Finite { negative, digits, exponent } => Float::Finite {
                negative: *negative,
                digits: digits.dup(),
                exponent: *exponent,
            },
            Float::NonFinite => Float::NonFinite,
        }
    }

    fn same(&self, other: &Self) -> (b: bool) {
        match (self, other) {
            (
                Float::Finite { negative, digits, exponent },
                Float::Finite { negative: negative2, digits: digits2, exponent: exponent2 },
            ) => {
                *negative == *negative2
                    && digits.same(digits2)
                    && *exponent == *exponent2
            },
            (Float::NonFinite, Float::NonFinite) => true,
            _ => false,
        }
    }
}

/// A JSON-shaped value ready for canonicalization. Exact numbers and
/// instants arrive as their normalized texts; JSON numbers are left to
/// structural counts and geometry.
#[derive(Debug, PartialEq, Eq)]
pub enum CanonicalValue {
    Null,
    Bool(bool),
    /// Integers beyond [`MAX_SAFE_INTEGER`] are refused at serialization.
    Int(i64),
    Float(Float),
    String(String),
    Array(Vec<CanonicalValue>),
    Object(Members),
}

/// The members of an object, in the order in which JCS writes them.
#[derive(Debug, PartialEq, Eq)]
pub struct Members {
    entries: Vec<(String, CanonicalValue)>,
}

/// The model of [`CanonicalValue`]; an object is the sequence of its
/// members in JCS order.
#[verifier::ext_equal]
pub enum CanonicalValueModel {
    Null,
    Bool(bool),
    Int(i64),
    Float(FloatModel),
    String(Seq<char>),
    Array(Seq<CanonicalValueModel>),
    Object(Seq<(Seq<char>, CanonicalValueModel)>),
}

/// The model of a value.
pub open spec fn value_model(v: CanonicalValue) -> CanonicalValueModel
    decreases v,
{
    match v {
        CanonicalValue::Null => CanonicalValueModel::Null,
        CanonicalValue::Bool(b) => CanonicalValueModel::Bool(b),
        CanonicalValue::Int(i) => CanonicalValueModel::Int(i),
        CanonicalValue::Float(f) => CanonicalValueModel::Float(f@),
        CanonicalValue::String(s) => CanonicalValueModel::String(s@),
        CanonicalValue::Array(items) => CanonicalValueModel::Array(items_model(items@)),
        CanonicalValue::Object(m) => CanonicalValueModel::Object(members_model(m)),
    }
}

/// The models of a sequence of values.
pub open spec fn items_model(items: Seq<CanonicalValue>) -> Seq<CanonicalValueModel>
    decreases items,
{
    Seq::new(
        items.len(),
        |i: int|
            if 0 <= i < items.len() {
                value_model(items[i])
            } else {
                CanonicalValueModel::Null
            },
    )
}

/// The model of an object's members.
pub closed spec fn members_model(m: Members) -> Seq<(Seq<char>, CanonicalValueModel)>
    decreases m,
{
    Seq::new(
        m.entries@.len(),
        |i: int|
            if 0 <= i < m.entries@.len() {
                (m.entries@[i].0@, value_model(m.entries@[i].1))
            } else {
                (Seq::empty(), CanonicalValueModel::Null)
            },
    )
}

impl DeepView for CanonicalValue {
    type V = CanonicalValueModel;

    open spec fn deep_view(&self) -> CanonicalValueModel {
        value_model(*self)
    }
}

impl View for CanonicalValue {
    type V = CanonicalValueModel;

    open spec fn view(&self) -> CanonicalValueModel {
        value_model(*self)
    }
}

impl DeepView for Members {
    type V = Seq<(Seq<char>, CanonicalValueModel)>;

    open spec fn deep_view(&self) -> Seq<(Seq<char>, CanonicalValueModel)> {
        members_model(*self)
    }
}

impl View for Members {
    type V = Seq<(Seq<char>, CanonicalValueModel)>;

    open spec fn view(&self) -> Seq<(Seq<char>, CanonicalValueModel)> {
        members_model(*self)
    }
}

/// The UTF-16 code units of a character.
pub open spec fn units(c: char) -> Seq<u16> {
    let n = c as nat;
    if n < 0x10000 {
        seq![n as u16]
    } else {
        seq![(0xD800 + (n - 0x10000) / 0x400) as u16, (0xDC00 + (n - 0x10000) % 0x400) as u16]
    }
}

/// The UTF-16 code units of a text.
pub open spec fn utf16(s: Seq<char>) -> Seq<u16>
    decreases s.len(),
{
    if s.len() == 0 {
        Seq::empty()
    } else {
        utf16(s.drop_last()) + units(s.last())
    }
}

proof fn units_last(c: char)
    ensures
        units(c).len() == 1 ==> !(0xDC00 <= units(c).last() <= 0xDFFF) && c as nat
            == units(c)[0] as nat,
        units(c).len() == 2 ==> 0xDC00 <= units(c).last() <= 0xDFFF && c as nat == 0x10000 + (units(
            c,
        )[0] as nat - 0xD800) * 0x400 + (units(c)[1] as nat - 0xDC00),
        units(c).len() == 1 || units(c).len() == 2,
{
}

/// A text is determined by its UTF-16 code units.
pub proof fn utf16_injective(a: Seq<char>, b: Seq<char>)
    requires
        utf16(a) == utf16(b),
    ensures
        a == b,
    decreases a.len(),
{
    if a.len() == 0 || b.len() == 0 {
        if a.len() > 0 {
            units_last(a.last());
        }
        if b.len() > 0 {
            units_last(b.last());
        }
        assert(a =~= b);
    } else {
        units_last(a.last());
        units_last(b.last());
        text::code_point_unique(a.last(), b.last());
        let x = utf16(a);
        let ua = units(a.last());
        let ub = units(b.last());
        let xa = utf16(a.drop_last());
        let xb = utf16(b.drop_last());
        assert(x.last() == ua.last());
        assert(x.last() == ub.last());
        assert(ua.len() == ub.len());
        assert(xa =~= x.take(x.len() - ua.len()));
        assert(xb =~= x.take(x.len() - ub.len()));
        assert(ua =~= x.skip(x.len() - ua.len()));
        assert(ub =~= x.skip(x.len() - ub.len()));
        utf16_injective(a.drop_last(), b.drop_last());
        assert(a =~= a.drop_last().push(a.last()));
        assert(b =~= b.drop_last().push(b.last()));
    }
}

/// The UTF-16 code units of a text.
fn utf16_units(s: &str) -> (r: Vec<u16>)
    ensures
        r@ == utf16(s@),
{
    let v = chars_of(s);
    let mut r: Vec<u16> = Vec::new();
    let mut i: usize = 0;
    while i < v.len()
        invariant
            v@ == s@,
            i <= v@.len(),
            r@ == utf16(s@.take(i as int)),
        decreases v@.len() - i,
    {
        let n = code_point(v[i]);
        assert(s@.take(i + 1).drop_last() =~= s@.take(i as int));
        if n < 0x10000 {
            r.push(n as u16);
        } else {
            let m: u32 = n - 0x10000;
            r.push((0xD800 + m / 0x400) as u16);
            r.push((0xDC00 + m % 0x400) as u16);
        }
        i += 1;
        assert(r@ =~= utf16(s@.take(i as int)));
    }
    assert(s@.take(s@.len() as int) =~= s@);
    r
}

impl Modeled for u16 {
    fn dup(&self) -> (r: Self) {
        *self
    }

    fn same(&self, other: &Self) -> (b: bool) {
        *self == *other
    }
}

impl Key for u16 {
    open spec fn order(a: u16, b: u16) -> Order {
        if a < b {
            Order::Less
        } else if a == b {
            Order::Equal
        } else {
            Order::Greater
        }
    }

    proof fn order_equal(a: u16, b: u16) {
    }

    proof fn order_flip(a: u16, b: u16) {
    }

    proof fn order_transitive(a: u16, b: u16, c: u16) {
    }

    fn compare(&self, other: &Self) -> (o: Order) {
        if *self < *other {
            Order::Less
        } else if *self == *other {
            Order::Equal
        } else {
            Order::Greater
        }
    }
}

/// The order of object keys: by UTF-16 code units.
pub open spec fn jcs_order(a: Seq<char>, b: Seq<char>) -> Order {
    order::seq_order::<u16>(utf16(a), utf16(b))
}

fn compare_jcs(a: &str, b: &str) -> (o: Order)
    ensures
        o == jcs_order(a@, b@),
{
    let x = utf16_units(a);
    let y = utf16_units(b);
    assert(order::models(x@) =~= x@);
    assert(order::models(y@) =~= y@);
    compare_slices::<u16>(x.as_slice(), y.as_slice())
}

/// An object key, ordered as JCS orders keys.
#[derive(Clone, Debug, PartialEq, Eq)]
pub struct MemberKey {
    pub text: String,
}

impl DeepView for MemberKey {
    type V = Seq<char>;

    open spec fn deep_view(&self) -> Seq<char> {
        self.text@
    }
}

impl Modeled for MemberKey {
    fn dup(&self) -> (r: Self) {
        MemberKey { text: self.text.clone() }
    }

    fn same(&self, other: &Self) -> (b: bool) {
        self.text == other.text
    }
}

proof fn jcs_order_equal(a: Seq<char>, b: Seq<char>)
    ensures
        (jcs_order(a, b) == Order::Equal) == (a == b),
{
    order::seq_order_equal::<u16>(utf16(a), utf16(b));
    if utf16(a) == utf16(b) {
        utf16_injective(a, b);
    }
}

impl Key for MemberKey {
    open spec fn order(a: Seq<char>, b: Seq<char>) -> Order {
        jcs_order(a, b)
    }

    proof fn order_equal(a: Seq<char>, b: Seq<char>) {
        jcs_order_equal(a, b);
        assert(MemberKey::order(a, b) == jcs_order(a, b));
        assert((a == b) == (a =~= b));
    }

    proof fn order_flip(a: Seq<char>, b: Seq<char>) {
        order::seq_order_flip::<u16>(utf16(a), utf16(b));
    }

    proof fn order_transitive(a: Seq<char>, b: Seq<char>, c: Seq<char>) {
        order::seq_order_transitive::<u16>(utf16(a), utf16(b), utf16(c));
    }

    fn compare(&self, other: &Self) -> (o: Order) {
        compare_jcs(self.text.as_str(), other.text.as_str())
    }
}

/// What an object holds under a key.
pub open spec fn member(
    s: Seq<(Seq<char>, CanonicalValueModel)>,
    k: Seq<char>,
) -> Option<CanonicalValueModel> {
    if collections::as_map(s).dom().contains(k) {
        Some(collections::as_map(s)[k])
    } else {
        None
    }
}

/// `s` holds its members in JCS order.
pub open spec fn members_in_order(s: Seq<(Seq<char>, CanonicalValueModel)>) -> bool {
    collections::in_order::<MemberKey>(collections::firsts(s))
}

/// `s` with `v` under `k`.
pub open spec fn with_member(
    s: Seq<(Seq<char>, CanonicalValueModel)>,
    k: Seq<char>,
    v: CanonicalValueModel,
) -> Seq<(Seq<char>, CanonicalValueModel)> {
    collections::put_at(s, key_place(collections::firsts(s), k), k, v)
}

/// How many of the keys come before `k`.
pub open spec fn key_place(keys: Seq<Seq<char>>, k: Seq<char>) -> int
    decreases keys.len(),
{
    if keys.len() == 0 {
        0
    } else if jcs_order(keys[0], k) == Order::Less {
        1 + key_place(keys.drop_first(), k)
    } else {
        0
    }
}

proof fn key_place_is(keys: Seq<Seq<char>>, p: int, k: Seq<char>)
    requires
        collections::is_place::<MemberKey>(keys, p, k),
    ensures
        key_place(keys, k) == p,
    decreases keys.len(),
{
    if keys.len() > 0 {
        let rest = keys.drop_first();
        if p > 0 {
            assert(MemberKey::order(keys[0], k) == Order::Less);
            assert forall|i: int| 0 <= i < p - 1 implies MemberKey::order(#[trigger] rest[i], k)
                == Order::Less by {
                assert(rest[i] == keys[i + 1]);
            }
            assert forall|i: int| p - 1 <= i < rest.len() implies MemberKey::order(
                #[trigger] rest[i],
                k,
            ) != Order::Less by {
                assert(rest[i] == keys[i + 1]);
            }
            key_place_is(rest, p - 1, k);
        } else {
            assert(MemberKey::order(keys[0], k) != Order::Less);
        }
    }
}

proof fn key_place_exists(keys: Seq<Seq<char>>, k: Seq<char>)
    requires
        collections::in_order::<MemberKey>(keys),
    ensures
        collections::is_place::<MemberKey>(keys, key_place(keys, k), k),
    decreases keys.len(),
{
    if keys.len() > 0 {
        let rest = keys.drop_first();
        assert(collections::in_order::<MemberKey>(rest)) by {
            assert forall|i: int, j: int|
                #![trigger rest[i], rest[j]]
                0 <= i < j < rest.len() implies MemberKey::order(rest[i], rest[j])
                == Order::Less by {
                assert(rest[i] == keys[i + 1]);
                assert(rest[j] == keys[j + 1]);
            }
        }
        key_place_exists(rest, k);
        let p = key_place(rest, k);
        if jcs_order(keys[0], k) == Order::Less {
            assert forall|i: int| 0 <= i < p + 1 implies MemberKey::order(#[trigger] keys[i], k)
                == Order::Less by {
                if i > 0 {
                    assert(rest[i - 1] == keys[i]);
                }
            }
            assert forall|i: int| p + 1 <= i < keys.len() implies MemberKey::order(
                #[trigger] keys[i],
                k,
            ) != Order::Less by {
                assert(rest[i - 1] == keys[i]);
            }
        } else {
            assert forall|i: int| 0 <= i < keys.len() implies MemberKey::order(
                #[trigger] keys[i],
                k,
            ) != Order::Less by {
                if i > 0 && MemberKey::order(keys[i], k) == Order::Less {
                    assert(MemberKey::order(keys[0], keys[i]) == Order::Less);
                    MemberKey::order_transitive(keys[0], keys[i], k);
                }
            }
        }
    }
}

/// Putting a member in keeps the order, and every other member.
pub proof fn with_member_is(
    s: Seq<(Seq<char>, CanonicalValueModel)>,
    k: Seq<char>,
    v: CanonicalValueModel,
)
    requires
        members_in_order(s),
    ensures
        members_in_order(with_member(s, k, v)),
        collections::as_map(with_member(s, k, v)) == collections::as_map(s).insert(k, v),
        forall|q: Seq<char>|
            #[trigger] member(with_member(s, k, v), q) == (if q == k {
                Some(v)
            } else {
                member(s, q)
            }),
        with_member(s, k, v).len() == s.len() + (if member(s, k) is Some {
            0int
        } else {
            1int
        }),
{
    key_place_exists(collections::firsts(s), k);
    collections::put_at_is_insert::<MemberKey, CanonicalValueModel>(s, key_place(collections::firsts(s), k), k, v);
}

impl Members {
    #[verifier::type_invariant]
    spec fn sorted(self) -> bool {
        collections::in_order::<MemberKey>(collections::firsts(members_model(self)))
    }

    pub fn new() -> (r: Self)
        ensures
            r@ == Seq::<(Seq<char>, CanonicalValueModel)>::empty(),
    {
        let entries: Vec<(String, CanonicalValue)> = Vec::new();
        let r = Members { entries };
        assert(r@ =~= Seq::<(Seq<char>, CanonicalValueModel)>::empty());
        r
    }

    /// The number of members.
    pub fn len(&self) -> (n: usize)
        ensures
            n == self@.len(),
            members_in_order(self@),
    {
        proof {
            use_type_invariant(self);
        }
        self.entries.len()
    }

    pub fn key_at(&self, i: usize) -> (k: &str)
        requires
            i < self@.len(),
        ensures
            k@ == self@[i as int].0,
    {
        self.entries[i].0.as_str()
    }

    pub fn value_at(&self, i: usize) -> (v: &CanonicalValue)
        requires
            i < self@.len(),
        ensures
            v@ == self@[i as int].1,
    {
        &self.entries[i].1
    }

    /// The place of a key among the members.
    fn place(&self, key: &str) -> (p: usize)
        requires
            self.sorted(),
        ensures
            collections::is_place::<MemberKey>(collections::firsts(self@), p as int, key@),
            p == key_place(collections::firsts(self@), key@),
    {
        let ghost keys = collections::firsts(self@);
        let mut p: usize = 0;
        while p < self.entries.len()
            invariant
                p <= self.entries@.len(),
                keys == collections::firsts(self@),
                collections::in_order::<MemberKey>(keys),
                forall|i: int|
                    0 <= i < p ==> MemberKey::order(#[trigger] keys[i], key@) == Order::Less,
            decreases self.entries@.len() - p,
        {
            let o = compare_jcs(self.entries[p].0.as_str(), key);
            assert(keys[p as int] == self.entries@[p as int].0@);
            if o != Order::Less {
                assert forall|i: int| p <= i < keys.len() implies MemberKey::order(
                    #[trigger] keys[i],
                    key@,
                ) != Order::Less by {
                    if i > p && MemberKey::order(keys[i], key@) == Order::Less {
                        MemberKey::order_transitive(keys[p as int], keys[i], key@);
                    }
                }
                proof {
                    key_place_is(keys, p as int, key@);
                }
                return p;
            }
            p += 1;
        }
        proof {
            key_place_is(keys, p as int, key@);
        }
        p
    }

    /// Puts `value` under `key`.
    pub fn insert(&mut self, key: String, value: CanonicalValue)
        ensures
            final(self)@ == with_member(old(self)@, key@, value@),
            members_in_order(final(self)@),
    {
        proof {
            use_type_invariant(&*self);
        }
        let p = self.place(key.as_str());
        let ghost s = self@;
        proof {
            collections::put_at_is_insert::<MemberKey, CanonicalValueModel>(s, p as int, key@, value@);
        }
        let replace = p < self.entries.len() && self.entries[p].0 == key;
        let mut entries: Vec<(String, CanonicalValue)> = Vec::new();
        std::mem::swap(&mut entries, &mut self.entries);
        let ghost k = key@;
        let ghost v = value@;
        if replace {
            entries.set(p, (key, value));
        } else {
            entries.insert(p, (key, value));
        }
        proof {
            assert(members_model(Members { entries }) =~= collections::put_at(s, p as int, k, v));
        }
        self.entries = entries;
    }

    pub fn get(&self, key: &str) -> (r: Option<&CanonicalValue>)
        ensures
            match r {
                Some(v) => member(self@, key@) == Some(v@),
                None => member(self@, key@) is None,
            },
    {
        proof {
            use_type_invariant(self);
        }
        let p = self.place(key);
        proof {
            let s = self@;
            collections::put_at_is_insert::<MemberKey, CanonicalValueModel>(
                s,
                p as int,
                key@,
                CanonicalValueModel::Null,
            );
            if p < s.len() && s[p as int].0 == key@ {
                assert(collections::firsts(s)[p as int] == key@);
                collections::in_order_index::<MemberKey>(collections::firsts(s), p as int);
            }
        }
        if p < self.entries.len() && same_text(self.entries[p].0.as_str(), key) {
            Some(&self.entries[p].1)
        } else {
            None
        }
    }
}

/// Whether two texts are the same.
pub fn same_text(a: &str, b: &str) -> (r: bool)
    ensures
        r == (a@ == b@),
{
    let o = crate::order::compare_text(a, b);
    proof {
        String::order_equal(a@, b@);
    }
    o == Order::Equal
}

fn dup_members(m: &Members) -> (r: Members)
    ensures
        r@ == m@,
    decreases m,
{
    proof {
        use_type_invariant(m);
    }
    let mut entries: Vec<(String, CanonicalValue)> = Vec::new();
    let mut i: usize = 0;
    while i < m.entries.len()
        invariant
            i <= m.entries@.len(),
            entries@.len() == i,
            forall|j: int|
                0 <= j < i ==> (#[trigger] entries@[j]).0@ == m.entries@[j].0@ && value_model(
                    entries@[j].1,
                ) == value_model(m.entries@[j].1),
        decreases m.entries@.len() - i,
    {
        entries.push((m.entries[i].0.clone(), dup_value(&m.entries[i].1)));
        i += 1;
    }
    assert(members_model(Members { entries }) =~= members_model(*m));
    Members { entries }
}

fn dup_items(items: &Vec<CanonicalValue>) -> (r: Vec<CanonicalValue>)
    ensures
        items_model(r@) == items_model(items@),
    decreases items,
{
    let mut r: Vec<CanonicalValue> = Vec::new();
    let mut i: usize = 0;
    while i < items.len()
        invariant
            i <= items@.len(),
            r@.len() == i,
            forall|j: int| 0 <= j < i ==> value_model(#[trigger] r@[j]) == value_model(items@[j]),
        decreases items@.len() - i,
    {
        r.push(dup_value(&items[i]));
        i += 1;
    }
    assert(items_model(r@) =~= items_model(items@));
    r
}

fn dup_value(v: &CanonicalValue) -> (r: CanonicalValue)
    ensures
        r@ == v@,
    decreases v,
{
    match v {
        CanonicalValue::Null => CanonicalValue::Null,
        CanonicalValue::Bool(b) => CanonicalValue::Bool(*b),
        CanonicalValue::Int(i) => CanonicalValue::Int(*i),
        CanonicalValue::Float(f) => CanonicalValue::Float(f.dup()),
        CanonicalValue::String(s) => CanonicalValue::String(s.clone()),
        CanonicalValue::Array(items) => CanonicalValue::Array(dup_items(items)),
        CanonicalValue::Object(m) => CanonicalValue::Object(dup_members(m)),
    }
}

fn same_members(a: &Members, b: &Members) -> (r: bool)
    ensures
        r == (a@ == b@),
    decreases a,
{
    if a.entries.len() != b.entries.len() {
        assert(a@.len() != b@.len());
        return false;
    }
    let mut i: usize = 0;
    while i < a.entries.len()
        invariant
            i <= a.entries@.len(),
            a.entries@.len() == b.entries@.len(),
            forall|j: int| 0 <= j < i ==> #[trigger] a@[j] == b@[j],
        decreases a.entries@.len() - i,
    {
        if !(a.entries[i].0 == b.entries[i].0) || !same_value(&a.entries[i].1, &b.entries[i].1) {
            assert(a@[i as int] != b@[i as int]);
            return false;
        }
        i += 1;
    }
    assert(a@ =~= b@);
    true
}

fn same_items(a: &Vec<CanonicalValue>, b: &Vec<CanonicalValue>) -> (r: bool)
    ensures
        r == (items_model(a@) == items_model(b@)),
    decreases a,
{
    if a.len() != b.len() {
        assert(items_model(a@).len() != items_model(b@).len());
        return false;
    }
    let mut i: usize = 0;
    while i < a.len()
        invariant
            i <= a@.len(),
            a@.len() == b@.len(),
            forall|j: int|
                0 <= j < i ==> #[trigger] items_model(a@)[j] == items_model(b@)[j],
        decreases a@.len() - i,
    {
        if !same_value(&a[i], &b[i]) {
            assert(items_model(a@)[i as int] != items_model(b@)[i as int]);
            return false;
        }
        i += 1;
    }
    assert(items_model(a@) =~= items_model(b@));
    true
}

fn same_value(a: &CanonicalValue, b: &CanonicalValue) -> (r: bool)
    ensures
        r == (a@ == b@),
    decreases a,
{
    match (a, b) {
        (CanonicalValue::Null, CanonicalValue::Null) => true,
        (CanonicalValue::Bool(x), CanonicalValue::Bool(y)) => *x == *y,
        (CanonicalValue::Int(x), CanonicalValue::Int(y)) => *x == *y,
        (CanonicalValue::Float(x), CanonicalValue::Float(y)) => x.same(y),
        (CanonicalValue::String(x), CanonicalValue::String(y)) => *x == *y,
        (CanonicalValue::Array(x), CanonicalValue::Array(y)) => same_items(x, y),
        (CanonicalValue::Object(x), CanonicalValue::Object(y)) => same_members(x, y),
        _ => false,
    }
}

impl Modeled for CanonicalValue {
    fn dup(&self) -> (r: Self) {
        dup_value(self)
    }

    fn same(&self, other: &Self) -> (b: bool) {
        same_value(self, other)
    }
}

impl Clone for CanonicalValue {
    fn clone(&self) -> (r: Self)
        ensures
            r@ == self@,
    {
        dup_value(self)
    }
}

impl Clone for Members {
    fn clone(&self) -> (r: Self)
        ensures
            r@ == self@,
    {
        dup_members(self)
    }
}

/// Why a value has no canonical bytes.
#[derive(Clone, Copy, Debug, PartialEq, Eq, Structural)]
pub enum CanonicalError {
    /// JCS forbids NaN and infinities.
    NonFiniteNumber,
    /// The integer is outside the range that a JSON number carries
    /// exactly.
    UnsafeInteger(i64),
}

impl DeepView for CanonicalError {
    type V = CanonicalError;

    open spec fn deep_view(&self) -> CanonicalError {
        *self
    }
}

impl View for CanonicalError {
    type V = CanonicalError;

    open spec fn view(&self) -> CanonicalError {
        *self
    }
}

impl Modeled for CanonicalError {
    fn dup(&self) -> (r: Self) {
        *self
    }

    fn same(&self, other: &Self) -> (b: bool) {
        *self == *other
    }
}

/// A character inside a JSON string.
pub open spec fn escaped(c: char) -> Seq<char> {
    if c == '"' {
        seq!['\\', '"']
    } else if c == '\\' {
        seq!['\\', '\\']
    } else if c == '\u{08}' {
        seq!['\\', 'b']
    } else if c == '\u{09}' {
        seq!['\\', 't']
    } else if c == '\u{0a}' {
        seq!['\\', 'n']
    } else if c == '\u{0c}' {
        seq!['\\', 'f']
    } else if c == '\u{0d}' {
        seq!['\\', 'r']
    } else if (c as nat) < 0x20 {
        seq!['\\', 'u', '0', '0', text::hex_char(c as nat / 16), text::hex_char(c as nat % 16)]
    } else {
        seq![c]
    }
}

pub open spec fn escaped_text(s: Seq<char>) -> Seq<char>
    decreases s.len(),
{
    if s.len() == 0 {
        Seq::empty()
    } else {
        escaped_text(s.drop_last()) + escaped(s.last())
    }
}

/// A JSON string.
pub open spec fn quoted(s: Seq<char>) -> Seq<char> {
    seq!['"'] + escaped_text(s) + seq!['"']
}

/// Appends a JSON string with minimal escaping.
pub fn write_string(s: &str, out: &mut Vec<char>)
    ensures
        final(out)@ == old(out)@ + quoted(s@),
{
    let v = chars_of(s);
    let ghost start = out@;
    out.push('"');
    let mut i: usize = 0;
    while i < v.len()
        invariant
            v@ == s@,
            i <= v@.len(),
            out@ == start + seq!['"'] + escaped_text(s@.take(i as int)),
        decreases v@.len() - i,
    {
        let c = v[i];
        let ghost before = out@;
        if c == '"' {
            out.push('\\');
            out.push('"');
        } else if c == '\\' {
            out.push('\\');
            out.push('\\');
        } else if c == '\u{08}' {
            out.push('\\');
            out.push('b');
        } else if c == '\u{09}' {
            out.push('\\');
            out.push('t');
        } else if c == '\u{0a}' {
            out.push('\\');
            out.push('n');
        } else if c == '\u{0c}' {
            out.push('\\');
            out.push('f');
        } else if c == '\u{0d}' {
            out.push('\\');
            out.push('r');
        } else if code_point(c) < 0x20 {
            out.push('\\');
            out.push('u');
            let bytes: [u8; 2] = [0, code_point(c) as u8];
            push_hex(out, &bytes);
            proof {
                control_hex(c, bytes@);
            }
        } else {
            out.push(c);
        }
        assert(out@ =~= before + escaped(c));
        i += 1;
        assert(s@.take(i as int).drop_last() =~= s@.take(i - 1));
        assert(out@ =~= start + seq!['"'] + escaped_text(s@.take(i as int)));
    }
    out.push('"');
    assert(s@.take(s@.len() as int) =~= s@);
    assert(out@ =~= start + quoted(s@));
}

proof fn control_hex(c: char, b: Seq<u8>)
    requires
        (c as nat) < 0x20,
        b.len() == 2,
        b[0] == 0,
        b[1] as nat == c as nat,
    ensures
        text::hex(b) == seq!['0', '0', text::hex_char(c as nat / 16), text::hex_char(c as nat % 16)],
{
    text::hex_index(b);
    let h = text::hex(b);
    let zero: int = 0;
    let one: int = 1;
    assert(h[2 * zero] == text::hex_char(b[zero] as nat / 16));
    assert(h[2 * zero + 1] == text::hex_char(b[zero] as nat % 16));
    assert(h[2 * one] == text::hex_char(b[one] as nat / 16));
    assert(h[2 * one + 1] == text::hex_char(b[one] as nat % 16));
    assert(h =~= seq![h[0], h[1], h[2], h[3]]);
    assert(b[0] as nat / 16 == 0 && b[0] as nat % 16 == 0);
    assert(text::hex_char(0) == '0');
}

/// The ES6 text of a number with the given digits whose value is
/// `digits * 10^exponent`.
pub open spec fn es6_layout(digits: Seq<char>, exponent: int) -> Seq<char> {
    let k = digits.len() as int;
    let n = exponent + k;
    if k == 0 {
        seq!['0']
    } else if k <= n && n <= 21 {
        digits + decimal::zeros((n - k) as nat)
    } else if 0 < n && n <= 21 {
        digits.take(n) + seq!['.'] + digits.skip(n)
    } else if -6 < n && n <= 0 {
        seq!['0', '.'] + decimal::zeros((-n) as nat) + digits
    } else {
        scientific(digits, n)
    }
}

/// The exponential form of a number whose first digit has the weight
/// `10^(n - 1)`.
pub open spec fn scientific(digits: Seq<char>, n: int) -> Seq<char> {
    let mantissa = if digits.len() == 1 {
        digits
    } else {
        digits.take(1) + seq!['.'] + digits.skip(1)
    };
    let sign = if n - 1 >= 0 {
        seq!['+']
    } else {
        seq!['-']
    };
    let magnitude = if n - 1 >= 0 {
        n - 1
    } else {
        1 - n
    };
    mantissa + seq!['e'] + sign + crate::text::digits(magnitude as nat)
}

/// The ES6 text of a number.
pub open spec fn es6_text(negative: bool, digits: Seq<char>, exponent: int) -> Seq<char> {
    if negative && digits.len() > 0 {
        seq!['-'] + es6_layout(digits, exponent)
    } else {
        es6_layout(digits, exponent)
    }
}

fn push_zeros(out: &mut Vec<char>, n: u32)
    ensures
        final(out)@ == old(out)@ + decimal::zeros(n as nat),
{
    let ghost start = out@;
    let mut i: u32 = 0;
    assert(start + decimal::zeros(0) =~= start);
    while i < n
        invariant
            i <= n,
            out@ == start + decimal::zeros(i as nat),
        decreases n - i,
    {
        out.push('0');
        i += 1;
        assert(start + decimal::zeros(i as nat) =~= (start + decimal::zeros((i - 1) as nat)).push('0'));
    }
}

/// Appends `d.ddde+x`.
fn push_scientific(s: &Vec<char>, n: i128, out: &mut Vec<char>)
    requires
        s@.len() > 0,
        i32::MIN <= n <= i32::MAX + s@.len(),
    ensures
        final(out)@ == old(out)@ + scientific(s@, n as int),
{
    let ghost head = out@;
    let k = s.len();
    append_chars(out, s, 0, 1);
    if k > 1 {
        out.push('.');
        append_chars(out, s, 1, k);
    }
    let ghost mantissa = if k == 1 {
        s@
    } else {
        s@.take(1) + seq!['.'] + s@.skip(1)
    };
    assert(out@ =~= head + mantissa);
    out.push('e');
    let ghost tail = out@;
    let e: i128 = n - 1;
    if e >= 0 {
        out.push('+');
    } else {
        out.push('-');
    }
    let d = digits_text(
        if e >= 0 {
            e as u128
        } else {
            (-e) as u128
        },
    );
    append_chars(out, &d, 0, d.len());
    assert(d@.subrange(0, d@.len() as int) =~= d@);
    assert(out@ =~= head + scientific(s@, n as int));
}

/// Appends the ES6 layout of a number.
fn push_layout(s: &Vec<char>, exponent: i32, out: &mut Vec<char>)
    ensures
        final(out)@ == old(out)@ + es6_layout(s@, exponent as int),
{
    let ghost head = out@;
    let k = s.len();
    let n: i128 = exponent as i128 + k as i128;
    if k == 0 {
        out.push('0');
        assert(out@ =~= head + seq!['0']);
    } else if k as i128 <= n && n <= 21 {
        append_chars(out, s, 0, k);
        push_zeros(out, (n - k as i128) as u32);
        assert(s@.subrange(0, k as int) =~= s@);
        assert(out@ =~= head + (s@ + decimal::zeros((n - k) as nat)));
    } else if 0 < n && n <= 21 {
        append_chars(out, s, 0, n as usize);
        out.push('.');
        append_chars(out, s, n as usize, k);
        assert(out@ =~= head + (s@.take(n as int) + seq!['.'] + s@.skip(n as int)));
    } else if -6 < n && n <= 0 {
        out.push('0');
        out.push('.');
        push_zeros(out, (-n) as u32);
        append_chars(out, s, 0, k);
        assert(s@.subrange(0, k as int) =~= s@);
        assert(out@ =~= head + (seq!['0', '.'] + decimal::zeros((-n) as nat) + s@));
    } else {
        push_scientific(s, n, out);
    }
}

/// Appends the ES6 text of a number.
pub fn format_es6_number(negative: bool, digits: &str, exponent: i32, out: &mut Vec<char>)
    ensures
        final(out)@ == old(out)@ + es6_text(negative, digits@, exponent as int),
{
    let ghost start = out@;
    let s = chars_of(digits);
    if negative && s.len() > 0 {
        out.push('-');
    }
    push_layout(&s, exponent, out);
    assert(out@ =~= start + es6_text(negative, digits@, exponent as int));
}

/// The decimal text of an integer.
pub open spec fn int_text(i: int) -> Seq<char> {
    if i < 0 {
        seq!['-'] + crate::text::digits((-i) as nat)
    } else {
        crate::text::digits(i as nat)
    }
}

/// Appends the decimal text of an integer.
pub fn push_int(out: &mut Vec<char>, i: i64)
    ensures
        final(out)@ == old(out)@ + int_text(i as int),
{
    let ghost start = out@;
    let n: u128 = if i < 0 {
        out.push('-');
        (-(i as i128)) as u128
    } else {
        i as u128
    };
    let d = digits_text(n);
    append_chars(out, &d, 0, d.len());
    assert(d@.subrange(0, d@.len() as int) =~= d@);
    assert(out@ =~= start + int_text(i as int));
}

/// The JCS text of a value.
pub open spec fn jcs(v: CanonicalValueModel) -> Result<Seq<char>, CanonicalError>
    decreases v,
{
    match v {
        CanonicalValueModel::Null => Ok("null"@),
        CanonicalValueModel::Bool(b) => Ok(
            if b {
                "true"@
            } else {
                "false"@
            },
        ),
        CanonicalValueModel::Int(i) => if -MAX_SAFE_INTEGER <= i <= MAX_SAFE_INTEGER {
            Ok(int_text(i as int))
        } else {
            Err(CanonicalError::UnsafeInteger(i))
        },
        CanonicalValueModel::Float(f) => match f {
            FloatModel::Finite { negative, digits, exponent } => Ok(
                es6_text(negative, digits, exponent as int),
            ),
            FloatModel::NonFinite => Err(CanonicalError::NonFiniteNumber),
        },
        CanonicalValueModel::String(s) => Ok(quoted(s)),
        CanonicalValueModel::Array(items) => match jcs_items(items) {
            Ok(t) => Ok(seq!['['] + t + seq![']']),
            Err(e) => Err(e),
        },
        CanonicalValueModel::Object(members) => match jcs_members(members) {
            Ok(t) => Ok(seq!['{'] + t + seq!['}']),
            Err(e) => Err(e),
        },
    }
}

/// Array items, separated by commas.
pub open spec fn jcs_items(items: Seq<CanonicalValueModel>) -> Result<Seq<char>, CanonicalError>
    decreases items,
{
    if items.len() == 0 {
        Ok(Seq::empty())
    } else {
        match jcs_items(items.drop_last()) {
            Ok(t) => match jcs(items.last()) {
                Ok(u) => Ok(separated(t, items.len() > 1) + u),
                Err(e) => Err(e),
            },
            Err(e) => Err(e),
        }
    }
}

/// Object members, separated by commas.
pub open spec fn jcs_members(
    members: Seq<(Seq<char>, CanonicalValueModel)>,
) -> Result<Seq<char>, CanonicalError>
    decreases members,
{
    if members.len() == 0 {
        Ok(Seq::empty())
    } else {
        match jcs_members(members.drop_last()) {
            Ok(t) => match jcs(members.last().1) {
                Ok(u) => Ok(
                    separated(t, members.len() > 1) + quoted(members.last().0) + seq![':'] + u,
                ),
                Err(e) => Err(e),
            },
            Err(e) => Err(e),
        }
    }
}

pub open spec fn separated(t: Seq<char>, more: bool) -> Seq<char> {
    if more {
        t.push(',')
    } else {
        t
    }
}

/// An error among the first items is the error of all.
proof fn jcs_items_error(items: Seq<CanonicalValueModel>, i: int, e: CanonicalError)
    requires
        0 <= i <= items.len(),
        jcs_items(items.take(i)) == Err::<Seq<char>, CanonicalError>(e),
    ensures
        jcs_items(items) == Err::<Seq<char>, CanonicalError>(e),
    decreases items.len() - i,
{
    if i == items.len() {
        assert(items.take(i) =~= items);
    } else {
        assert(items.take(i + 1).drop_last() =~= items.take(i));
        jcs_items_error(items, i + 1, e);
    }
}

proof fn jcs_members_error(
    members: Seq<(Seq<char>, CanonicalValueModel)>,
    i: int,
    e: CanonicalError,
)
    requires
        0 <= i <= members.len(),
        jcs_members(members.take(i)) == Err::<Seq<char>, CanonicalError>(e),
    ensures
        jcs_members(members) == Err::<Seq<char>, CanonicalError>(e),
    decreases members.len() - i,
{
    if i == members.len() {
        assert(members.take(i) =~= members);
    } else {
        assert(members.take(i + 1).drop_last() =~= members.take(i));
        jcs_members_error(members, i + 1, e);
    }
}

/// Appends the JCS text of a value.
fn write_value(value: &CanonicalValue, out: &mut Vec<char>) -> (r: Result<(), CanonicalError>)
    ensures
        match r {
            Ok(_) => jcs(value@) is Ok && final(out)@ == old(out)@ + jcs(value@)->Ok_0,
            Err(e) => jcs(value@) == Err::<Seq<char>, CanonicalError>(e),
        },
    decreases value,
{
    match value {
        CanonicalValue::Null => push_text(out, "null"),
        CanonicalValue::Bool(b) => {
            if *b {
                push_text(out, "true")
            } else {
                push_text(out, "false")
            }
        },
        CanonicalValue::Int(i) => {
            if *i > MAX_SAFE_INTEGER || *i < -MAX_SAFE_INTEGER {
                return Err(CanonicalError::UnsafeInteger(*i));
            }
            push_int(out, *i);
        },
        CanonicalValue::Float(f) => match f {
            Float::Finite { negative, digits, exponent } => {
                format_es6_number(*negative, digits.as_str(), *exponent, out);
            },
            Float::NonFinite => {
                return Err(CanonicalError::NonFiniteNumber);
            },
        },
        CanonicalValue::String(s) => write_string(s.as_str(), out),
        CanonicalValue::Array(items) => {
            return write_items(items, out);
        },
        CanonicalValue::Object(m) => {
            return write_members(m, out);
        },
    }
    Ok(())
}

fn write_items(items: &Vec<CanonicalValue>, out: &mut Vec<char>) -> (r: Result<
    (),
    CanonicalError,
>)
    ensures
        match r {
            Ok(_) => jcs_items(items_model(items@)) is Ok && final(out)@ == old(out)@ + seq!['[']
                + jcs_items(items_model(items@))->Ok_0 + seq![']'],
            Err(e) => jcs_items(items_model(items@)) == Err::<Seq<char>, CanonicalError>(e),
        },
    decreases items,
{
    let ghost start = out@;
    let ghost s = items_model(items@);
    out.push('[');
    let mut i: usize = 0;
    assert(s.take(0) =~= Seq::<CanonicalValueModel>::empty());
    assert(out@ =~= start + seq!['['] + Seq::<char>::empty());
    while i < items.len()
        invariant
            i <= items@.len(),
            s == items_model(items@),
            jcs_items(s.take(i as int)) is Ok,
            out@ == start + seq!['['] + jcs_items(s.take(i as int))->Ok_0,
        decreases items@.len() - i,
    {
        let ghost t = jcs_items(s.take(i as int))->Ok_0;
        if i > 0 {
            out.push(',');
        }
        assert(out@ =~= start + seq!['['] + separated(t, i > 0));
        let ghost mid = out@;
        assert(s.take(i + 1).drop_last() =~= s.take(i as int));
        assert(s.take(i + 1).last() == items@[i as int]@);
        match write_value(&items[i], out) {
            Ok(_) => {},
            Err(e) => {
                proof {
                    jcs_items_error(s, i + 1, e);
                }
                return Err(e);
            },
        }
        i += 1;
        assert(out@ =~= start + seq!['['] + jcs_items(s.take(i as int))->Ok_0);
    }
    assert(s.take(s.len() as int) =~= s);
    out.push(']');
    assert(out@ =~= start + seq!['['] + jcs_items(s)->Ok_0 + seq![']']);
    Ok(())
}

fn write_members(m: &Members, out: &mut Vec<char>) -> (r: Result<(), CanonicalError>)
    ensures
        match r {
            Ok(_) => jcs_members(m@) is Ok && final(out)@ == old(out)@ + seq!['{']
                + jcs_members(m@)->Ok_0 + seq!['}'],
            Err(e) => jcs_members(m@) == Err::<Seq<char>, CanonicalError>(e),
        },
    decreases m,
{
    let ghost start = out@;
    let ghost s = m@;
    out.push('{');
    let mut i: usize = 0;
    assert(s.take(0) =~= Seq::<(Seq<char>, CanonicalValueModel)>::empty());
    assert(out@ =~= start + seq!['{'] + Seq::<char>::empty());
    while i < m.entries.len()
        invariant
            i <= m.entries@.len(),
            s == m@,
            s.len() == m.entries@.len(),
            jcs_members(s.take(i as int)) is Ok,
            out@ == start + seq!['{'] + jcs_members(s.take(i as int))->Ok_0,
        decreases m.entries@.len() - i,
    {
        let ghost t = jcs_members(s.take(i as int))->Ok_0;
        if i > 0 {
            out.push(',');
        }
        write_string(m.entries[i].0.as_str(), out);
        out.push(':');
        assert(s.take(i + 1).drop_last() =~= s.take(i as int));
        assert(s.take(i + 1).last() == s[i as int]);
        assert(out@ =~= start + seq!['{'] + (separated(t, i > 0) + quoted(s[i as int].0)
            + seq![':']));
        match write_value(&m.entries[i].1, out) {
            Ok(_) => {},
            Err(e) => {
                proof {
                    jcs_members_error(s, i + 1, e);
                }
                return Err(e);
            },
        }
        i += 1;
        assert(out@ =~= start + seq!['{'] + jcs_members(s.take(i as int))->Ok_0);
    }
    assert(s.take(s.len() as int) =~= s);
    out.push('}');
    assert(out@ =~= start + seq!['{'] + jcs_members(s)->Ok_0 + seq!['}']);
    Ok(())
}

/// The canonical bytes of a value: its JCS text in UTF-8.
pub open spec fn canonical(v: CanonicalValueModel) -> Result<Seq<u8>, CanonicalError> {
    match jcs(v) {
        Ok(t) => Ok(encode_utf8(t)),
        Err(e) => Err(e),
    }
}

/// The JCS text of a value.
pub fn canonical_text(value: &CanonicalValue) -> (r: Result<String, CanonicalError>)
    ensures
        match r {
            Ok(t) => jcs(value@) == Ok::<Seq<char>, CanonicalError>(t@),
            Err(e) => jcs(value@) == Err::<Seq<char>, CanonicalError>(e),
        },
{
    let mut out: Vec<char> = Vec::new();
    match write_value(value, &mut out) {
        Ok(_) => {},
        Err(e) => {
            return Err(e);
        },
    }
    assert(out@ =~= jcs(value@)->Ok_0);
    Ok(text_of(&out))
}

/// RFC 8785 canonical bytes.
pub fn canonical_bytes(value: &CanonicalValue) -> (r: Result<Vec<u8>, CanonicalError>)
    ensures
        match r {
            Ok(b) => canonical(value@) == Ok::<Seq<u8>, CanonicalError>(b@),
            Err(e) => canonical(value@) == Err::<Seq<u8>, CanonicalError>(e),
        },
{
    match canonical_text(value) {
        Ok(t) => Ok(utf8_bytes(&t)),
        Err(e) => Err(e),
    }
}

/// The UTF-8 bytes of a text.
pub fn utf8_bytes(s: &String) -> (r: Vec<u8>)
    ensures
        r@ == encode_utf8(s@),
{
    let b = s.as_str().as_bytes();
    let mut r: Vec<u8> = Vec::new();
    push_bytes(&mut r, b);
    assert(r@ =~= b@);
    r
}

/// Appends some bytes.
pub fn push_bytes(out: &mut Vec<u8>, bytes: &[u8])
    ensures
        final(out)@ == old(out)@ + bytes@,
{
    let ghost start = out@;
    let mut i: usize = 0;
    assert(start + bytes@.take(0) =~= start);
    while i < bytes.len()
        invariant
            i <= bytes@.len(),
            out@ == start + bytes@.take(i as int),
        decreases bytes@.len() - i,
    {
        out.push(bytes[i]);
        i += 1;
        assert(start + bytes@.take(i as int) =~= (start + bytes@.take(i - 1)).push(bytes@[i - 1]));
    }
    assert(bytes@.take(bytes@.len() as int) =~= bytes@);
}

/// The algorithm of a content address.
#[derive(Clone, Copy, Debug, PartialEq, Eq, Structural)]
pub enum HashAlg {
    Sha256,
}

impl DeepView for HashAlg {
    type V = HashAlg;

    open spec fn deep_view(&self) -> HashAlg {
        *self
    }
}

impl View for HashAlg {
    type V = HashAlg;

    open spec fn view(&self) -> HashAlg {
        *self
    }
}

impl Modeled for HashAlg {
    fn dup(&self) -> (r: Self) {
        *self
    }

    fn same(&self, other: &Self) -> (b: bool) {
        *self == *other
    }
}

impl HashAlg {
    /// The text in front of an address's digits.
    pub fn tag(self) -> (r: &'static str)
        ensures
            r@ == "sha256"@,
    {
        match self {
            HashAlg::Sha256 => "sha256",
        }
    }
}

/// A content address: algorithm tag plus digest.
#[derive(Clone, Copy, Debug, PartialEq, Eq)]
pub struct ContentHash {
    pub alg: HashAlg,
    pub digest: [u8; 32],
}

impl DeepView for ContentHash {
    type V = Seq<u8>;

    open spec fn deep_view(&self) -> Seq<u8> {
        self.digest@
    }
}

impl View for ContentHash {
    type V = Seq<u8>;

    open spec fn view(&self) -> Seq<u8> {
        self.digest@
    }
}

impl Modeled for ContentHash {
    fn dup(&self) -> (r: Self) {
        *self
    }

    fn same(&self, other: &Self) -> (b: bool) {
        let o = self.compare(other);
        proof {
            hashes_are_ordered(self@, other@);
            order::seq_order_equal::<u8>(self@, other@);
        }
        o == Order::Equal
    }
}

/// Addresses are ordered by the bytes of their digests.
pub proof fn hashes_are_ordered(a: Seq<u8>, b: Seq<u8>)
    ensures
        ContentHash::order(a, b) == order::seq_order::<u8>(a, b),
{
}

impl Key for ContentHash {
    open spec fn order(a: Seq<u8>, b: Seq<u8>) -> Order {
        order::seq_order::<u8>(a, b)
    }

    proof fn order_equal(a: Seq<u8>, b: Seq<u8>) {
        order::seq_order_equal::<u8>(a, b);
    }

    proof fn order_flip(a: Seq<u8>, b: Seq<u8>) {
        order::seq_order_flip::<u8>(a, b);
    }

    proof fn order_transitive(a: Seq<u8>, b: Seq<u8>, c: Seq<u8>) {
        order::seq_order_transitive::<u8>(a, b, c);
    }

    fn compare(&self, other: &Self) -> (o: Order) {
        let a: &[u8] = &self.digest;
        let b: &[u8] = &other.digest;
        assert(order::models(a@) =~= self.digest@);
        assert(order::models(b@) =~= other.digest@);
        let o = compare_slices::<u8>(a, b);
        proof {
            hashes_are_ordered(self.deep_view(), other.deep_view());
        }
        o
    }
}

/// The text of a content address.
pub open spec fn hash_text(digest: Seq<u8>) -> Seq<char> {
    "sha256:"@ + text::hex(digest)
}

/// The digest that the text of a content address names.
pub open spec fn hash_of_text(s: Seq<char>) -> Option<Seq<u8>> {
    if s.len() == 7 + 64 && s.take(7) == "sha256:"@ {
        text::unhex(s.skip(7))
    } else {
        None
    }
}

/// Reading back the text of an address gives that address, and an
/// address has no other text.
pub proof fn hash_text_reads_back(digest: Seq<u8>, s: Seq<char>)
    requires
        digest.len() == 32,
    ensures
        hash_of_text(hash_text(digest)) == Some(digest),
        hash_of_text(s) matches Some(d) ==> hash_text(d) == s && d.len() == 32,
{
    reveal_strlit("sha256:");
    text::hex_index(digest);
    text::unhex_of_hex(digest);
    assert(hash_text(digest).take(7) =~= "sha256:"@);
    assert(hash_text(digest).skip(7) =~= text::hex(digest));
    if hash_of_text(s) is Some {
        text::hex_of_unhex(s.skip(7));
        assert(s =~= s.take(7) + s.skip(7));
    }
}

/// The text is not `sha256:` and 64 lower-case hexadecimal digits.
#[derive(Clone, Copy, Debug, PartialEq, Eq, Structural)]
pub struct ParseHashError {}

impl DeepView for ParseHashError {
    type V = ParseHashError;

    open spec fn deep_view(&self) -> ParseHashError {
        *self
    }
}

impl View for ParseHashError {
    type V = ParseHashError;

    open spec fn view(&self) -> ParseHashError {
        *self
    }
}

impl Modeled for ParseHashError {
    fn dup(&self) -> (r: Self) {
        *self
    }

    fn same(&self, other: &Self) -> (b: bool) {
        *self == *other
    }
}

impl ContentHash {
    /// `sha256:` and the digest in hexadecimal.
    pub fn to_string(&self) -> (r: String)
        ensures
            r@ == hash_text(self@),
    {
        let mut out: Vec<char> = Vec::new();
        push_text(&mut out, self.alg.tag());
        out.push(':');
        push_hex(&mut out, &self.digest);
        proof {
            reveal_strlit("sha256");
            reveal_strlit("sha256:");
        }
        assert(out@ =~= hash_text(self@));
        text_of(&out)
    }

    /// Lower-case digits only: one address, one text.
    pub fn from_str(s: &str) -> (r: Result<Self, ParseHashError>)
        ensures
            match r {
                Ok(h) => hash_of_text(s@) == Some(h@),
                Err(_) => hash_of_text(s@) is None,
            },
    {
        let v = chars_of(s);
        if v.len() != 71 {
            return Err(ParseHashError {  });
        }
        let prefix = chars_of("sha256:");
        proof {
            reveal_strlit("sha256:");
        }
        let mut i: usize = 0;
        while i < 7
            invariant
                i <= 7,
                v@ == s@,
                v@.len() == 71,
                prefix@ == "sha256:"@,
                prefix@.len() == 7,
                forall|j: int| 0 <= j < i ==> #[trigger] v@[j] == prefix@[j],
            decreases 7 - i,
        {
            if v[i] != prefix[i] {
                assert(s@.take(7)[i as int] != prefix@[i as int]);
                return Err(ParseHashError {  });
            }
            i += 1;
        }
        assert(s@.take(7) =~= "sha256:"@);
        match read_hex(&v, 7) {
            Some(bytes) => {
                let mut digest: [u8; 32] = [0;32];
                let mut k: usize = 0;
                while k < 32
                    invariant
                        k <= 32,
                        bytes@.len() == 32,
                        digest@.len() == 32,
                        forall|j: int| 0 <= j < k ==> #[trigger] digest@[j] == bytes@[j],
                    decreases 32 - k,
                {
                    digest[k] = bytes[k];
                    k += 1;
                }
                assert(digest@ =~= bytes@);
                Ok(ContentHash { alg: HashAlg::Sha256, digest })
            },
            None => Err(ParseHashError {  }),
        }
    }
}

/// The SHA-256 digest of some bytes.
pub uninterp spec fn sha256_digest(data: Seq<u8>) -> Seq<u8>;

/// `sha2::Sha256::digest`: the SHA-256 digest of the bytes.
#[verifier::external_body]
fn sha2_digest(data: &[u8]) -> (r: [u8; 32])
    ensures
        r@ == sha256_digest(data@),
{
    <sha2::Sha256 as sha2::Digest>::digest(data).into()
}

/// Whether two different byte strings have one digest.
pub open spec fn collide(x: Seq<u8>, y: Seq<u8>) -> bool {
    x != y && sha256_digest(x) == sha256_digest(y)
}

/// Several byte strings, one behind the other.
pub open spec fn concatenated(parts: Seq<&[u8]>) -> Seq<u8>
    decreases parts.len(),
{
    if parts.len() == 0 {
        Seq::empty()
    } else {
        concatenated(parts.drop_last()) + parts.last()@
    }
}

/// The address of several byte strings, hashed one behind the other.
pub fn sha256(parts: &[&[u8]]) -> (r: ContentHash)
    ensures
        r@ == sha256_digest(concatenated(parts@)),
{
    let mut data: Vec<u8> = Vec::new();
    let mut i: usize = 0;
    assert(parts@.take(0) =~= Seq::<&[u8]>::empty());
    while i < parts.len()
        invariant
            i <= parts@.len(),
            data@ == concatenated(parts@.take(i as int)),
        decreases parts@.len() - i,
    {
        push_bytes(&mut data, parts[i]);
        i += 1;
        assert(parts@.take(i as int).drop_last() =~= parts@.take(i - 1));
    }
    assert(parts@.take(parts@.len() as int) =~= parts@);
    ContentHash { alg: HashAlg::Sha256, digest: sha2_digest(data.as_slice()) }
}

/// The plain address of a value.
pub open spec fn plain_hash(v: CanonicalValueModel) -> Result<Seq<u8>, CanonicalError> {
    match canonical(v) {
        Ok(b) => Ok(sha256_digest(b)),
        Err(e) => Err(e),
    }
}

/// Plain hash, for schema objects. Never for record data: values would be
/// guessable after erasure.
pub fn hash_plain(value: &CanonicalValue) -> (r: Result<ContentHash, CanonicalError>)
    ensures
        order::result_model(r) == plain_hash(value@),
{
    match canonical_bytes(value) {
        Ok(b) => Ok(
            ContentHash { alg: HashAlg::Sha256, digest: sha2_digest(b.as_slice()) },
        ),
        Err(e) => Err(e),
    }
}

/// Thirty-two bytes of salt, always an input: stored with the content it
/// commits and destroyed with it.
#[derive(Clone, Copy, Debug, PartialEq, Eq)]
pub struct Salt(pub [u8; 32]);

impl DeepView for Salt {
    type V = Seq<u8>;

    open spec fn deep_view(&self) -> Seq<u8> {
        self.0@
    }
}

impl View for Salt {
    type V = Seq<u8>;

    open spec fn view(&self) -> Seq<u8> {
        self.0@
    }
}

impl Modeled for Salt {
    fn dup(&self) -> (r: Self) {
        *self
    }

    fn same(&self, other: &Self) -> (b: bool) {
        let a: &[u8] = &self.0;
        let b: &[u8] = &other.0;
        assert(order::models(a@) =~= self.0@);
        assert(order::models(b@) =~= other.0@);
        let o = compare_slices::<u8>(a, b);
        proof {
            order::seq_order_equal::<u8>(self@, other@);
        }
        o == Order::Equal
    }
}

/// The address of a value committed under a salt: the digest of the salt
/// followed by the canonical bytes.
pub open spec fn commitment(salt: Seq<u8>, v: CanonicalValueModel) -> Result<
    Seq<u8>,
    CanonicalError,
> {
    match canonical(v) {
        Ok(b) => Ok(sha256_digest(salt + b)),
        Err(e) => Err(e),
    }
}

/// Salted commitment, for record content.
pub fn commit(salt: &Salt, value: &CanonicalValue) -> (r: Result<ContentHash, CanonicalError>)
    ensures
        order::result_model(r) == commitment(salt@, value@),
{
    match canonical_bytes(value) {
        Ok(b) => {
            let mut data: Vec<u8> = Vec::new();
            push_bytes(&mut data, &salt.0);
            push_bytes(&mut data, b.as_slice());
            assert(data@ =~= salt@ + b@);
            Ok(ContentHash { alg: HashAlg::Sha256, digest: sha2_digest(data.as_slice()) })
        },
        Err(e) => Err(e),
    }
}

/// The list of some addresses' texts.
pub open spec fn hash_list(hashes: Seq<Seq<u8>>) -> CanonicalValueModel {
    CanonicalValueModel::Array(
        Seq::new(hashes.len(), |i: int| CanonicalValueModel::String(hash_text(hashes[i]))),
    )
}

/// The address of a list of commitments.
pub open spec fn vector_commitment(hashes: Seq<Seq<u8>>) -> Seq<u8> {
    sha256_digest(canonical(hash_list(hashes))->Ok_0)
}

proof fn strings_never_fail(items: Seq<CanonicalValueModel>)
    requires
        forall|i: int| 0 <= i < items.len() ==> #[trigger] items[i] is String,
    ensures
        jcs_items(items) is Ok,
    decreases items.len(),
{
    if items.len() > 0 {
        strings_never_fail(items.drop_last());
        assert(items.last() is String);
        assert(jcs(items.last()) is Ok);
    }
}

/// Vector commitment over commitments. A filtered export discloses some
/// of them as content and salt and withholds others; the address is
/// verified the same way either way.
pub fn commit_vector(commitments: &[ContentHash]) -> (r: ContentHash)
    ensures
        r@ == vector_commitment(order::models(commitments@)),
{
    let mut items: Vec<CanonicalValue> = Vec::new();
    let mut i: usize = 0;
    while i < commitments.len()
        invariant
            i <= commitments@.len(),
            items@.len() == i,
            forall|j: int|
                0 <= j < i ==> value_model(#[trigger] items@[j]) == CanonicalValueModel::String(
                    hash_text(commitments@[j]@),
                ),
        decreases commitments@.len() - i,
    {
        items.push(CanonicalValue::String(commitments[i].to_string()));
        i += 1;
    }
    let list = CanonicalValue::Array(items);
    proof {
        assert(items_model(items@) =~= hash_list(order::models(commitments@))->Array_0);
        strings_never_fail(items_model(items@));
    }
    match hash_plain(&list) {
        Ok(h) => h,
        Err(_) => {
            assert(false);
            ContentHash { alg: HashAlg::Sha256, digest: [0;32] }
        },
    }
}

} // verus!
