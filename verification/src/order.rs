//! Total orders, and the copying and comparing that every data type of
//! the library offers over its mathematical model.

use vstd::prelude::*;
use vstd::utf8::*;

verus! {

/// How one value stands to another.
#[derive(Clone, Copy, Debug, PartialEq, Eq, Structural)]
pub enum Order {
    Less,
    Equal,
    Greater,
}

impl Order {
    /// The same comparison seen from the other side.
    pub open spec fn flip(self) -> Order {
        match self {
            Order::Less => Order::Greater,
            Order::Equal => Order::Equal,
            Order::Greater => Order::Less,
        }
    }

    /// Lexicographic composition: `other` decides only a tie.
    pub open spec fn or(self, other: Order) -> Order {
        match self {
            Order::Equal => other,
            o => o,
        }
    }
}

/// A data type with a mathematical model (its deep view): values are
/// copied and compared by that model.
pub trait Modeled: DeepView + Sized {
    /// A copy with the same model.
    fn dup(&self) -> (r: Self)
        ensures
            r.deep_view() == self.deep_view(),
    ;

    /// Whether the two values have one model.
    fn same(&self, other: &Self) -> (b: bool)
        ensures
            b == (self.deep_view() == other.deep_view()),
    ;
}

/// A data type whose models are totally ordered.
pub trait Key: Modeled {
    spec fn order(a: Self::V, b: Self::V) -> Order;

    proof fn order_equal(a: Self::V, b: Self::V)
        ensures
            (Self::order(a, b) == Order::Equal) == (a == b),
    ;

    proof fn order_flip(a: Self::V, b: Self::V)
        ensures
            Self::order(b, a) == Self::order(a, b).flip(),
    ;

    proof fn order_transitive(a: Self::V, b: Self::V, c: Self::V)
        requires
            Self::order(a, b) == Order::Less,
            Self::order(b, c) == Order::Less,
        ensures
            Self::order(a, c) == Order::Less,
    ;

    fn compare(&self, other: &Self) -> (o: Order)
        ensures
            o == Self::order(self.deep_view(), other.deep_view()),
    ;
}

/// Lexicographic order of sequences.
pub open spec fn seq_order<K: Key>(a: Seq<K::V>, b: Seq<K::V>) -> Order
    decreases a.len(),
{
    if a.len() == 0 {
        if b.len() == 0 {
            Order::Equal
        } else {
            Order::Less
        }
    } else if b.len() == 0 {
        Order::Greater
    } else {
        K::order(a[0], b[0]).or(seq_order::<K>(a.drop_first(), b.drop_first()))
    }
}

pub proof fn seq_order_equal<K: Key>(a: Seq<K::V>, b: Seq<K::V>)
    ensures
        (seq_order::<K>(a, b) == Order::Equal) == (a == b),
    decreases a.len(),
{
    if a.len() > 0 && b.len() > 0 {
        K::order_equal(a[0], b[0]);
        seq_order_equal::<K>(a.drop_first(), b.drop_first());
        if a[0] == b[0] && a.drop_first() == b.drop_first() {
            assert(a =~= seq![a[0]] + a.drop_first());
            assert(b =~= seq![b[0]] + b.drop_first());
        }
    } else {
        assert((a == b) == (a =~= b));
    }
}

pub proof fn seq_order_flip<K: Key>(a: Seq<K::V>, b: Seq<K::V>)
    ensures
        seq_order::<K>(b, a) == seq_order::<K>(a, b).flip(),
    decreases a.len(),
{
    if a.len() > 0 && b.len() > 0 {
        K::order_flip(a[0], b[0]);
        seq_order_flip::<K>(a.drop_first(), b.drop_first());
    }
}

pub proof fn seq_order_transitive<K: Key>(a: Seq<K::V>, b: Seq<K::V>, c: Seq<K::V>)
    requires
        seq_order::<K>(a, b) == Order::Less,
        seq_order::<K>(b, c) == Order::Less,
    ensures
        seq_order::<K>(a, c) == Order::Less,
    decreases a.len(),
{
    if a.len() > 0 && b.len() > 0 && c.len() > 0 {
        K::order_equal(a[0], b[0]);
        K::order_equal(b[0], c[0]);
        if K::order(a[0], b[0]) == Order::Less && K::order(b[0], c[0]) == Order::Less {
            K::order_transitive(a[0], b[0], c[0]);
        } else if a[0] == b[0] && b[0] == c[0] {
            seq_order_transitive::<K>(a.drop_first(), b.drop_first(), c.drop_first());
        }
    }
}

/// Compares two slices of keys lexicographically.
pub fn compare_slices<K: Key>(a: &[K], b: &[K]) -> (o: Order)
    ensures
        o == seq_order::<K>(models(a@), models(b@)),
{
    let mut i: usize = 0;
    assert(models(a@).skip(0) =~= models(a@));
    assert(models(b@).skip(0) =~= models(b@));
    while i < a.len() && i < b.len()
        invariant
            i <= a.len(),
            i <= b.len(),
            seq_order::<K>(models(a@), models(b@)) == seq_order::<K>(
                models(a@).skip(i as int),
                models(b@).skip(i as int),
            ),
        decreases a.len() - i,
    {
        let ghost x = models(a@).skip(i as int);
        let ghost y = models(b@).skip(i as int);
        let o = a[i].compare(&b[i]);
        assert(x[0] == a@[i as int].deep_view());
        assert(y[0] == b@[i as int].deep_view());
        if o != Order::Equal {
            return o;
        }
        i += 1;
        assert(x.drop_first() =~= models(a@).skip(i as int));
        assert(y.drop_first() =~= models(b@).skip(i as int));
    }
    assert(i == a.len() ==> models(a@).skip(i as int).len() == 0);
    assert(i == b.len() ==> models(b@).skip(i as int).len() == 0);
    if i < a.len() {
        Order::Greater
    } else if i < b.len() {
        Order::Less
    } else {
        Order::Equal
    }
}

/// The models of a sequence's items.
pub open spec fn models<T: DeepView>(s: Seq<T>) -> Seq<T::V> {
    Seq::new(s.len(), |i: int| s[i].deep_view())
}

/// The models of a result's two sides.
pub open spec fn result_model<T: DeepView, E: DeepView>(r: Result<T, E>) -> Result<T::V, E::V> {
    match r {
        Ok(x) => Ok(x.deep_view()),
        Err(e) => Err(e.deep_view()),
    }
}

/// Copies a vector item by item.
pub fn dup_vec<T: Modeled>(v: &Vec<T>) -> (r: Vec<T>)
    ensures
        r.deep_view() == v.deep_view(),
{
    dup_slice(v.as_slice())
}

/// Copies a slice into a vector item by item.
pub fn dup_slice<T: Modeled>(v: &[T]) -> (r: Vec<T>)
    ensures
        r.deep_view() == models(v@),
{
    let mut r: Vec<T> = Vec::new();
    let mut i: usize = 0;
    while i < v.len()
        invariant
            i <= v.len(),
            r@.len() == i,
            forall|j: int| 0 <= j < i ==> (#[trigger] r@[j]).deep_view() == v@[j].deep_view(),
        decreases v.len() - i,
    {
        r.push(v[i].dup());
        i += 1;
    }
    assert(r.deep_view() =~= models(v@));
    r
}

/// Whether two vectors have the same models in the same places.
pub fn same_vec<T: Modeled>(a: &Vec<T>, b: &Vec<T>) -> (r: bool)
    ensures
        r == (a.deep_view() == b.deep_view()),
{
    if a.len() != b.len() {
        assert(a.deep_view().len() != b.deep_view().len());
        return false;
    }
    let mut i: usize = 0;
    while i < a.len()
        invariant
            i <= a.len(),
            a.len() == b.len(),
            forall|j: int| 0 <= j < i ==> (#[trigger] a@[j]).deep_view() == b@[j].deep_view(),
        decreases a.len() - i,
    {
        if !a[i].same(&b[i]) {
            assert(a.deep_view()[i as int] != b.deep_view()[i as int]);
            return false;
        }
        i += 1;
    }
    assert(a.deep_view() =~= b.deep_view());
    true
}

/// Whether a vector holds an item with the model of `x`.
pub fn contains_model<T: Modeled>(v: &Vec<T>, x: &T) -> (r: bool)
    ensures
        r == v.deep_view().contains(x.deep_view()),
{
    let mut i: usize = 0;
    while i < v.len()
        invariant
            i <= v.len(),
            forall|j: int| 0 <= j < i ==> (#[trigger] v@[j]).deep_view() != x.deep_view(),
        decreases v.len() - i,
    {
        if v[i].same(x) {
            assert(v.deep_view()[i as int] == x.deep_view());
            return true;
        }
        i += 1;
    }
    assert forall|j: int| 0 <= j < v.deep_view().len() implies v.deep_view()[j]
        != x.deep_view() by {
        assert(v.deep_view()[j] == v@[j].deep_view());
    }
    false
}

impl<T: Modeled> Modeled for Vec<T> {
    fn dup(&self) -> (r: Self) {
        dup_vec(self)
    }

    fn same(&self, other: &Self) -> (b: bool) {
        same_vec(self, other)
    }
}

impl<T: Modeled> Modeled for Option<T> {
    fn dup(&self) -> (r: Self) {
        match self {
            Some(x) => Some(x.dup()),
            None => None,
        }
    }

    fn same(&self, other: &Self) -> (b: bool) {
        match (self, other) {
            (Some(x), Some(y)) => x.same(y),
            (None, None) => true,
            _ => false,
        }
    }
}

impl<A: Modeled, B: Modeled> Modeled for (A, B) {
    fn dup(&self) -> (r: Self) {
        (self.0.dup(), self.1.dup())
    }

    fn same(&self, other: &Self) -> (b: bool) {
        self.0.same(&other.0) && self.1.same(&other.1)
    }
}

impl<T: Modeled> Modeled for Box<T> {
    fn dup(&self) -> (r: Self) {
        Box::new((**self).dup())
    }

    fn same(&self, other: &Self) -> (b: bool) {
        (**self).same(&**other)
    }
}

impl Modeled for () {
    fn dup(&self) -> (r: Self) {
        ()
    }

    fn same(&self, other: &Self) -> (b: bool) {
        true
    }
}

impl Modeled for bool {
    fn dup(&self) -> (r: Self) {
        *self
    }

    fn same(&self, other: &Self) -> (b: bool) {
        *self == *other
    }
}

impl Modeled for u8 {
    fn dup(&self) -> (r: Self) {
        *self
    }

    fn same(&self, other: &Self) -> (b: bool) {
        *self == *other
    }
}

impl Modeled for u32 {
    fn dup(&self) -> (r: Self) {
        *self
    }

    fn same(&self, other: &Self) -> (b: bool) {
        *self == *other
    }
}

impl Modeled for u64 {
    fn dup(&self) -> (r: Self) {
        *self
    }

    fn same(&self, other: &Self) -> (b: bool) {
        *self == *other
    }
}

impl Modeled for i64 {
    fn dup(&self) -> (r: Self) {
        *self
    }

    fn same(&self, other: &Self) -> (b: bool) {
        *self == *other
    }
}

impl Modeled for String {
    fn dup(&self) -> (r: Self) {
        self.clone()
    }

    fn same(&self, other: &Self) -> (b: bool) {
        *self == *other
    }
}

impl Key for u8 {
    open spec fn order(a: u8, b: u8) -> Order {
        if a < b {
            Order::Less
        } else if a == b {
            Order::Equal
        } else {
            Order::Greater
        }
    }

    proof fn order_equal(a: u8, b: u8) {
    }

    proof fn order_flip(a: u8, b: u8) {
    }

    proof fn order_transitive(a: u8, b: u8, c: u8) {
    }

    fn compare(&self, other: &Self) -> (o: Order) {
        if *self < *other {
            Order::Less
        } else if *self == *other {
            Order::Equal
        } else {
            Order::Greater
        }
    }
}

impl Key for u32 {
    open spec fn order(a: u32, b: u32) -> Order {
        if a < b {
            Order::Less
        } else if a == b {
            Order::Equal
        } else {
            Order::Greater
        }
    }

    proof fn order_equal(a: u32, b: u32) {
    }

    proof fn order_flip(a: u32, b: u32) {
    }

    proof fn order_transitive(a: u32, b: u32, c: u32) {
    }

    fn compare(&self, other: &Self) -> (o: Order) {
        if *self < *other {
            Order::Less
        } else if *self == *other {
            Order::Equal
        } else {
            Order::Greater
        }
    }
}

/// Text is ordered by its UTF-8 bytes.
pub open spec fn text_order(a: Seq<char>, b: Seq<char>) -> Order {
    seq_order::<u8>(encode_utf8(a), encode_utf8(b))
}

proof fn text_order_equal(a: Seq<char>, b: Seq<char>)
    ensures
        (text_order(a, b) == Order::Equal) == (a == b),
{
    seq_order_equal::<u8>(encode_utf8(a), encode_utf8(b));
    encode_utf8_decode_utf8(a);
    encode_utf8_decode_utf8(b);
}

/// Compares two texts by their UTF-8 bytes.
pub fn compare_text(a: &str, b: &str) -> (o: Order)
    ensures
        o == text_order(a@, b@),
{
    let x = a.as_bytes();
    let y = b.as_bytes();
    assert(models(x@) =~= x@);
    assert(models(y@) =~= y@);
    compare_slices::<u8>(x, y)
}

impl Key for String {
    open spec fn order(a: Seq<char>, b: Seq<char>) -> Order {
        text_order(a, b)
    }

    proof fn order_equal(a: Seq<char>, b: Seq<char>) {
        text_order_equal(a, b);
        assert(String::order(a, b) == text_order(a, b));
        assert((a == b) == (a =~= b));
    }

    proof fn order_flip(a: Seq<char>, b: Seq<char>) {
        seq_order_flip::<u8>(encode_utf8(a), encode_utf8(b));
    }

    proof fn order_transitive(a: Seq<char>, b: Seq<char>, c: Seq<char>) {
        seq_order_transitive::<u8>(encode_utf8(a), encode_utf8(b), encode_utf8(c));
    }

    fn compare(&self, other: &Self) -> (o: Order) {
        compare_text(self.as_str(), other.as_str())
    }
}

impl<K: Key> Key for Vec<K> {
    open spec fn order(a: Seq<K::V>, b: Seq<K::V>) -> Order {
        seq_order::<K>(a, b)
    }

    proof fn order_equal(a: Seq<K::V>, b: Seq<K::V>) {
        seq_order_equal::<K>(a, b);
    }

    proof fn order_flip(a: Seq<K::V>, b: Seq<K::V>) {
        seq_order_flip::<K>(a, b);
    }

    proof fn order_transitive(a: Seq<K::V>, b: Seq<K::V>, c: Seq<K::V>) {
        seq_order_transitive::<K>(a, b, c);
    }

    fn compare(&self, other: &Self) -> (o: Order) {
        let a = self.as_slice();
        let b = other.as_slice();
        assert(self.deep_view() =~= models(a@));
        assert(other.deep_view() =~= models(b@));
        let o = compare_slices::<K>(a, b);
        assert(o == <Vec<K> as Key>::order(self.deep_view(), other.deep_view()));
        o
    }
}

impl<A: Key, B: Key> Key for (A, B) {
    open spec fn order(a: (A::V, B::V), b: (A::V, B::V)) -> Order {
        A::order(a.0, b.0).or(B::order(a.1, b.1))
    }

    proof fn order_equal(a: (A::V, B::V), b: (A::V, B::V)) {
        A::order_equal(a.0, b.0);
        B::order_equal(a.1, b.1);
    }

    proof fn order_flip(a: (A::V, B::V), b: (A::V, B::V)) {
        A::order_flip(a.0, b.0);
        B::order_flip(a.1, b.1);
    }

    proof fn order_transitive(a: (A::V, B::V), b: (A::V, B::V), c: (A::V, B::V)) {
        A::order_equal(a.0, b.0);
        A::order_equal(b.0, c.0);
        if A::order(a.0, b.0) == Order::Less && A::order(b.0, c.0) == Order::Less {
            A::order_transitive(a.0, b.0, c.0);
        }
        if B::order(a.1, b.1) == Order::Less && B::order(b.1, c.1) == Order::Less {
            B::order_transitive(a.1, b.1, c.1);
        }
    }

    fn compare(&self, other: &Self) -> (o: Order) {
        match self.0.compare(&other.0) {
            Order::Equal => self.1.compare(&other.1),
            o => o,
        }
    }
}

} // verus!
