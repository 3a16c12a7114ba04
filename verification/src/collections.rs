//! Maps and sets kept in key order.

use vstd::prelude::*;
use crate::order::{Key, Modeled, Order, dup_vec, same_vec};

verus! {

/// Strictly increasing in the order of `K`.
pub open spec fn in_order<K: Key>(s: Seq<K::V>) -> bool {
    forall|i: int, j: int|
        #![trigger s[i], s[j]]
        0 <= i < j < s.len() ==> K::order(s[i], s[j]) == Order::Less
}

/// `s` lists the members of `dom`, each once, in key order.
pub open spec fn lists<K: Key>(s: Seq<K::V>, dom: Set<K::V>) -> bool {
    &&& in_order::<K>(s)
    &&& forall|k: K::V| #[trigger] s.contains(k) <==> dom.contains(k)
}

/// The members of `dom` in key order.
pub open spec fn key_order<K: Key>(dom: Set<K::V>) -> Seq<K::V> {
    choose|s: Seq<K::V>| lists::<K>(s, dom)
}

/// Whether a set of keys can be listed in order. Those of every map and
/// set can.
pub open spec fn is_listed<K: Key>(dom: Set<K::V>) -> bool {
    lists::<K>(key_order::<K>(dom), dom)
}

/// Two listings of one set are one sequence.
pub proof fn lists_unique<K: Key>(s: Seq<K::V>, t: Seq<K::V>, dom: Set<K::V>)
    requires
        lists::<K>(s, dom),
        lists::<K>(t, dom),
    ensures
        s == t,
    decreases s.len(),
{
    if s.len() == 0 {
        if t.len() > 0 {
            assert(t.contains(t[0]));
            assert(s.contains(t[0]));
        }
        assert(s =~= t);
    } else {
        assert(s.contains(s.last()));
        assert(t.contains(s.last()));
        let n = t.index_of(s.last());
        assert(t.contains(t.last()));
        assert(s.contains(t.last()));
        let m = s.index_of(t.last());
        if n < t.len() - 1 {
            assert(K::order(t[n], t[t.len() - 1]) == Order::Less);
            K::order_equal(s.last(), t.last());
            if m < s.len() - 1 {
                assert(K::order(s[m], s[s.len() - 1]) == Order::Less);
                K::order_flip(s.last(), t.last());
            }
        }
        assert(s.last() == t.last());
        let rest = dom.remove(s.last());
        let s1 = s.drop_last();
        let t1 = t.drop_last();
        K::order_equal(s.last(), s.last());
        assert forall|k: K::V| #[trigger] s1.contains(k) <==> rest.contains(k) by {
            if s1.contains(k) {
                let i = s1.index_of(k);
                assert(s[i] == k);
                assert(s.contains(k));
                assert(K::order(s[i], s[s.len() - 1]) == Order::Less);
            }
            if rest.contains(k) {
                assert(s.contains(k));
                let i = s.index_of(k);
                assert(s1[i] == k);
            }
        }
        assert forall|k: K::V| #[trigger] t1.contains(k) <==> rest.contains(k) by {
            if t1.contains(k) {
                let i = t1.index_of(k);
                assert(t[i] == k);
                assert(t.contains(k));
                assert(K::order(t[i], t[t.len() - 1]) == Order::Less);
            }
            if rest.contains(k) {
                assert(t.contains(k));
                let i = t.index_of(k);
                assert(t1[i] == k);
            }
        }
        lists_unique::<K>(s1, t1, rest);
        assert(s =~= s1.push(s.last()));
        assert(t =~= t1.push(t.last()));
    }
}

/// A listing is the key order of what it lists.
pub proof fn lists_is_key_order<K: Key>(s: Seq<K::V>, dom: Set<K::V>)
    requires
        lists::<K>(s, dom),
    ensures
        key_order::<K>(dom) == s,
{
    lists_unique::<K>(key_order::<K>(dom), s, dom);
}

/// A map held in key order.
#[derive(Debug, PartialEq, Eq)]
pub struct OrderedMap<K: Key, V: Modeled> {
    entries: Vec<(K, V)>,
}

/// The keys of a sequence of pairs.
pub open spec fn firsts<A, B>(s: Seq<(A, B)>) -> Seq<A> {
    Seq::new(s.len(), |i: int| s[i].0)
}

/// The map that a sequence of pairs with distinct keys spells out.
pub open spec fn as_map<A, B>(s: Seq<(A, B)>) -> Map<A, B> {
    Map::new(|k: A| firsts(s).contains(k), |k: A| s[firsts(s).index_of(k)].1)
}

impl<K: Key, V: Modeled> DeepView for OrderedMap<K, V> {
    type V = Map<K::V, V::V>;

    closed spec fn deep_view(&self) -> Map<K::V, V::V> {
        as_map(self.entries.deep_view())
    }
}

impl<K: Key, V: Modeled> View for OrderedMap<K, V> {
    type V = Map<K::V, V::V>;

    open spec fn view(&self) -> Map<K::V, V::V> {
        self.deep_view()
    }
}

/// In a listing, a position determines its key and a key its position.
pub proof fn in_order_index<K: Key>(s: Seq<K::V>, i: int)
    requires
        in_order::<K>(s),
        0 <= i < s.len(),
    ensures
        s.contains(s[i]),
        s.index_of(s[i]) == i,
{
    assert(s.contains(s[i]));
    let j = s.index_of(s[i]);
    K::order_equal(s[i], s[i]);
}

impl<K: Key, V: Modeled> OrderedMap<K, V> {
    #[verifier::type_invariant]
    spec fn sorted(self) -> bool {
        in_order::<K>(firsts(self.entries.deep_view()))
    }

    /// The keys, in key order.
    pub open spec fn keys(self) -> Seq<K::V> {
        key_order::<K>(self@.dom())
    }

    pub fn new() -> (r: Self)
        ensures
            r@ == Map::<K::V, V::V>::empty(),
    {
        let r = OrderedMap { entries: Vec::new() };
        assert(r@ =~= Map::<K::V, V::V>::empty());
        r
    }

    /// The number of keys.
    pub fn len(&self) -> (n: usize)
        ensures
            lists::<K>(self.keys(), self@.dom()),
            n == self.keys().len(),
    {
        proof {
            use_type_invariant(self);
            self.keys_are_entries();
        }
        self.entries.len()
    }

    pub fn is_empty(&self) -> (r: bool)
        ensures
            r == (self@ == Map::<K::V, V::V>::empty()),
    {
        proof {
            use_type_invariant(self);
            self.keys_are_entries();
            if self.entries@.len() == 0 {
                assert(self@ =~= Map::<K::V, V::V>::empty());
            } else {
                assert(self.keys().contains(self.keys()[0]));
                assert(self@.dom().contains(self.keys()[0]));
            }
        }
        self.entries.len() == 0
    }

    proof fn keys_are_entries(&self)
        requires
            self.sorted(),
        ensures
            self.keys() == firsts(self.entries.deep_view()),
            lists::<K>(self.keys(), self@.dom()),
            forall|i: int|
                0 <= i < self.entries@.len() ==> {
                    &&& self@.dom().contains(#[trigger] self.keys()[i])
                    &&& self@[self.keys()[i]] == self.entries@[i].1.deep_view()
                },
    {
        let s = self.entries.deep_view();
        assert(lists::<K>(firsts(s), self@.dom()));
        lists_is_key_order::<K>(firsts(s), self@.dom());
        assert forall|i: int| 0 <= i < self.entries@.len() implies {
            &&& self@.dom().contains(#[trigger] self.keys()[i])
            &&& self@[self.keys()[i]] == self.entries@[i].1.deep_view()
        } by {
            in_order_index::<K>(firsts(s), i);
        }
    }

    /// The key at a position of the key order.
    pub fn key_at(&self, i: usize) -> (k: &K)
        requires
            i < self.keys().len(),
        ensures
            k.deep_view() == self.keys()[i as int],
            self@.dom().contains(k.deep_view()),
    {
        proof {
            use_type_invariant(self);
            self.keys_are_entries();
        }
        &self.entries[i].0
    }

    /// The value under the key at a position of the key order.
    pub fn value_at(&self, i: usize) -> (v: &V)
        requires
            i < self.keys().len(),
        ensures
            v.deep_view() == self@[self.keys()[i as int]],
    {
        proof {
            use_type_invariant(self);
            self.keys_are_entries();
        }
        &self.entries[i].1
    }

    /// The first position whose key is not below `key`.
    fn position(&self, key: &K) -> (p: usize)
        requires
            self.sorted(),
        ensures
            p <= self.entries@.len(),
            forall|i: int|
                0 <= i < p ==> K::order((#[trigger] self.entries@[i]).0.deep_view(), key.deep_view())
                    == Order::Less,
            forall|i: int|
                p <= i < self.entries@.len() ==> K::order(
                    (#[trigger] self.entries@[i]).0.deep_view(),
                    key.deep_view(),
                ) != Order::Less,
    {
        let ghost s = firsts(self.entries.deep_view());
        let mut lo: usize = 0;
        let mut hi: usize = self.entries.len();
        while lo < hi
            invariant
                lo <= hi <= self.entries@.len(),
                s == firsts(self.entries.deep_view()),
                in_order::<K>(s),
                forall|i: int|
                    0 <= i < lo ==> K::order(
                        (#[trigger] self.entries@[i]).0.deep_view(),
                        key.deep_view(),
                    ) == Order::Less,
                forall|i: int|
                    hi <= i < self.entries@.len() ==> K::order(
                        (#[trigger] self.entries@[i]).0.deep_view(),
                        key.deep_view(),
                    ) != Order::Less,
            decreases hi - lo,
        {
            let mid: usize = lo + (hi - lo) / 2;
            let o = self.entries[mid].0.compare(key);
            let ghost k = key.deep_view();
            let ghost m = self.entries@[mid as int].0.deep_view();
            assert(s[mid as int] == m);
            if o == Order::Less {
                assert forall|i: int| 0 <= i < mid + 1 implies K::order(
                    (#[trigger] self.entries@[i]).0.deep_view(),
                    k,
                ) == Order::Less by {
                    assert(s[i] == self.entries@[i].0.deep_view());
                    if i < mid {
                        K::order_transitive(s[i], m, k);
                    }
                }
                lo = mid + 1;
            } else {
                assert forall|i: int| mid <= i < self.entries@.len() implies K::order(
                    (#[trigger] self.entries@[i]).0.deep_view(),
                    k,
                ) != Order::Less by {
                    assert(s[i] == self.entries@[i].0.deep_view());
                    if i > mid && K::order(s[i], k) == Order::Less {
                        K::order_transitive(m, s[i], k);
                    }
                }
                hi = mid;
            }
        }
        lo
    }

    /// A key is present exactly at the position found for it.
    proof fn found(&self, p: int, key: K::V)
        requires
            self.sorted(),
            0 <= p <= self.entries@.len(),
            forall|i: int|
                0 <= i < p ==> K::order((#[trigger] self.entries@[i]).0.deep_view(), key)
                    == Order::Less,
            forall|i: int|
                p <= i < self.entries@.len() ==> K::order(
                    (#[trigger] self.entries@[i]).0.deep_view(),
                    key,
                ) != Order::Less,
        ensures
            self@.dom().contains(key) <==> p < self.entries@.len()
                && self.entries@[p].0.deep_view() == key,
            self@.dom().contains(key) ==> self@[key] == self.entries@[p].1.deep_view(),
            forall|i: int|
                p < i < self.entries@.len() ==> K::order(
                    key,
                    (#[trigger] self.entries@[i]).0.deep_view(),
                ) == Order::Less,
            p < self.entries@.len() && self.entries@[p].0.deep_view() != key ==> K::order(
                key,
                self.entries@[p].0.deep_view(),
            ) == Order::Less,
    {
        let s = firsts(self.entries.deep_view());
        self.keys_are_entries();
        K::order_equal(key, key);
        assert forall|i: int| 0 <= i < s.len() implies #[trigger] s[i]
            == self.entries@[i].0.deep_view() by {}
        if s.contains(key) {
            let i = s.index_of(key);
            assert(self.entries@[i].0.deep_view() == key);
            if i > p {
                assert(self.entries@[p].0.deep_view() == s[p]);
                assert(K::order(s[p], s[i]) == Order::Less);
            }
            assert(i == p);
        }
        if p < s.len() && s[p] == key {
            in_order_index::<K>(s, p);
        }
        assert forall|i: int| p < i < self.entries@.len() implies K::order(
            key,
            (#[trigger] self.entries@[i]).0.deep_view(),
        ) == Order::Less by {
            assert(s[i] == self.entries@[i].0.deep_view());
            assert(s[p] == self.entries@[p].0.deep_view());
            assert(K::order(s[p], s[i]) == Order::Less);
            K::order_flip(s[p], key);
            K::order_equal(s[p], key);
            if s[p] != key {
                K::order_transitive(key, s[p], s[i]);
            }
        }
        if p < self.entries@.len() {
            K::order_flip(self.entries@[p].0.deep_view(), key);
            K::order_equal(self.entries@[p].0.deep_view(), key);
        }
    }

    pub fn get(&self, key: &K) -> (r: Option<&V>)
        ensures
            match r {
                Some(v) => self@.dom().contains(key.deep_view()) && v.deep_view()
                    == self@[key.deep_view()],
                None => !self@.dom().contains(key.deep_view()),
            },
    {
        proof {
            use_type_invariant(self);
        }
        let p = self.position(key);
        proof {
            self.found(p as int, key.deep_view());
        }
        if p < self.entries.len() && self.entries[p].0.same(key) {
            Some(&self.entries[p].1)
        } else {
            None
        }
    }

    pub fn contains_key(&self, key: &K) -> (r: bool)
        ensures
            r == self@.dom().contains(key.deep_view()),
    {
        self.get(key).is_some()
    }

    /// Puts `value` under `key`, in place of what stood there.
    pub fn insert(&mut self, key: K, value: V)
        ensures
            final(self)@ == old(self)@.insert(key.deep_view(), value.deep_view()),
    {
        proof {
            use_type_invariant(&*self);
        }
        let p = self.position(&key);
        let ghost k = key.deep_view();
        let ghost v = value.deep_view();
        let ghost s = self.entries.deep_view();
        proof {
            assert forall|i: int| 0 <= i < s.len() implies #[trigger] firsts(s)[i]
                == self.entries@[i].0.deep_view() by {}
            put_at_is_insert::<K, V::V>(s, p as int, k, v);
        }
        let replace = p < self.entries.len() && self.entries[p].0.same(&key);
        let mut entries: Vec<(K, V)> = Vec::new();
        std::mem::swap(&mut entries, &mut self.entries);
        if replace {
            entries.set(p, (key, value));
        } else {
            entries.insert(p, (key, value));
        }
        assert(entries.deep_view() =~= put_at(s, p as int, k, v));
        self.entries = entries;
    }

    /// Takes `key` and its value out.
    pub fn remove(&mut self, key: &K) -> (r: Option<V>)
        ensures
            final(self)@ == old(self)@.remove(key.deep_view()),
            match r {
                Some(v) => old(self)@.dom().contains(key.deep_view()) && v.deep_view()
                    == old(self)@[key.deep_view()],
                None => !old(self)@.dom().contains(key.deep_view()),
            },
    {
        proof {
            use_type_invariant(&*self);
        }
        let p = self.position(key);
        let ghost before = *self;
        let ghost k = key.deep_view();
        let ghost s = self.entries.deep_view();
        proof {
            before.found(p as int, k);
            before.keys_are_entries();
        }
        if p < self.entries.len() && self.entries[p].0.same(key) {
            let mut entries: Vec<(K, V)> = Vec::new();
            std::mem::swap(&mut entries, &mut self.entries);
            let (_, value) = entries.remove(p);
            let ghost t = entries.deep_view();
            proof {
                assert(t =~= s.remove(p as int));
                assert forall|i: int, j: int|
                    #![trigger firsts(t)[i], firsts(t)[j]]
                    0 <= i < j < t.len() implies K::order(firsts(t)[i], firsts(t)[j])
                    == Order::Less by {
                    let i1 = if i >= p { i + 1 } else { i };
                    let j1 = if j >= p { j + 1 } else { j };
                    assert(firsts(t)[i] == firsts(s)[i1]);
                    assert(firsts(t)[j] == firsts(s)[j1]);
                }
                assert(in_order::<K>(firsts(t)));
                in_order_index::<K>(firsts(s), p as int);
                assert forall|q: K::V| firsts(t).contains(q) <==> #[trigger] before@.remove(
                    k,
                ).dom().contains(q) by {
                    if firsts(t).contains(q) {
                        let i = firsts(t).index_of(q);
                        let i1 = if i >= p { i + 1 } else { i };
                        assert(firsts(s)[i1] == q);
                        in_order_index::<K>(firsts(s), i1);
                    }
                    if before@.remove(k).dom().contains(q) {
                        let i = firsts(s).index_of(q);
                        let i1 = if i > p { i - 1 } else { i };
                        assert(firsts(t)[i1] == q);
                    }
                }
                assert forall|i: int| 0 <= i < t.len() implies before@.remove(k)[firsts(t)[i]]
                    == (#[trigger] t[i]).1 by {
                    let i1 = if i >= p { i + 1 } else { i };
                    assert(firsts(s)[i1] == firsts(t)[i]);
                    assert(before.keys()[i1] == firsts(t)[i]);
                    in_order_index::<K>(firsts(s), i1);
                }
                as_map_is::<K, V::V>(t, before@.remove(k));
            }
            self.entries = entries;
            Some(value)
        } else {
            assert(before@.remove(k) =~= before@);
            None
        }
    }
}

/// A sequence of pairs in key order spells out `m` when it has the keys
/// of `m` and, under each, what `m` holds.
pub proof fn as_map_is<K: Key, B>(t: Seq<(K::V, B)>, m: Map<K::V, B>)
    requires
        in_order::<K>(firsts(t)),
        forall|q: K::V| firsts(t).contains(q) <==> #[trigger] m.dom().contains(q),
        forall|i: int| 0 <= i < t.len() ==> m[firsts(t)[i]] == (#[trigger] t[i]).1,
    ensures
        as_map(t) == m,
{
    assert forall|q: K::V| #[trigger] as_map(t).dom().contains(q) implies as_map(t)[q] == m[q] by {
        let i = firsts(t).index_of(q);
        assert(t[i].1 == m[firsts(t)[i]]);
    }
    assert(as_map(t) =~= m);
}

/// `p` is where `k` stands, or would stand, among keys in order.
pub open spec fn is_place<K: Key>(keys: Seq<K::V>, p: int, k: K::V) -> bool {
    &&& 0 <= p <= keys.len()
    &&& forall|i: int| 0 <= i < p ==> K::order(#[trigger] keys[i], k) == Order::Less
    &&& forall|i: int| p <= i < keys.len() ==> K::order(#[trigger] keys[i], k) != Order::Less
}

/// Pairs in key order with `v` put under `k` at its place.
pub open spec fn put_at<A, B>(s: Seq<(A, B)>, p: int, k: A, v: B) -> Seq<(A, B)> {
    if p < s.len() && s[p].0 == k {
        s.update(p, (k, v))
    } else {
        s.insert(p, (k, v))
    }
}

/// Putting a pair at its place keeps the order and extends the map.
pub proof fn put_at_is_insert<K: Key, B>(s: Seq<(K::V, B)>, p: int, k: K::V, v: B)
    requires
        in_order::<K>(firsts(s)),
        is_place::<K>(firsts(s), p, k),
    ensures
        in_order::<K>(firsts(put_at(s, p, k, v))),
        as_map(put_at(s, p, k, v)) == as_map(s).insert(k, v),
        as_map(s).dom().contains(k) <==> p < s.len() && s[p].0 == k,
{
    let t = put_at(s, p, k, v);
    let f = firsts(s);
    let m = as_map(s).insert(k, v);
    K::order_equal(k, k);
    if f.contains(k) {
        let i = f.index_of(k);
        if i > p {
            assert(K::order(f[p], f[i]) == Order::Less);
        }
        assert(i == p);
    }
    if p < s.len() && s[p].0 == k {
        assert(f[p] == k);
        in_order_index::<K>(f, p);
        assert(firsts(t) =~= f);
        assert forall|i: int| 0 <= i < t.len() implies m[firsts(t)[i]] == (#[trigger] t[i]).1 by {
            in_order_index::<K>(f, i);
        }
        as_map_is::<K, B>(t, m);
    } else {
        assert forall|i: int| p <= i < f.len() implies K::order(k, #[trigger] f[i])
            == Order::Less by {
            K::order_flip(f[i], k);
            K::order_equal(f[i], k);
            if i == p {
                assert(f[p] == s[p].0);
            } else {
                assert(K::order(f[p], f[i]) == Order::Less);
                K::order_equal(f[p], k);
                if f[i] == k {
                    assert(K::order(f[p], k) == Order::Less);
                }
            }
        }
        assert forall|i: int, j: int|
            #![trigger firsts(t)[i], firsts(t)[j]]
            0 <= i < j < t.len() implies K::order(firsts(t)[i], firsts(t)[j]) == Order::Less by {
            let i1 = if i > p { i - 1 } else { i };
            let j1 = if j > p { j - 1 } else { j };
            if i == p {
                assert(firsts(t)[j] == f[j1]);
            } else if j == p {
                assert(firsts(t)[i] == f[i1]);
            } else {
                assert(firsts(t)[i] == f[i1]);
                assert(firsts(t)[j] == f[j1]);
            }
        }
        assert forall|q: K::V| firsts(t).contains(q) <==> #[trigger] m.dom().contains(q) by {
            if firsts(t).contains(q) {
                let i = firsts(t).index_of(q);
                if i != p {
                    let i1 = if i > p { i - 1 } else { i };
                    assert(f[i1] == q);
                    in_order_index::<K>(f, i1);
                }
            }
            if m.dom().contains(q) {
                if q == k {
                    assert(firsts(t)[p] == q);
                } else {
                    let i = f.index_of(q);
                    let i1 = if i >= p { i + 1 } else { i };
                    assert(firsts(t)[i1] == q);
                }
            }
        }
        assert forall|i: int| 0 <= i < t.len() implies m[firsts(t)[i]] == (#[trigger] t[i]).1 by {
            if i != p {
                let i1 = if i > p { i - 1 } else { i };
                assert(f[i1] == firsts(t)[i]);
                in_order_index::<K>(f, i1);
            }
        }
        as_map_is::<K, B>(t, m);
    }
}

impl<K: Key, V: Modeled> Modeled for OrderedMap<K, V> {
    fn dup(&self) -> (r: Self) {
        proof {
            use_type_invariant(self);
        }
        OrderedMap { entries: dup_vec(&self.entries) }
    }

    fn same(&self, other: &Self) -> (b: bool) {
        proof {
            use_type_invariant(self);
            use_type_invariant(other);
            self.keys_are_entries();
            other.keys_are_entries();
            let s = self.entries.deep_view();
            let t = other.entries.deep_view();
            if self@ == other@ {
                assert(firsts(s).len() == firsts(t).len());
                assert forall|i: int| 0 <= i < s.len() implies s[i] == t[i] by {
                    assert(firsts(s)[i] == firsts(t)[i]);
                    assert(self@[self.keys()[i]] == self.entries@[i].1.deep_view());
                    assert(other@[other.keys()[i]] == other.entries@[i].1.deep_view());
                }
                assert(s =~= t);
            }
        }
        same_vec(&self.entries, &other.entries)
    }
}

impl<K: Key, V: Modeled> Clone for OrderedMap<K, V> {
    fn clone(&self) -> (r: Self)
        ensures
            r@ == self@,
    {
        self.dup()
    }
}

impl<K: Key, V: Modeled> Default for OrderedMap<K, V> {
    fn default() -> (r: Self)
        ensures
            r@ == Map::<K::V, V::V>::empty(),
    {
        OrderedMap::new()
    }
}

/// A set held in key order.
#[derive(Debug, PartialEq, Eq)]
pub struct OrderedSet<K: Key> {
    members: OrderedMap<K, ()>,
}

impl<K: Key> DeepView for OrderedSet<K> {
    type V = Set<K::V>;

    closed spec fn deep_view(&self) -> Set<K::V> {
        self.members@.dom()
    }
}

impl<K: Key> View for OrderedSet<K> {
    type V = Set<K::V>;

    open spec fn view(&self) -> Set<K::V> {
        self.deep_view()
    }
}

impl<K: Key> OrderedSet<K> {
    /// The members, in key order.
    pub open spec fn items(self) -> Seq<K::V> {
        key_order::<K>(self@)
    }

    pub fn new() -> (r: Self)
        ensures
            r@ == Set::<K::V>::empty(),
    {
        let r = OrderedSet { members: OrderedMap::new() };
        assert(r@ =~= Set::<K::V>::empty());
        r
    }

    /// The number of members.
    pub fn len(&self) -> (n: usize)
        ensures
            lists::<K>(self.items(), self@),
            n == self.items().len(),
    {
        self.members.len()
    }

    pub fn is_empty(&self) -> (r: bool)
        ensures
            r == (self@ == Set::<K::V>::empty()),
    {
        let r = self.members.is_empty();
        proof {
            if self@ == Set::<K::V>::empty() {
                assert(self.members@ =~= Map::<K::V, ()>::empty());
            }
        }
        r
    }

    /// The member at a position of the key order.
    pub fn at(&self, i: usize) -> (k: &K)
        requires
            i < self.items().len(),
        ensures
            k.deep_view() == self.items()[i as int],
            self@.contains(k.deep_view()),
    {
        self.members.key_at(i)
    }

    pub fn contains(&self, key: &K) -> (r: bool)
        ensures
            r == self@.contains(key.deep_view()),
    {
        self.members.contains_key(key)
    }

    pub fn insert(&mut self, key: K)
        ensures
            final(self)@ == old(self)@.insert(key.deep_view()),
    {
        self.members.insert(key, ());
        assert(self@ =~= old(self)@.insert(key.deep_view()));
    }

    pub fn remove(&mut self, key: &K)
        ensures
            final(self)@ == old(self)@.remove(key.deep_view()),
    {
        let _ = self.members.remove(key);
        assert(self@ =~= old(self)@.remove(key.deep_view()));
    }

    /// The members as a vector, in key order.
    pub fn to_vec(&self) -> (r: Vec<K>)
        ensures
            r.deep_view() == self.items(),
            lists::<K>(self.items(), self@),
    {
        let n = self.len();
        let mut r: Vec<K> = Vec::new();
        let mut i: usize = 0;
        while i < n
            invariant
                n == self.items().len(),
                i <= n,
                r@.len() == i,
                forall|j: int| 0 <= j < i ==> (#[trigger] r@[j]).deep_view() == self.items()[j],
            decreases n - i,
        {
            r.push(self.at(i).dup());
            i += 1;
        }
        assert(r.deep_view() =~= self.items());
        r
    }
}

impl<K: Key> Modeled for OrderedSet<K> {
    fn dup(&self) -> (r: Self) {
        OrderedSet { members: self.members.dup() }
    }

    fn same(&self, other: &Self) -> (b: bool) {
        proof {
            if self@ == other@ {
                assert(self.members@ =~= other.members@);
            }
        }
        self.members.same(&other.members)
    }
}

impl<K: Key> Clone for OrderedSet<K> {
    fn clone(&self) -> (r: Self)
        ensures
            r@ == self@,
    {
        self.dup()
    }
}

impl<K: Key> Default for OrderedSet<K> {
    fn default() -> (r: Self)
        ensures
            r@ == Set::<K::V>::empty(),
    {
        OrderedSet::new()
    }
}

/// Every key has a place among keys in order.
pub proof fn place_of<K: Key>(s: Seq<K::V>, k: K::V) -> (p: int)
    requires
        in_order::<K>(s),
    ensures
        is_place::<K>(s, p, k),
    decreases s.len(),
{
    if s.len() == 0 {
        0
    } else if K::order(s[0], k) != Order::Less {
        assert forall|i: int| 0 <= i < s.len() implies K::order(#[trigger] s[i], k)
            != Order::Less by {
            if i > 0 && K::order(s[i], k) == Order::Less {
                assert(K::order(s[0], s[i]) == Order::Less);
                K::order_transitive(s[0], s[i], k);
            }
        }
        0
    } else {
        let rest = s.drop_first();
        let p = place_of::<K>(rest, k);
        assert forall|i: int| 0 <= i < p + 1 implies K::order(#[trigger] s[i], k)
            == Order::Less by {
            if i > 0 {
                assert(rest[i - 1] == s[i]);
            }
        }
        assert forall|i: int| p + 1 <= i < s.len() implies K::order(#[trigger] s[i], k)
            != Order::Less by {
            assert(rest[i - 1] == s[i]);
        }
        p + 1
    }
}

/// Every finite set of keys can be listed in order.
pub proof fn finite_is_listed<K: Key>(dom: Set<K::V>)
    requires
        dom.finite(),
    ensures
        is_listed::<K>(dom),
    decreases dom.len(),
{
    if dom.len() == 0 {
        let s = Seq::<K::V>::empty();
        assert(dom =~= Set::empty());
        assert(lists::<K>(s, dom));
    } else {
        let k = dom.choose();
        assert(dom.contains(k));
        let rest = dom.remove(k);
        finite_is_listed::<K>(rest);
        let l = key_order::<K>(rest);
        let pairs = Seq::new(l.len(), |i: int| (l[i], ()));
        assert(firsts(pairs) =~= l);
        let p = place_of::<K>(l, k);
        put_at_is_insert::<K, ()>(pairs, p, k, ());
        let t = firsts(put_at(pairs, p, k, ()));
        assert forall|q: K::V| #[trigger] t.contains(q) <==> dom.contains(q) by {
            assert(t.contains(q) <==> as_map(put_at(pairs, p, k, ())).dom().contains(q));
            assert(as_map(pairs).dom().contains(q) <==> l.contains(q));
        }
        assert(lists::<K>(t, dom));
    }
}

/// Keys in order are distinct.
pub proof fn in_order_is_distinct<K: Key>(s: Seq<K::V>)
    requires
        in_order::<K>(s),
    ensures
        s.no_duplicates(),
{
    assert forall|i: int, j: int| 0 <= i < s.len() && 0 <= j < s.len() && i != j implies s[i]
        != s[j] by {
        K::order_equal(s[i], s[j]);
        if i < j {
            assert(K::order(s[i], s[j]) == Order::Less);
        } else {
            assert(K::order(s[j], s[i]) == Order::Less);
        }
    }
}

/// A list of distinct members of a finite set is no longer than a list
/// of all of them.
pub proof fn distinct_is_short<K: Key>(s: Seq<K::V>, dom: Set<K::V>)
    requires
        dom.finite(),
        s.no_duplicates(),
        forall|i: int| 0 <= i < s.len() ==> dom.contains(#[trigger] s[i]),
    ensures
        s.len() <= key_order::<K>(dom).len(),
{
    finite_is_listed::<K>(dom);
    let keys = key_order::<K>(dom);
    in_order_is_distinct::<K>(keys);
    s.unique_seq_to_set();
    keys.unique_seq_to_set();
    assert forall|c: K::V| #[trigger] s.to_set().contains(c) implies keys.to_set().contains(c) by {
        assert(s.contains(c));
        let i = s.index_of(c);
        assert(dom.contains(s[i]));
        assert(keys.contains(c));
    }
    vstd::seq_lib::seq_to_set_is_finite(keys);
    vstd::set_lib::lemma_len_subset(s.to_set(), keys.to_set());
}

} // verus!
