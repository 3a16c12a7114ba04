//! Sums over sets and sequences, and what they have in common.

use vstd::prelude::*;

verus! {

/// The sum of `f` over a finite set.
pub open spec fn sum_over<A>(s: Set<A>, f: spec_fn(A) -> nat) -> nat
    decreases s.len(),
    when s.finite()
{
    if s.len() == 0 {
        0
    } else {
        let a = s.choose();
        f(a) + sum_over(s.remove(a), f)
    }
}

/// The sum of `f` over a sequence.
pub open spec fn sum_along<A>(s: Seq<A>, f: spec_fn(A) -> nat) -> nat
    decreases s.len(),
{
    if s.len() == 0 {
        0
    } else {
        sum_along(s.drop_last(), f) + f(s.last())
    }
}

/// How many elements of a sequence are such.
pub open spec fn count_along<A>(s: Seq<A>, p: spec_fn(A) -> bool) -> nat
    decreases s.len(),
{
    if s.len() == 0 {
        0
    } else if p(s.last()) {
        count_along(s.drop_last(), p) + 1
    } else {
        count_along(s.drop_last(), p)
    }
}

/// Any element can be taken out of a sum.
pub proof fn sum_takes_out<A>(s: Set<A>, f: spec_fn(A) -> nat, a: A)
    requires
        s.finite(),
        s.contains(a),
    ensures
        sum_over(s, f) == f(a) + sum_over(s.remove(a), f),
    decreases s.len(),
{
    let b = s.choose();
    assert(s.contains(b));
    assert(s.len() > 0) by {
        vstd::set::axiom_set_choose_len(s);
        if s.len() == 0 {
            assert(s.is_empty());
        }
    }
    if b != a {
        sum_takes_out(s.remove(b), f, a);
        sum_takes_out(s.remove(a), f, b);
        assert(s.remove(b).remove(a) =~= s.remove(a).remove(b));
    }
}

/// A sum over a set is the sum along any listing of it.
pub proof fn sum_of_listing<A>(s: Seq<A>, f: spec_fn(A) -> nat)
    requires
        s.no_duplicates(),
    ensures
        s.to_set().finite(),
        sum_over(s.to_set(), f) == sum_along(s, f),
    decreases s.len(),
{
    vstd::seq_lib::seq_to_set_is_finite(s);
    if s.len() == 0 {
        assert(s.to_set() =~= Set::<A>::empty());
    } else {
        let rest = s.drop_last();
        let set = s.to_set();
        sum_of_listing(rest, f);
        assert(set.contains(s.last())) by {
            assert(s[s.len() - 1] == s.last());
        }
        assert forall|a: A| set.remove(s.last()).contains(a) <==> #[trigger] rest.to_set().contains(
            a,
        ) by {
            if set.remove(s.last()).contains(a) {
                let i = choose|i: int| 0 <= i < s.len() && s[i] == a;
                assert(rest[i] == a);
            }
            if rest.to_set().contains(a) {
                let i = choose|i: int| 0 <= i < rest.len() && rest[i] == a;
                assert(s[i] == a);
                assert(s[s.len() - 1] != s[i]);
            }
        }
        assert(set.remove(s.last()) =~= rest.to_set());
        sum_takes_out(set, f, s.last());
    }
}

/// How many there are in a set is how many there are along any listing.
pub proof fn count_of_listing<A>(s: Seq<A>, p: spec_fn(A) -> bool)
    requires
        s.no_duplicates(),
    ensures
        s.to_set().filter(p).finite(),
        s.to_set().filter(p).len() == count_along(s, p),
    decreases s.len(),
{
    if s.len() == 0 {
        assert(s.to_set().filter(p) =~= Set::<A>::empty());
    } else {
        let rest = s.drop_last();
        let set = s.to_set();
        let last = s.last();
        count_of_listing(rest, p);
        assert(s[s.len() - 1] == last);
        assert forall|a: A| #[trigger] set.contains(a) <==> rest.to_set().contains(a) || a
            == last by {
            if set.contains(a) {
                let i = choose|i: int| 0 <= i < s.len() && s[i] == a;
                if i < rest.len() {
                    assert(rest[i] == a);
                }
            }
            if rest.to_set().contains(a) {
                let i = choose|i: int| 0 <= i < rest.len() && rest[i] == a;
                assert(s[i] == a);
            }
        }
        assert(!rest.to_set().contains(last)) by {
            if rest.to_set().contains(last) {
                let i = choose|i: int| 0 <= i < rest.len() && rest[i] == last;
                assert(s[i] == s[s.len() - 1]);
            }
        }
        if p(last) {
            assert(set.filter(p) =~= rest.to_set().filter(p).insert(last));
        } else {
            assert(set.filter(p) =~= rest.to_set().filter(p));
        }
    }
}

} // verus!
