//! What a merge keeps of two sides, what it refuses, and in which order
//! it puts things.

use vstd::prelude::*;
use crate::collections;
use crate::merge;
use crate::merged_tree;
use crate::schema;
use crate::schema_laws;
use crate::ids::ResolverId;
use crate::merge::{DefModel, ElementId, ElementIdModel, MergeConflictModel, merge};
use crate::schema::{
    Column, ElementModel, Group, PlacedModel, ResolverDeclarationModel, SchemaModel, ShellModel,
};

verus! {

/// What a schema says of an element: what it is and which group holds it.
pub open spec fn said_of(s: SchemaModel, k: ElementIdModel) -> Option<DefModel> {
    let defs = merge::defs_of(schema::schema_elements(s));
    if defs.dom().contains(k) {
        Some(defs[k])
    } else {
        None
    }
}

/// What a schema declares under a resolver's id; of two the later counts.
pub open spec fn declared_as(s: SchemaModel, id: Seq<char>) -> Option<ResolverDeclarationModel> {
    let all = merge::resolvers_by_id(s.resolvers);
    if all.dom().contains(id) {
        Some(all[id])
    } else {
        None
    }
}

/// A merge without conflicts takes each element from the side that
/// changed it: where one side left it as it was, from the other, also
/// where that took it away.
pub proof fn the_side_that_changed_counts(
    base: SchemaModel,
    left: SchemaModel,
    right: SchemaModel,
    k: ElementIdModel,
)
    requires
        merge::merge_conflicts(base, left, right).len() == 0,
    ensures
        ({
            let b = said_of(base, k);
            let l = said_of(left, k);
            let r = said_of(right, k);
            let out = said_of(merge::merged_schema(base, left, right), k);
            &&& l == b ==> out == r
            &&& r == b ==> out == l
            &&& l == r ==> out == l
            &&& l == b || r == b || l == r
        }),
{
    merged_tree::merged_schema_is_the_merge(base, left, right);
    if !(said_of(left, k) == said_of(base, k) || said_of(right, k) == said_of(base, k) || said_of(
        left,
        k,
    ) == said_of(right, k)) {
        merge::different_changes_conflict(base, left, right, k);
    }
}

proof fn orphans_are_orphans(
    keys: Seq<ElementIdModel>,
    merged: Map<ElementIdModel, DefModel>,
    e: MergeConflictModel,
)
    ensures
        merge::orphans(keys, merged).contains(e) ==> e is OrphanedByDeletedGroup,
        merge::circles(keys, merged).contains(e) ==> e is Group,
    decreases keys.len(),
{
    if keys.len() > 0 {
        let rest = keys.drop_last();
        orphans_are_orphans(rest, merged, e);
        let o = merge::orphans(keys, merged);
        let c = merge::circles(keys, merged);
        if o.contains(e) {
            let i = choose|i: int| 0 <= i < o.len() && o[i] == e;
            if i < merge::orphans(rest, merged).len() {
                assert(merge::orphans(rest, merged)[i] == e);
                assert(merge::orphans(rest, merged).contains(e));
            }
        }
        if c.contains(e) {
            let i = choose|i: int| 0 <= i < c.len() && c[i] == e;
            if i < merge::circles(rest, merged).len() {
                assert(merge::circles(rest, merged)[i] == e);
                assert(merge::circles(rest, merged).contains(e));
            }
        }
    }
}

proof fn element_conflicts_are(
    keys: Seq<ElementIdModel>,
    b: Map<ElementIdModel, DefModel>,
    l: Map<ElementIdModel, DefModel>,
    r: Map<ElementIdModel, DefModel>,
    e: MergeConflictModel,
)
    ensures
        merge::element_conflicts(keys, b, l, r).contains(e) <==> exists|i: int|
            0 <= i < keys.len() && e == merge::element_conflict(#[trigger] keys[i]) && merge::merged3(
                merge::at(b, keys[i]),
                merge::at(l, keys[i]),
                merge::at(r, keys[i]),
            ) is None,
    decreases keys.len(),
{
    if keys.len() > 0 {
        let rest = keys.drop_last();
        let n = keys.len() - 1;
        let k = keys.last();
        element_conflicts_are(rest, b, l, r, e);
        assert(keys[n] == k);
        let hit = merge::merged3(merge::at(b, k), merge::at(l, k), merge::at(r, k)) is None;
        let more = if hit {
            seq![merge::element_conflict(k)]
        } else {
            Seq::empty()
        };
        assert(merge::element_conflicts(keys, b, l, r) =~= merge::element_conflicts(rest, b, l, r) + more);
        schema_laws::join_contains(merge::element_conflicts(rest, b, l, r), more, e);
        if hit {
            assert(more[0] == merge::element_conflict(k));
        }
        if merge::element_conflicts(rest, b, l, r).contains(e) {
            let i = choose|i: int|
                0 <= i < rest.len() && e == merge::element_conflict(#[trigger] rest[i]) && merge::merged3(
                    merge::at(b, rest[i]),
                    merge::at(l, rest[i]),
                    merge::at(r, rest[i]),
                ) is None;
            assert(keys[i] == rest[i]);
        }
        assert forall|i: int|
            0 <= i < keys.len() && e == merge::element_conflict(#[trigger] keys[i]) && merge::merged3(
                merge::at(b, keys[i]),
                merge::at(l, keys[i]),
                merge::at(r, keys[i]),
            ) is None implies merge::element_conflicts(keys, b, l, r).contains(e) by {
            if i < n {
                assert(rest[i] == keys[i]);
            }
        }
    }
}

proof fn resolver_conflicts_are(
    keys: Seq<Seq<char>>,
    b: Map<Seq<char>, ResolverDeclarationModel>,
    l: Map<Seq<char>, ResolverDeclarationModel>,
    r: Map<Seq<char>, ResolverDeclarationModel>,
    e: MergeConflictModel,
)
    ensures
        merge::resolver_conflicts(keys, b, l, r).contains(e) <==> exists|i: int|
            0 <= i < keys.len() && e == MergeConflictModel::Resolver(#[trigger] keys[i]) && merge::merged3(
                merge::at(b, keys[i]),
                merge::at(l, keys[i]),
                merge::at(r, keys[i]),
            ) is None,
    decreases keys.len(),
{
    if keys.len() > 0 {
        let rest = keys.drop_last();
        let n = keys.len() - 1;
        let k = keys.last();
        resolver_conflicts_are(rest, b, l, r, e);
        assert(keys[n] == k);
        let hit = merge::merged3(merge::at(b, k), merge::at(l, k), merge::at(r, k)) is None;
        let more = if hit {
            seq![MergeConflictModel::Resolver(k)]
        } else {
            Seq::empty()
        };
        assert(merge::resolver_conflicts(keys, b, l, r) =~= merge::resolver_conflicts(rest, b, l, r) + more);
        schema_laws::join_contains(merge::resolver_conflicts(rest, b, l, r), more, e);
        if hit {
            assert(more[0] == MergeConflictModel::Resolver(k));
        }
        if merge::resolver_conflicts(rest, b, l, r).contains(e) {
            let i = choose|i: int|
                0 <= i < rest.len() && e == MergeConflictModel::Resolver(#[trigger] rest[i])
                    && merge::merged3(merge::at(b, rest[i]), merge::at(l, rest[i]), merge::at(r, rest[i])) is None;
            assert(keys[i] == rest[i]);
        }
        assert forall|i: int|
            0 <= i < keys.len() && e == MergeConflictModel::Resolver(#[trigger] keys[i])
                && merge::merged3(
                merge::at(b, keys[i]),
                merge::at(l, keys[i]),
                merge::at(r, keys[i]),
            ) is None implies merge::resolver_conflicts(keys, b, l, r).contains(e) by {
            if i < n {
                assert(rest[i] == keys[i]);
            }
        }
    }
}

proof fn declared_are_finite(s: Seq<ResolverDeclarationModel>)
    ensures
        merge::resolvers_by_id(s).dom().finite(),
    decreases s.len(),
{
    if s.len() > 0 {
        declared_are_finite(s.drop_last());
    }
}

/// A column or a resolver is in conflict exactly where both sides changed
/// it, and not alike.
pub proof fn only_different_changes_conflict(
    base: SchemaModel,
    left: SchemaModel,
    right: SchemaModel,
    id: Seq<char>,
)
    ensures
        ({
            let k = ElementIdModel::Column(id);
            let b = said_of(base, k);
            let l = said_of(left, k);
            let r = said_of(right, k);
            merge::merge_conflicts(base, left, right).contains(MergeConflictModel::Column(id)) <==> l != b
                && r != b && l != r
        }),
        ({
            let b = declared_as(base, id);
            let l = declared_as(left, id);
            let r = declared_as(right, id);
            merge::merge_conflicts(base, left, right).contains(MergeConflictModel::Resolver(id)) <==> l
                != b && r != b && l != r
        }),
{
    let b = merge::defs_of(schema::schema_elements(base));
    let l = merge::defs_of(schema::schema_elements(left));
    let r = merge::defs_of(schema::schema_elements(right));
    let rb = merge::resolvers_by_id(base.resolvers);
    let rl = merge::resolvers_by_id(left.resolvers);
    let rr = merge::resolvers_by_id(right.resolvers);
    let merged = merge::merged_defs(b, l, r);
    let mk = collections::key_order::<ElementId>(merged.dom());
    let ek = merge::all_elements(b, l, r);
    let rk = merge::all_resolvers(rb, rl, rr);
    merge::defs_are_finite(schema::schema_elements(base));
    merge::defs_are_finite(schema::schema_elements(left));
    merge::defs_are_finite(schema::schema_elements(right));
    declared_are_finite(base.resolvers);
    declared_are_finite(left.resolvers);
    declared_are_finite(right.resolvers);
    collections::finite_is_listed::<ElementId>(b.dom().union(l.dom()).union(r.dom()));
    collections::finite_is_listed::<ResolverId>(rb.dom().union(rl.dom()).union(rr.dom()));
    let s1 = merge::element_conflicts(ek, b, l, r);
    let s2 = merge::resolver_conflicts(rk, rb, rl, rr);
    let s3 = merge::orphans(mk, merged);
    let s4 = merge::circles(mk, merged);
    let x = MergeConflictModel::Column(id);
    let y = MergeConflictModel::Resolver(id);
    schema_laws::join_contains(s1, s2, x);
    schema_laws::join_contains(s1 + s2, s3, x);
    schema_laws::join_contains(s1 + s2 + s3, s4, x);
    schema_laws::join_contains(s1, s2, y);
    schema_laws::join_contains(s1 + s2, s3, y);
    schema_laws::join_contains(s1 + s2 + s3, s4, y);
    orphans_are_orphans(mk, merged, x);
    orphans_are_orphans(mk, merged, y);
    element_conflicts_are(ek, b, l, r, x);
    element_conflicts_are(ek, b, l, r, y);
    resolver_conflicts_are(rk, rb, rl, rr, x);
    resolver_conflicts_are(rk, rb, rl, rr, y);
    let k = ElementIdModel::Column(id);
    if merge::merged3(merge::at(b, k), merge::at(l, k), merge::at(r, k)) is None {
        assert(b.dom().union(l.dom()).union(r.dom()).contains(k));
        assert(ek.contains(k));
        let i = choose|i: int| 0 <= i < ek.len() && ek[i] == k;
        assert(merge::element_conflict(ek[i]) == x);
    }
    if merge::merged3(merge::at(rb, id), merge::at(rl, id), merge::at(rr, id)) is None {
        assert(rb.dom().union(rl.dom()).union(rr.dom()).contains(id));
        assert(rk.contains(id));
        let i = choose|i: int| 0 <= i < rk.len() && rk[i] == id;
        assert(MergeConflictModel::Resolver(rk[i]) == y);
    }
    if s1.contains(x) {
        let i = choose|i: int|
            0 <= i < ek.len() && x == merge::element_conflict(#[trigger] ek[i]) && merge::merged3(
                merge::at(b, ek[i]),
                merge::at(l, ek[i]),
                merge::at(r, ek[i]),
            ) is None;
        assert(ek[i] == k);
    }
}

proof fn merged_resolvers_are(
    keys: Seq<Seq<char>>,
    b: Map<Seq<char>, ResolverDeclarationModel>,
    l: Map<Seq<char>, ResolverDeclarationModel>,
    r: Map<Seq<char>, ResolverDeclarationModel>,
    d: ResolverDeclarationModel,
)
    ensures
        merge::merged_resolvers(keys, b, l, r).contains(d) <==> exists|i: int|
            0 <= i < keys.len() && merge::merged3(merge::at(b, #[trigger] keys[i]), merge::at(l, keys[i]), merge::at(r, keys[i]))
                == Some(Some(d)),
    decreases keys.len(),
{
    if keys.len() > 0 {
        let rest = keys.drop_last();
        let n = keys.len() - 1;
        let k = keys.last();
        merged_resolvers_are(rest, b, l, r, d);
        assert(keys[n] == k);
        let more = match merge::merged3(merge::at(b, k), merge::at(l, k), merge::at(r, k)) {
            Some(Some(x)) => seq![x],
            _ => Seq::empty(),
        };
        assert(merge::merged_resolvers(keys, b, l, r) =~= merge::merged_resolvers(rest, b, l, r) + more);
        schema_laws::join_contains(merge::merged_resolvers(rest, b, l, r), more, d);
        if let Some(Some(x)) = merge::merged3(merge::at(b, k), merge::at(l, k), merge::at(r, k)) {
            assert(more[0] == x);
        }
        if merge::merged_resolvers(rest, b, l, r).contains(d) {
            let i = choose|i: int|
                0 <= i < rest.len() && merge::merged3(
                    merge::at(b, #[trigger] rest[i]),
                    merge::at(l, rest[i]),
                    merge::at(r, rest[i]),
                ) == Some(Some(d));
            assert(keys[i] == rest[i]);
        }
        assert forall|i: int|
            0 <= i < keys.len() && merge::merged3(
                merge::at(b, #[trigger] keys[i]),
                merge::at(l, keys[i]),
                merge::at(r, keys[i]),
            ) == Some(Some(d)) implies merge::merged_resolvers(keys, b, l, r).contains(d) by {
            if i < n {
                assert(rest[i] == keys[i]);
            }
        }
    }
}

/// What a side that changed a resolver declares; where neither did, what
/// both declare.
pub open spec fn declared_by_the_changer(
    base: SchemaModel,
    left: SchemaModel,
    right: SchemaModel,
    id: Seq<char>,
) -> Option<ResolverDeclarationModel> {
    if declared_as(left, id) == declared_as(base, id) {
        declared_as(right, id)
    } else {
        declared_as(left, id)
    }
}

/// A merge without conflicts declares each resolver as the side that
/// changed it does, and no other.
pub proof fn resolvers_come_from_the_changer(
    base: SchemaModel,
    left: SchemaModel,
    right: SchemaModel,
    d: ResolverDeclarationModel,
)
    requires
        merge::merge_conflicts(base, left, right).len() == 0,
    ensures
        merge::merged_schema(base, left, right).resolvers.contains(d) <==> exists|id: Seq<char>|
            #[trigger] declared_by_the_changer(base, left, right, id) == Some(d),
{
    let rb = merge::resolvers_by_id(base.resolvers);
    let rl = merge::resolvers_by_id(left.resolvers);
    let rr = merge::resolvers_by_id(right.resolvers);
    let rk = merge::all_resolvers(rb, rl, rr);
    declared_are_finite(base.resolvers);
    declared_are_finite(left.resolvers);
    declared_are_finite(right.resolvers);
    collections::finite_is_listed::<ResolverId>(rb.dom().union(rl.dom()).union(rr.dom()));
    merged_resolvers_are(rk, rb, rl, rr, d);
    assert forall|id: Seq<char>| merge::merged3(merge::at(rb, id), merge::at(rl, id), merge::at(rr, id)) == Some(
        #[trigger] declared_by_the_changer(base, left, right, id),
    ) by {
        only_different_changes_conflict(base, left, right, id);
        assert(!merge::merge_conflicts(base, left, right).contains(MergeConflictModel::Resolver(id)));
    }
    if merge::merged_schema(base, left, right).resolvers.contains(d) {
        let i = choose|i: int|
            0 <= i < rk.len() && merge::merged3(merge::at(rb, #[trigger] rk[i]), merge::at(rl, rk[i]), merge::at(rr, rk[i]))
                == Some(Some(d));
        assert(declared_by_the_changer(base, left, right, rk[i]) == Some(d));
    }
    assert forall|id: Seq<char>|
        #[trigger] declared_by_the_changer(base, left, right, id) == Some(
            d,
        ) implies merge::merged_schema(base, left, right).resolvers.contains(d) by {
        assert(rb.dom().union(rl.dom()).union(rr.dom()).contains(id));
        assert(rk.contains(id));
        let i = choose|i: int| 0 <= i < rk.len() && rk[i] == id;
        assert(merge::merged3(merge::at(rb, rk[i]), merge::at(rl, rk[i]), merge::at(rr, rk[i])) == Some(Some(d)));
    }
}

/// Whether a list names the elements of another, each where it first
/// stands there.
pub open spec fn lists_first_places(
    list: Seq<ElementIdModel>,
    all: Seq<ElementIdModel>,
) -> bool {
    &&& forall|x: ElementIdModel| #[trigger] list.contains(x) <==> all.contains(x)
    &&& forall|i: int, j: int|
        #![trigger list[i], list[j]]
        0 <= i < j < list.len() ==> stands_first(all, list[i], list[j])
}

/// Whether an element stands in a list before any place of another.
pub open spec fn stands_first(
    all: Seq<ElementIdModel>,
    x: ElementIdModel,
    y: ElementIdModel,
) -> bool {
    exists|p: int|
        0 <= p < all.len() && #[trigger] all[p] == x && forall|q: int|
            0 <= q <= p ==> #[trigger] all[q] != y
}

proof fn adding_lists_first_places(
    list: Seq<ElementIdModel>,
    all: Seq<ElementIdModel>,
    more: Seq<ElementIdModel>,
)
    requires
        lists_first_places(list, all),
    ensures
        lists_first_places(merge::with_new(list, more), all + more),
    decreases more.len(),
{
    if more.len() == 0 {
        assert(all + more =~= all);
    } else {
        let rest = more.drop_last();
        let last = more.last();
        let before = merge::with_new(list, rest);
        let seen = all + rest;
        let now = all + more;
        adding_lists_first_places(list, all, rest);
        assert(now =~= seen.push(last));
        let out = merge::with_new(list, more);
        assert forall|x: ElementIdModel| #[trigger] out.contains(x) <==> now.contains(x) by {
            schema_laws::join_contains(seen, seq![last], x);
            assert(now =~= seen + seq![last]);
            assert(seq![last][0] == last);
            assert(seq![last].contains(x) == (x == last));
            if before.contains(last) {
            } else {
                assert(out =~= before + seq![last]);
                schema_laws::join_contains(before, seq![last], x);
            }
        }
        assert forall|i: int, j: int|
            #![trigger out[i], out[j]]
            0 <= i < j < out.len() implies stands_first(now, out[i], out[j]) by {
            assert(out[i] == before[i]);
            if j < before.len() {
                assert(out[j] == before[j]);
                let p = choose|p: int|
                    0 <= p < seen.len() && #[trigger] seen[p] == before[i] && forall|q: int|
                        0 <= q <= p ==> #[trigger] seen[q] != before[j];
                assert(now[p] == out[i]);
                assert forall|q: int| 0 <= q <= p implies #[trigger] now[q] != out[j] by {
                    assert(seen[q] == now[q]);
                }
            } else {
                assert(before.contains(before[i]));
                assert(seen.contains(before[i]));
                let p = choose|p: int| 0 <= p < seen.len() && seen[p] == before[i];
                assert(now[p] == out[i]);
                assert forall|q: int| 0 <= q <= p implies #[trigger] now[q] != out[j] by {
                    assert(seen[q] == now[q]);
                    assert(seen.contains(seen[q]));
                    assert(!before.contains(last));
                    assert(before.contains(seen[q]));
                }
            }
        }
    }
}

/// The identity of an element of a tree.
pub open spec fn tree_id(e: ElementModel) -> ElementIdModel {
    match e {
        ElementModel::Column(c) => ElementIdModel::Column(c.id),
        ElementModel::Group(g) => ElementIdModel::Group(g.id),
    }
}

/// Whether a group of a merge bears its own id.
pub open spec fn ids_are_their_own(merged: Map<ElementIdModel, DefModel>) -> bool {
    forall|k: ElementIdModel| #[trigger]
        merged.dom().contains(k) ==> merge::id_of(merged[k].shell) == k
}

proof fn rebuilt_keeps_order(
    keys: Seq<ElementIdModel>,
    container: Option<Seq<char>>,
    merged: Map<ElementIdModel, DefModel>,
    l: Seq<PlacedModel>,
    r: Seq<PlacedModel>,
    depth: nat,
    i: int,
    j: int,
) -> (p: (int, int))
    requires
        ids_are_their_own(merged),
        0 <= i < j < merge::rebuilt_each(keys, container, merged, l, r, depth).len(),
    ensures
        0 <= p.0 < p.1 < keys.len(),
        tree_id(merge::rebuilt_each(keys, container, merged, l, r, depth)[i]) == keys[p.0],
        tree_id(merge::rebuilt_each(keys, container, merged, l, r, depth)[j]) == keys[p.1],
    decreases keys.len(),
{
    let rest = keys.drop_last();
    let before = merge::rebuilt_each(rest, container, merged, l, r, depth);
    let all = merge::rebuilt_each(keys, container, merged, l, r, depth);
    if j < before.len() {
        let p = rebuilt_keeps_order(rest, container, merged, l, r, depth, i, j);
        assert(all[i] == before[i] && all[j] == before[j]);
        assert(rest[p.0] == keys[p.0] && rest[p.1] == keys[p.1]);
        p
    } else {
        let q = one_is_rebuilt(rest, container, merged, l, r, depth, i);
        assert(all[i] == before[i]);
        assert(rest[q] == keys[q]);
        assert(keys[keys.len() - 1] == keys.last());
        (q, keys.len() - 1)
    }
}

proof fn one_is_rebuilt(
    keys: Seq<ElementIdModel>,
    container: Option<Seq<char>>,
    merged: Map<ElementIdModel, DefModel>,
    l: Seq<PlacedModel>,
    r: Seq<PlacedModel>,
    depth: nat,
    i: int,
) -> (p: int)
    requires
        ids_are_their_own(merged),
        0 <= i < merge::rebuilt_each(keys, container, merged, l, r, depth).len(),
    ensures
        0 <= p < keys.len(),
        tree_id(merge::rebuilt_each(keys, container, merged, l, r, depth)[i]) == keys[p],
    decreases keys.len(),
{
    let rest = keys.drop_last();
    let before = merge::rebuilt_each(rest, container, merged, l, r, depth);
    let all = merge::rebuilt_each(keys, container, merged, l, r, depth);
    if i < before.len() {
        let p = one_is_rebuilt(rest, container, merged, l, r, depth, i);
        assert(all[i] == before[i]);
        assert(rest[p] == keys[p]);
        p
    } else {
        assert(keys[keys.len() - 1] == keys.last());
        keys.len() - 1
    }
}

proof fn defs_bear_their_ids(s: Seq<PlacedModel>)
    ensures
        ids_are_their_own(merge::defs_of(s)),
    decreases s.len(),
{
    if s.len() > 0 {
        defs_bear_their_ids(s.drop_last());
    }
}

/// The elements that a merge puts into a container come in the left
/// side's order, and behind them those that only the right side has
/// there, in its order: each where it first stands among what the left
/// and then the right side hold in that container.
pub proof fn merged_elements_keep_their_order(
    base: SchemaModel,
    left: SchemaModel,
    right: SchemaModel,
    container: Option<Seq<char>>,
    depth: nat,
    i: int,
    j: int,
)
    requires
        ({
            let merged = merge::merged_defs(
                merge::defs_of(schema::schema_elements(base)),
                merge::defs_of(schema::schema_elements(left)),
                merge::defs_of(schema::schema_elements(right)),
            );
            0 <= i < j < merge::rebuilt(
                container,
                merged,
                schema::schema_elements(left),
                schema::schema_elements(right),
                depth,
            ).len()
        }),
    ensures
        ({
            let l = schema::schema_elements(left);
            let r = schema::schema_elements(right);
            let merged = merge::merged_defs(merge::defs_of(schema::schema_elements(base)), merge::defs_of(l), merge::defs_of(r));
            let out = merge::rebuilt(container, merged, l, r, depth);
            stands_first(
                merge::held_by(l, container) + merge::held_by(r, container),
                tree_id(out[i]),
                tree_id(out[j]),
            )
        }),
{
    let b = schema::schema_elements(base);
    let l = schema::schema_elements(left);
    let r = schema::schema_elements(right);
    let merged = merge::merged_defs(merge::defs_of(b), merge::defs_of(l), merge::defs_of(r));
    defs_bear_their_ids(b);
    defs_bear_their_ids(l);
    defs_bear_their_ids(r);
    assert(ids_are_their_own(merged)) by {
        assert forall|k: ElementIdModel| #[trigger] merged.dom().contains(k) implies merge::id_of(
            merged[k].shell,
        ) == k by {
            assert(merge::defs_of(b).dom().contains(k) || merge::defs_of(l).dom().contains(k)
                || merge::defs_of(r).dom().contains(k));
        }
    }
    let none = Seq::<ElementIdModel>::empty();
    let hl = merge::held_by(l, container);
    let hr = merge::held_by(r, container);
    assert(lists_first_places(none, none));
    adding_lists_first_places(none, none, hl);
    assert(none + hl =~= hl);
    adding_lists_first_places(merge::with_new(none, hl), hl, hr);
    let keys = merge::container_order(l, r, container);
    let p = rebuilt_keeps_order(keys, container, merged, l, r, (depth - 1) as nat, i, j);
    assert(stands_first(hl + hr, keys[p.0], keys[p.1]));
}

/// What a container holds is listed in the order in which its elements
/// stand: an element more at the end is listed last where it lies
/// directly in the container, and not at all where it does not.
pub proof fn containers_list_what_they_hold(
    s: Seq<PlacedModel>,
    p: PlacedModel,
    container: Option<Seq<char>>,
)
    ensures
        merge::held_by(Seq::empty(), container).len() == 0,
        p.parent == container ==> merge::held_by(s.push(p), container) == merge::held_by(s, container).push(
            match p.shell {
                ShellModel::Column(c) => ElementIdModel::Column(c.id),
                ShellModel::Group(g) => ElementIdModel::Group(g.id),
            },
        ),
        p.parent != container ==> merge::held_by(s.push(p), container) == merge::held_by(s, container),
{
    assert(s.push(p).drop_last() =~= s);
}

} // verus!
