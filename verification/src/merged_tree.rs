//! The schema that a merge puts together: every element that the merge
//! keeps, once, in its container, and nothing else.

use vstd::prelude::*;
use crate::collections;
use crate::merge;
use crate::schema;
use crate::merge::{DefModel, ElementId, ElementIdModel, merge};
use crate::schema::{
    Column, ElementModel, Group, PlacedModel, ResolverDeclarationModel, SchemaModel, ShellModel,
};

verus! {

/// How many groups are above a container, itself with them.
spec fn level(m: Map<ElementIdModel, DefModel>, c: Option<Seq<char>>) -> nat {
    merge::rank(m, c, m.dom().len())
}

/// Whether a container is the root or a merged group.
spec fn stands(m: Map<ElementIdModel, DefModel>, c: Option<Seq<char>>) -> bool {
    c matches Some(g) ==> m.dom().contains(ElementIdModel::Group(g))
}

/// The container of a container.
spec fn outside(m: Map<ElementIdModel, DefModel>, c: Option<Seq<char>>) -> Option<Seq<char>> {
    match c {
        Some(g) => m[ElementIdModel::Group(g)].parent,
        None => None,
    }
}

/// The container some steps above a container.
spec fn up(m: Map<ElementIdModel, DefModel>, c: Option<Seq<char>>, d: nat) -> Option<Seq<char>>
    decreases d,
{
    if d == 0 {
        c
    } else {
        outside(m, up(m, c, (d - 1) as nat))
    }
}

/// Definitions that make up a tree, each listed by one of two sides in
/// the container that it names.
spec fn is_tree(
    m: Map<ElementIdModel, DefModel>,
    l: Seq<PlacedModel>,
    r: Seq<PlacedModel>,
) -> bool {
    &&& m.dom().finite()
    &&& forall|k: ElementIdModel| #[trigger]
        m.dom().contains(k) ==> {
            &&& merge::id_of(m[k].shell) == k
            &&& stands(m, m[k].parent)
            &&& merge::ends_within(m, m[k].parent, m.dom().len())
            &&& merge::container_order(l, r, m[k].parent).contains(k)
        }
}

proof fn one_level_up(
    m: Map<ElementIdModel, DefModel>,
    l: Seq<PlacedModel>,
    r: Seq<PlacedModel>,
    g: Seq<char>,
)
    requires
        is_tree(m, l, r),
        m.dom().contains(ElementIdModel::Group(g)),
    ensures
        level(m, Some(g)) == 1 + level(m, outside(m, Some(g))),
        stands(m, outside(m, Some(g))),
        level(m, outside(m, Some(g))) < m.dom().len(),
{
    let n = m.dom().len();
    let k = ElementIdModel::Group(g);
    let p = m[k].parent;
    assert(merge::ends_within(m, Some(g), n + 1));
    merge::groups_above_are(m, Some(g), n + 1);
    vstd::set_lib::lemma_len_subset(merge::groups_above(m, Some(g), n + 1), m.dom());
    let t = merge::rank(m, Some(g), n + 1);
    merge::more_steps_change_nothing(m, Some(g), t, n + 1);
    merge::more_steps_change_nothing(m, Some(g), t, n);
    assert(merge::ends_within(m, Some(g), n));
    merge::more_steps_change_nothing(m, p, (n - 1) as nat, n);
}

proof fn up_is_higher(
    m: Map<ElementIdModel, DefModel>,
    l: Seq<PlacedModel>,
    r: Seq<PlacedModel>,
    c: Option<Seq<char>>,
    d: nat,
)
    requires
        is_tree(m, l, r),
        stands(m, c),
        d <= level(m, c),
    ensures
        stands(m, up(m, c, d)),
        level(m, up(m, c, d)) == level(m, c) - d,
    decreases d,
{
    if d > 0 {
        up_is_higher(m, l, r, c, (d - 1) as nat);
        let y = up(m, c, (d - 1) as nat);
        if let Some(g) = y {
            one_level_up(m, l, r, g);
        }
    }
}

/// The child of a container through which an element stands in it.
spec fn through(
    m: Map<ElementIdModel, DefModel>,
    c: Option<Seq<char>>,
    x: PlacedModel,
) -> ElementIdModel {
    if level(m, x.parent) == level(m, c) {
        merge::id_of(x.shell)
    } else {
        ElementIdModel::Group(up(m, x.parent, (level(m, x.parent) - level(m, c) - 1) as nat)->0)
    }
}

/// Whether an element is merged, just as it is, and stands in a container
/// or below.
spec fn belongs(
    m: Map<ElementIdModel, DefModel>,
    c: Option<Seq<char>>,
    x: PlacedModel,
) -> bool {
    let k = merge::id_of(x.shell);
    &&& m.dom().contains(k)
    &&& m[k] == (DefModel { shell: x.shell, parent: x.parent })
    &&& level(m, x.parent) >= level(m, c)
    &&& up(m, x.parent, (level(m, x.parent) - level(m, c)) as nat) == c
}

/// The element with an identity, with what it holds.
spec fn built(
    m: Map<ElementIdModel, DefModel>,
    l: Seq<PlacedModel>,
    r: Seq<PlacedModel>,
    k: ElementIdModel,
    d: nat,
) -> ElementModel {
    match m[k].shell {
        ShellModel::Column(c) => ElementModel::Column(c),
        ShellModel::Group(g) => ElementModel::Group(
            merge::group_with(g, merge::rebuilt(Some(g.id), m, l, r, d)),
        ),
    }
}

proof fn with_new_has(list: Seq<ElementIdModel>, more: Seq<ElementIdModel>)
    ensures
        forall|k: ElementIdModel| #[trigger]
            merge::with_new(list, more).contains(k) <==> list.contains(k) || more.contains(k),
        list.no_duplicates() ==> merge::with_new(list, more).no_duplicates(),
    decreases more.len(),
{
    if more.len() > 0 {
        let less = more.drop_last();
        with_new_has(list, less);
        let rest = merge::with_new(list, less);
        let all = merge::with_new(list, more);
        assert forall|k: ElementIdModel| #[trigger] all.contains(k) <==> list.contains(k)
            || more.contains(k) by {
            assert(more[more.len() - 1] == more.last());
            if less.contains(k) {
                assert(more[less.index_of(k)] == k);
            }
            if more.contains(k) && k != more.last() {
                assert(less[more.index_of(k)] == k);
            }
            if rest.contains(k) {
                assert(all[rest.index_of(k)] == k);
            }
            if !rest.contains(more.last()) {
                assert(all[rest.len() as int] == more.last());
                if all.contains(k) && k != more.last() {
                    assert(rest[all.index_of(k)] == k);
                }
            }
        }
        if list.no_duplicates() && !rest.contains(more.last()) {
            assert forall|i: int, j: int|
                0 <= i < all.len() && 0 <= j < all.len() && i != j implies all[i] != all[j] by {
                if i == rest.len() {
                    assert(rest.contains(rest[j]));
                } else if j == rest.len() {
                    assert(rest.contains(rest[i]));
                }
            }
        }
    }
}

proof fn container_order_has(
    l: Seq<PlacedModel>,
    r: Seq<PlacedModel>,
    c: Option<Seq<char>>,
)
    ensures
        forall|k: ElementIdModel| #[trigger]
            merge::container_order(l, r, c).contains(k) <==> merge::held_by(l, c).contains(k) || merge::held_by(
                r,
                c,
            ).contains(k),
        merge::container_order(l, r, c).no_duplicates(),
{
    let none = Seq::<ElementIdModel>::empty();
    with_new_has(none, merge::held_by(l, c));
    with_new_has(merge::with_new(none, merge::held_by(l, c)), merge::held_by(r, c));
}

proof fn distinct_join(a: Seq<PlacedModel>, b: Seq<PlacedModel>)
    requires
        merge::ids_of(a).no_duplicates(),
        merge::ids_of(b).no_duplicates(),
        forall|i: int, j: int|
            0 <= i < a.len() && 0 <= j < b.len() ==> merge::id_of((#[trigger] a[i]).shell) != merge::id_of(
                (#[trigger] b[j]).shell,
            ),
    ensures
        merge::ids_of(a + b).no_duplicates(),
{
    let all = a + b;
    assert forall|i: int, j: int|
        0 <= i < all.len() && 0 <= j < all.len() && i != j implies merge::ids_of(all)[i] != merge::ids_of(
        all,
    )[j] by {
        if i < a.len() && j < a.len() {
            assert(merge::ids_of(a)[i] != merge::ids_of(a)[j]);
        } else if i < a.len() {
            assert(all[i] == a[i] && all[j] == b[j - a.len()]);
        } else if j < a.len() {
            assert(all[j] == a[j] && all[i] == b[i - a.len()]);
        } else {
            assert(merge::ids_of(b)[i - a.len()] != merge::ids_of(b)[j - a.len()]);
        }
    }
}

proof fn one_is_whole(
    m: Map<ElementIdModel, DefModel>,
    l: Seq<PlacedModel>,
    r: Seq<PlacedModel>,
    k: ElementIdModel,
    s: Seq<Seq<char>>,
    d: nat,
)
    requires
        is_tree(m, l, r),
        m.dom().contains(k),
    ensures
        merge::ids_of(schema::placed_one(built(m, l, r, k, d), m[k].parent, s)).no_duplicates(),
        schema::placed_one(built(m, l, r, k, d), m[k].parent, s).len() > 0,
        merge::id_of(schema::placed_one(built(m, l, r, k, d), m[k].parent, s)[0].shell) == k,
        forall|i: int|
            0 <= i < schema::placed_one(built(m, l, r, k, d), m[k].parent, s).len() ==> {
                let x = #[trigger] schema::placed_one(built(m, l, r, k, d), m[k].parent, s)[i];
                belongs(m, m[k].parent, x) && through(m, m[k].parent, x) == k
            },
    decreases d, 1nat,
{
    let c = m[k].parent;
    let e = built(m, l, r, k, d);
    let all = schema::placed_one(e, c, s);
    match m[k].shell {
        ShellModel::Column(col) => {
            assert(all =~= seq![all[0]]);
        },
        ShellModel::Group(g) => {
            let children = merge::rebuilt(Some(g.id), m, l, r, d);
            let group = merge::group_with(g, children);
            assert(schema::shell_of(group) == g);
            assert(k == ElementIdModel::Group(g.id));
            let inner = schema::inner_scope(group.cardinality, group.id, s);
            let below = schema::placed(children, Some(g.id), inner);
            one_level_up(m, l, r, g.id);
            rest_is_whole(m, l, r, Some(g.id), inner, d);
            let first = seq![all[0]];
            assert(all =~= first + below);
            assert(belongs(m, c, all[0]) && through(m, c, all[0]) == k);
            assert forall|i: int| 0 <= i < below.len() implies belongs(m, c, #[trigger] below[i])
                && through(m, c, below[i]) == k && level(m, below[i].parent) > level(m, c) by {
                let x = below[i];
                assert(belongs(m, Some(g.id), x));
                let h = (level(m, x.parent) - level(m, c) - 1) as nat;
                assert(up(m, x.parent, h) == Some(g.id));
                assert(up(m, x.parent, h + 1) == outside(m, Some(g.id)));
            }
            assert(merge::ids_of(first).no_duplicates());
            assert forall|i: int, j: int| 0 <= i < first.len() && 0 <= j < below.len() implies merge::id_of(
                (#[trigger] first[i]).shell,
            ) != merge::id_of((#[trigger] below[j]).shell) by {
                assert(belongs(m, c, below[j]));
                assert(level(m, below[j].parent) > level(m, c));
            }
            distinct_join(first, below);
            assert forall|i: int| 0 <= i < all.len() implies belongs(m, c, #[trigger] all[i])
                && through(m, c, all[i]) == k by {
                if i > 0 {
                    assert(all[i] == below[i - 1]);
                }
            }
        },
    }
}

proof fn rest_is_whole(
    m: Map<ElementIdModel, DefModel>,
    l: Seq<PlacedModel>,
    r: Seq<PlacedModel>,
    c: Option<Seq<char>>,
    s: Seq<Seq<char>>,
    d: nat,
)
    requires
        is_tree(m, l, r),
        stands(m, c),
    ensures
        merge::ids_of(schema::placed(merge::rebuilt(c, m, l, r, d), c, s)).no_duplicates(),
        forall|i: int|
            0 <= i < schema::placed(merge::rebuilt(c, m, l, r, d), c, s).len() ==> belongs(
                m,
                c,
                #[trigger] schema::placed(merge::rebuilt(c, m, l, r, d), c, s)[i],
            ),
    decreases d, 0nat,
{
    if d > 0 {
        container_order_has(l, r, c);
        each_is_whole(merge::container_order(l, r, c), m, l, r, c, s, (d - 1) as nat);
    }
}

proof fn each_is_whole(
    keys: Seq<ElementIdModel>,
    m: Map<ElementIdModel, DefModel>,
    l: Seq<PlacedModel>,
    r: Seq<PlacedModel>,
    c: Option<Seq<char>>,
    s: Seq<Seq<char>>,
    d: nat,
)
    requires
        is_tree(m, l, r),
        stands(m, c),
        keys.no_duplicates(),
    ensures
        merge::ids_of(schema::placed(merge::rebuilt_each(keys, c, m, l, r, d), c, s)).no_duplicates(),
        forall|i: int|
            0 <= i < schema::placed(merge::rebuilt_each(keys, c, m, l, r, d), c, s).len() ==> {
                let x = #[trigger] schema::placed(merge::rebuilt_each(keys, c, m, l, r, d), c, s)[i];
                belongs(m, c, x) && keys.contains(through(m, c, x))
            },
    decreases d, keys.len() + 2,
{
    if keys.len() > 0 {
        let less = keys.drop_last();
        let k = keys.last();
        assert forall|i: int, j: int|
            0 <= i < less.len() && 0 <= j < less.len() && i != j implies less[i] != less[j] by {
            assert(keys[i] != keys[j]);
        }
        each_is_whole(less, m, l, r, c, s, d);
        let rest = schema::placed(merge::rebuilt_each(less, c, m, l, r, d), c, s);
        let all = schema::placed(merge::rebuilt_each(keys, c, m, l, r, d), c, s);
        assert(keys[keys.len() - 1] == k);
        assert forall|q: ElementIdModel| less.contains(q) implies keys.contains(q) && q != k by {
            let i = less.index_of(q);
            assert(keys[i] == q);
        }
        if m.dom().contains(k) && m[k].parent == c {
            one_is_whole(m, l, r, k, s, d);
            let one = schema::placed_one(built(m, l, r, k, d), c, s);
            let e = merge::rebuilt_each(keys, c, m, l, r, d);
            assert(e.drop_last() =~= merge::rebuilt_each(less, c, m, l, r, d));
            assert(e.last() == built(m, l, r, k, d));
            assert(all == rest + one);
            assert forall|i: int, j: int| 0 <= i < rest.len() && 0 <= j < one.len() implies merge::id_of(
                (#[trigger] rest[i]).shell,
            ) != merge::id_of((#[trigger] one[j]).shell) by {
                assert(belongs(m, c, rest[i]) && less.contains(through(m, c, rest[i])));
                assert(belongs(m, c, one[j]) && through(m, c, one[j]) == k);
            }
            distinct_join(rest, one);
            assert forall|i: int| 0 <= i < all.len() implies belongs(m, c, #[trigger] all[i])
                && keys.contains(through(m, c, all[i])) by {
                if i < rest.len() {
                    assert(all[i] == rest[i]);
                } else {
                    assert(all[i] == one[i - rest.len()]);
                }
            }
        } else {
            assert forall|i: int| 0 <= i < all.len() implies belongs(m, c, #[trigger] all[i])
                && keys.contains(through(m, c, all[i])) by {
                assert(all[i] == rest[i]);
            }
        }
    }
}

/// What a child of a container holds is in the container.
proof fn child_is_in(
    keys: Seq<ElementIdModel>,
    m: Map<ElementIdModel, DefModel>,
    l: Seq<PlacedModel>,
    r: Seq<PlacedModel>,
    c: Option<Seq<char>>,
    s: Seq<Seq<char>>,
    d: nat,
    i: int,
    k: ElementIdModel,
)
    requires
        0 <= i < keys.len(),
        m.dom().contains(keys[i]),
        m[keys[i]].parent == c,
        merge::ids_of(schema::placed_one(built(m, l, r, keys[i], d), c, s)).contains(k),
    ensures
        merge::ids_of(schema::placed(merge::rebuilt_each(keys, c, m, l, r, d), c, s)).contains(k),
    decreases keys.len(),
{
    let less = keys.drop_last();
    let last = keys.last();
    let e = merge::rebuilt_each(keys, c, m, l, r, d);
    let rest = schema::placed(merge::rebuilt_each(less, c, m, l, r, d), c, s);
    let all = schema::placed(e, c, s);
    if m.dom().contains(last) && m[last].parent == c {
        let one = schema::placed_one(built(m, l, r, last, d), c, s);
        assert(e.drop_last() =~= merge::rebuilt_each(less, c, m, l, r, d));
        assert(e.last() == built(m, l, r, last, d));
        assert(all == rest + one);
        merge::ids_of_both(rest, one);
        if i == keys.len() - 1 {
            let j = merge::ids_of(one).index_of(k);
            assert(merge::ids_of(all)[rest.len() + j] == k);
        } else {
            assert(less[i] == keys[i]);
            child_is_in(less, m, l, r, c, s, d, i, k);
            let j = merge::ids_of(rest).index_of(k);
            assert(merge::ids_of(all)[j] == k);
        }
    } else {
        assert(less[i] == keys[i]);
        child_is_in(less, m, l, r, c, s, d, i, k);
    }
}

proof fn nothing_is_left_out(
    m: Map<ElementIdModel, DefModel>,
    l: Seq<PlacedModel>,
    r: Seq<PlacedModel>,
    c: Option<Seq<char>>,
    s: Seq<Seq<char>>,
    d: nat,
    k: ElementIdModel,
)
    requires
        is_tree(m, l, r),
        stands(m, c),
        m.dom().contains(k),
        level(m, m[k].parent) >= level(m, c),
        up(m, m[k].parent, (level(m, m[k].parent) - level(m, c)) as nat) == c,
        level(m, m[k].parent) - level(m, c) < d,
    ensures
        merge::ids_of(schema::placed(merge::rebuilt(c, m, l, r, d), c, s)).contains(k),
    decreases d,
{
    let e = (d - 1) as nat;
    let p = m[k].parent;
    let keys = merge::container_order(l, r, c);
    if p == c {
        let i = keys.index_of(k);
        one_is_whole(m, l, r, k, s, e);
        assert(merge::ids_of(schema::placed_one(built(m, l, r, k, e), c, s))[0] == k);
        child_is_in(keys, m, l, r, c, s, e, i, k);
    } else {
        assert(level(m, p) > level(m, c)) by {
            if level(m, p) == level(m, c) {
                assert(up(m, p, 0) == p);
            }
        }
        let h = (level(m, p) - level(m, c) - 1) as nat;
        let y = up(m, p, h);
        up_is_higher(m, l, r, p, h);
        assert(level(m, y) == level(m, c) + 1);
        assert(y is Some);
        let g = y->0;
        let child = ElementIdModel::Group(g);
        assert(up(m, p, h + 1) == outside(m, y));
        assert(m[child].parent == c);
        let i = keys.index_of(child);
        match m[child].shell {
            ShellModel::Group(sh) => {
                let children = merge::rebuilt(Some(sh.id), m, l, r, e);
                let group = merge::group_with(sh, children);
                let inner = schema::inner_scope(group.cardinality, group.id, s);
                nothing_is_left_out(m, l, r, Some(g), inner, e, k);
                let below = schema::placed(children, Some(g), inner);
                let one = schema::placed_one(built(m, l, r, child, e), c, s);
                assert(one =~= seq![one[0]] + below);
                let j = merge::ids_of(below).index_of(k);
                assert(one[j + 1] == below[j]);
                assert(merge::ids_of(one)[j + 1] == k);
            },
            ShellModel::Column(_) => {
                assert(merge::id_of(m[child].shell) == child);
            },
        }
        child_is_in(keys, m, l, r, c, s, e, i, k);
    }
}

proof fn merge_is_a_tree(base: SchemaModel, left: SchemaModel, right: SchemaModel)
    requires
        merge::merge_conflicts(base, left, right).len() == 0,
    ensures
        is_tree(
            merge::merged_defs(
                merge::defs_of(schema::schema_elements(base)),
                merge::defs_of(schema::schema_elements(left)),
                merge::defs_of(schema::schema_elements(right)),
            ),
            schema::schema_elements(left),
            schema::schema_elements(right),
        ),
{
    let b = merge::defs_of(schema::schema_elements(base));
    let p = schema::schema_elements(left);
    let q = schema::schema_elements(right);
    let l = merge::defs_of(p);
    let r = merge::defs_of(q);
    let m = merge::merged_defs(b, l, r);
    merge::merged_is_finite(base, left, right);
    assert forall|k: ElementIdModel| #[trigger] m.dom().contains(k) implies {
        &&& merge::id_of(m[k].shell) == k
        &&& stands(m, m[k].parent)
        &&& merge::ends_within(m, m[k].parent, m.dom().len())
        &&& merge::container_order(p, q, m[k].parent).contains(k)
    } by {
        merge::merge_invents_nothing(b, l, r, k);
        container_order_has(p, q, m[k].parent);
        if merge::at(l, k) == Some(m[k]) {
            merge::def_is_placed(p, k);
            let i = choose|i: int|
                0 <= i < p.len() && merge::id_of((#[trigger] p[i]).shell) == k && l[k] == (DefModel {
                    shell: p[i].shell,
                    parent: p[i].parent,
                });
            merge::placed_is_held(p, i);
        } else {
            merge::def_is_placed(q, k);
            let i = choose|i: int|
                0 <= i < q.len() && merge::id_of((#[trigger] q[i]).shell) == k && r[k] == (DefModel {
                    shell: q[i].shell,
                    parent: q[i].parent,
                });
            merge::placed_is_held(q, i);
        }
        if !stands(m, m[k].parent) {
            merge::elements_of_a_lost_group_conflict(base, left, right, k);
        }
        if let Some(g) = m[k].parent {
            if !merge::chain_ends(m, Some(g)) {
                merge::crossed_moves_conflict(base, left, right, g);
            }
            let n = choose|n: nat| merge::ends_within(m, Some(g), n);
            merge::chains_are_short(m, Some(g), n);
        }
    }
}

/// A merge without conflicts keeps everything: the schema that comes out
/// has exactly the merged elements, each once and in its container.
pub proof fn merged_schema_is_the_merge(
    base: SchemaModel,
    left: SchemaModel,
    right: SchemaModel,
)
    requires
        merge::merge_conflicts(base, left, right).len() == 0,
    ensures
        merge::ids_are_distinct(merge::merged_schema(base, left, right)),
        merge::defs_of(schema::schema_elements(merge::merged_schema(base, left, right))) == merge::merged_defs(
            merge::defs_of(schema::schema_elements(base)),
            merge::defs_of(schema::schema_elements(left)),
            merge::defs_of(schema::schema_elements(right)),
        ),
{
    let b = merge::defs_of(schema::schema_elements(base));
    let l = schema::schema_elements(left);
    let r = schema::schema_elements(right);
    let m = merge::merged_defs(b, merge::defs_of(l), merge::defs_of(r));
    merge_is_a_tree(base, left, right);
    collections::finite_is_listed::<ElementId>(m.dom());
    let keys = collections::key_order::<ElementId>(m.dom());
    collections::in_order_is_distinct::<ElementId>(keys);
    keys.unique_seq_to_set();
    assert(keys.to_set() =~= m.dom());
    let n = keys.len();
    assert(n == m.dom().len());
    let none = Seq::<Seq<char>>::empty();
    let p = schema::placed(merge::rebuilt(None, m, l, r, n), None, none);
    rest_is_whole(m, l, r, None, none, n);
    let d = merge::defs_of(p);
    assert forall|k: ElementIdModel| m.dom().contains(k) implies d.dom().contains(k) && d[k]
        == m[k] by {
        let c = m[k].parent;
        element_is_not_too_deep(m, l, r, k);
        up_is_higher(m, l, r, c, level(m, c));
        root_is_alone(m, l, r, up(m, c, level(m, c)));
        nothing_is_left_out(m, l, r, None, none, n, k);
        let i = merge::ids_of(p).index_of(k);
        assert(merge::id_of(p[i].shell) == k);
        merge::placed_is_def(p, i);
        assert(belongs(m, None, p[i]));
    }
    assert forall|k: ElementIdModel| d.dom().contains(k) implies m.dom().contains(k) by {
        merge::def_is_placed(p, k);
        let i = choose|i: int|
            0 <= i < p.len() && merge::id_of((#[trigger] p[i]).shell) == k && d[k] == (DefModel {
                shell: p[i].shell,
                parent: p[i].parent,
            });
        assert(belongs(m, None, p[i]));
    }
    assert(d =~= m);
}

proof fn root_is_alone(
    m: Map<ElementIdModel, DefModel>,
    l: Seq<PlacedModel>,
    r: Seq<PlacedModel>,
    c: Option<Seq<char>>,
)
    requires
        is_tree(m, l, r),
        stands(m, c),
        level(m, c) == 0,
    ensures
        c == None::<Seq<char>>,
{
    if let Some(g) = c {
        one_level_up(m, l, r, g);
    }
}

proof fn element_is_not_too_deep(
    m: Map<ElementIdModel, DefModel>,
    l: Seq<PlacedModel>,
    r: Seq<PlacedModel>,
    k: ElementIdModel,
)
    requires
        is_tree(m, l, r),
        m.dom().contains(k),
    ensures
        level(m, m[k].parent) < m.dom().len(),
{
    match k {
        ElementIdModel::Group(g) => one_level_up(m, l, r, g),
        ElementIdModel::Column(_) => {
            let n = m.dom().len();
            let above = merge::groups_above(m, m[k].parent, n);
            merge::groups_above_are(m, m[k].parent, n);
            assert(!above.contains(k));
            assert(above.insert(k).subset_of(m.dom()));
            vstd::set_lib::lemma_len_subset(above.insert(k), m.dom());
        },
    }
}

/// Merging does not depend on which side is which: both orders refuse
/// with the same conflicts, or both give schemas with the same elements
/// in the same containers and the same resolvers.
pub proof fn merged_schema_is_symmetric(
    base: SchemaModel,
    left: SchemaModel,
    right: SchemaModel,
)
    ensures
        merge::merge_conflicts(base, left, right) == merge::merge_conflicts(base, right, left),
        merge::merge_conflicts(base, left, right).len() == 0 ==> {
            let one = merge::merged_schema(base, left, right);
            let other = merge::merged_schema(base, right, left);
            &&& merge::ids_are_distinct(one) && merge::ids_are_distinct(other)
            &&& merge::defs_of(schema::schema_elements(one)) == merge::defs_of(schema::schema_elements(other))
            &&& one.resolvers == other.resolvers
        },
{
    merge::merge_is_symmetric(base, left, right);
    if merge::merge_conflicts(base, left, right).len() == 0 {
        merged_schema_is_the_merge(base, left, right);
        merged_schema_is_the_merge(base, right, left);
    }
}

/// Where the left side did not move, the merge is the right side: the
/// same elements in the same containers, each once, and the same
/// resolvers.
pub proof fn unmoved_left_yields_the_right(base: SchemaModel, x: SchemaModel)
    requires
        merge::ids_are_distinct(x),
        merge::resolvers_in_order(x.resolvers),
    ensures
        merge::merge_conflicts(base, base, x).len() == 0,
        merge::ids_are_distinct(merge::merged_schema(base, base, x)),
        merge::defs_of(schema::schema_elements(merge::merged_schema(base, base, x))) == merge::defs_of(schema::schema_elements(x)),
        merge::merged_schema(base, base, x).resolvers == x.resolvers,
{
    merge::unmoved_left_takes_the_right(base, x);
    merged_schema_is_the_merge(base, base, x);
}

proof fn resolvers_are_taken(
    keys: Seq<Seq<char>>,
    b: Map<Seq<char>, ResolverDeclarationModel>,
    left: Seq<ResolverDeclarationModel>,
    right: Seq<ResolverDeclarationModel>,
    i: int,
)
    requires
        0 <= i < merge::merged_resolvers(
            keys,
            b,
            merge::resolvers_by_id(left),
            merge::resolvers_by_id(right),
        ).len(),
    ensures
        ({
            let d = merge::merged_resolvers(keys, b, merge::resolvers_by_id(left), merge::resolvers_by_id(right))[i];
            left.contains(d) || right.contains(d)
        }),
    decreases keys.len(),
{
    if keys.len() > 0 {
        let l = merge::resolvers_by_id(left);
        let r = merge::resolvers_by_id(right);
        let rest = merge::merged_resolvers(keys.drop_last(), b, l, r);
        let k = keys.last();
        if i < rest.len() {
            resolvers_are_taken(keys.drop_last(), b, left, right, i);
        } else {
            if l.dom().contains(k) {
                declaration_is_listed(left, k);
            }
            if r.dom().contains(k) {
                declaration_is_listed(right, k);
            }
        }
    }
}

proof fn declaration_is_listed(s: Seq<ResolverDeclarationModel>, k: Seq<char>)
    requires
        merge::resolvers_by_id(s).dom().contains(k),
    ensures
        s.contains(merge::resolvers_by_id(s)[k]),
    decreases s.len(),
{
    if s.len() > 0 {
        if s.last().id == k {
            assert(s[s.len() - 1] == s.last());
        } else {
            let rest = s.drop_last();
            declaration_is_listed(rest, k);
            let i = rest.index_of(merge::resolvers_by_id(rest)[k]);
            assert(s[i] == rest[i]);
        }
    }
}

/// A merge invents nothing: each element and each resolver of the schema
/// that comes out stood on one of the two sides, just as it is, an element
/// in the same container.
pub proof fn merged_schema_invents_nothing(
    base: SchemaModel,
    left: SchemaModel,
    right: SchemaModel,
)
    requires
        merge::merge_conflicts(base, left, right).len() == 0,
    ensures
        forall|k: ElementIdModel|
            merge::defs_of(schema::schema_elements(merge::merged_schema(base, left, right))).dom().contains(k) ==> {
                let d = #[trigger] merge::defs_of(schema::schema_elements(merge::merged_schema(base, left, right)))[k];
                merge::at(merge::defs_of(schema::schema_elements(left)), k) == Some(d) || merge::at(
                    merge::defs_of(schema::schema_elements(right)),
                    k,
                ) == Some(d)
            },
        forall|i: int|
            0 <= i < merge::merged_schema(base, left, right).resolvers.len() ==> left.resolvers.contains(
                #[trigger] merge::merged_schema(base, left, right).resolvers[i],
            ) || right.resolvers.contains(merge::merged_schema(base, left, right).resolvers[i]),
{
    merged_schema_is_the_merge(base, left, right);
    let b = merge::defs_of(schema::schema_elements(base));
    let l = merge::defs_of(schema::schema_elements(left));
    let r = merge::defs_of(schema::schema_elements(right));
    assert forall|k: ElementIdModel| merge::merged_defs(b, l, r).dom().contains(k) implies merge::at(l, k)
        == Some(#[trigger] merge::merged_defs(b, l, r)[k]) || merge::at(r, k) == Some(merge::merged_defs(b, l, r)[k]) by {
        merge::merge_invents_nothing(b, l, r, k);
    }
    let rb = merge::resolvers_by_id(base.resolvers);
    let rl = merge::resolvers_by_id(left.resolvers);
    let rr = merge::resolvers_by_id(right.resolvers);
    let s = merge::merged_schema(base, left, right);
    assert forall|i: int| 0 <= i < s.resolvers.len() implies left.resolvers.contains(
        #[trigger] s.resolvers[i],
    ) || right.resolvers.contains(s.resolvers[i]) by {
        resolvers_are_taken(merge::all_resolvers(rb, rl, rr), rb, left.resolvers, right.resolvers, i);
    }
}

} // verus!
