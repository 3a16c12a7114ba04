//! What is read conforms: a record that fits the schema it was written
//! under fits, as another schema reads it, that other schema.

use vstd::prelude::*;
use crate::cast;
use crate::collections;
use crate::conformance;
use crate::merge;
use crate::projection;
use crate::schema;
use crate::value;
use crate::conformance::{ColumnInfoModel, GroupInfoModel, SchemaIndexModel};
use crate::ids::{ColumnId, PathSegModel};
use crate::merge::merge;
use crate::schema::{
    Cardinality, Column, ElementModel, Group, OptionRowModel, PlacedModel, ScalarTypeModel,
    SchemaModel, ShellModel,
};
use crate::value::{
    CellAddr, CellAddrModel, CellStateModel, ItemsAddr, ItemsAddrModel, RecordValuesModel,
};

verus! {

/// Whether an element is a `many` group with an identity, in a scope.
spec fn is_many_group(p: PlacedModel, id: Seq<char>, scope: Seq<Seq<char>>) -> bool {
    p.shell matches ShellModel::Group(g) && g.id == id && g.cardinality == Cardinality::Many
        && p.scope == scope
}

spec fn holds_many_group(s: Seq<PlacedModel>, id: Seq<char>, scope: Seq<Seq<char>>) -> bool {
    exists|j: int| 0 <= j < s.len() && #[trigger] is_many_group(s[j], id, scope)
}

/// Whether the groups of a scope, from the `n`th on, stand among some
/// elements, each within those before it.
spec fn is_enclosed(s: Seq<PlacedModel>, scope: Seq<Seq<char>>, n: int) -> bool {
    forall|k: int| n <= k < scope.len() ==> #[trigger] holds_many_group(s, scope[k], scope.take(k))
}

proof fn held_in_more(s: Seq<PlacedModel>, t: Seq<PlacedModel>, scope: Seq<Seq<char>>, n: int)
    requires
        is_enclosed(s, scope, n),
        forall|p: PlacedModel| s.contains(p) ==> #[trigger] t.contains(p),
    ensures
        is_enclosed(t, scope, n),
{
    assert forall|k: int| n <= k < scope.len() implies #[trigger] holds_many_group(
        t,
        scope[k],
        scope.take(k),
    ) by {
        assert(holds_many_group(s, scope[k], scope.take(k)));
        let j = choose|j: int|
            0 <= j < s.len() && #[trigger] is_many_group(s[j], scope[k], scope.take(k));
        assert(s.contains(s[j]));
        assert(t.contains(s[j]));
        let i = t.index_of(s[j]);
        assert(is_many_group(t[i], scope[k], scope.take(k)));
    }
}

/// Whether a scope begins with another.
spec fn extends(scope: Seq<Seq<char>>, outer: Seq<Seq<char>>) -> bool {
    outer.len() <= scope.len() && scope.take(outer.len() as int) == outer
}

spec fn all_enclosed(s: Seq<PlacedModel>, outer: Seq<Seq<char>>) -> bool {
    forall|i: int|
        0 <= i < s.len() ==> extends((#[trigger] s[i]).scope, outer) && is_enclosed(
            s,
            s[i].scope,
            outer.len() as int,
        )
}

proof fn enclosed_side_by_side(
    s: Seq<PlacedModel>,
    t: Seq<PlacedModel>,
    outer: Seq<Seq<char>>,
)
    requires
        all_enclosed(s, outer),
        all_enclosed(t, outer),
    ensures
        all_enclosed(s + t, outer),
{
    let u = s + t;
    assert forall|p: PlacedModel| s.contains(p) implies #[trigger] u.contains(p) by {
        assert(u[s.index_of(p)] == p);
    }
    assert forall|p: PlacedModel| t.contains(p) implies #[trigger] u.contains(p) by {
        assert(u[s.len() + t.index_of(p)] == p);
    }
    assert forall|i: int| 0 <= i < u.len() implies extends((#[trigger] u[i]).scope, outer)
        && is_enclosed(u, u[i].scope, outer.len() as int) by {
        if i < s.len() {
            assert(u[i] == s[i]);
            held_in_more(s, u, s[i].scope, outer.len() as int);
        } else {
            assert(u[i] == t[i - s.len()]);
            held_in_more(t, u, t[i - s.len()].scope, outer.len() as int);
        }
    }
}

proof fn placed_are_enclosed(
    elements: Seq<ElementModel>,
    parent: Option<Seq<char>>,
    scope: Seq<Seq<char>>,
)
    ensures
        all_enclosed(schema::placed(elements, parent, scope), scope),
    decreases elements,
{
    if elements.len() > 0 {
        placed_are_enclosed(elements.drop_last(), parent, scope);
        one_is_enclosed(elements.last(), parent, scope);
        enclosed_side_by_side(
            schema::placed(elements.drop_last(), parent, scope),
            schema::placed_one(elements.last(), parent, scope),
            scope,
        );
    }
}

proof fn one_is_enclosed(
    e: ElementModel,
    parent: Option<Seq<char>>,
    scope: Seq<Seq<char>>,
)
    ensures
        all_enclosed(schema::placed_one(e, parent, scope), scope),
    decreases e,
{
    let u = schema::placed_one(e, parent, scope);
    let n = scope.len() as int;
    assert(scope.take(n) =~= scope);
    assert(u[0].scope == scope);
    if let ElementModel::Group(g) = e {
        let inner = schema::inner_scope(g.cardinality, g.id, scope);
        let below = schema::placed(g.children, Some(g.id), inner);
        placed_are_enclosed(g.children, Some(g.id), inner);
        assert forall|p: PlacedModel| below.contains(p) implies #[trigger] u.contains(p) by {
            assert(u[1 + below.index_of(p)] == p);
        }
        assert forall|i: int| 0 <= i < u.len() implies extends((#[trigger] u[i]).scope, scope)
            && is_enclosed(u, u[i].scope, n) by {
            if i > 0 {
                let s = below[i - 1].scope;
                assert(u[i] == below[i - 1]);
                assert(extends(s, inner));
                assert(s.take(n) =~= inner.take(n));
                assert(inner.take(n) =~= scope);
                held_in_more(below, u, s, inner.len() as int);
                assert forall|k: int| n <= k < s.len() implies #[trigger] holds_many_group(
                    u,
                    s[k],
                    s.take(k),
                ) by {
                    if k < inner.len() {
                        assert(k == n);
                        assert(s[k] == inner[k]) by {
                            assert(s.take(inner.len() as int)[k] == inner[k]);
                        }
                        assert(is_many_group(u[0], s[k], s.take(k)));
                    }
                }
            }
        }
    } else {
        assert forall|i: int| 0 <= i < u.len() implies extends((#[trigger] u[i]).scope, scope)
            && is_enclosed(u, u[i].scope, n) by {}
    }
}

proof fn groups_are_indexed(s: Seq<PlacedModel>, j: int)
    requires
        merge::ids_of(s).no_duplicates(),
        0 <= j < s.len(),
    ensures
        s[j].shell matches ShellModel::Group(g) ==> conformance::index_of(s).groups.dom().contains(g.id)
            && conformance::index_of(s).groups[g.id] == (GroupInfoModel {
            cardinality: g.cardinality,
            parent_scope: s[j].scope,
        }),
    decreases s.len(),
{
    let rest = s.drop_last();
    let n = s.len() - 1;
    if j < n {
        assert(merge::ids_of(rest) =~= merge::ids_of(s).drop_last());
        groups_are_indexed(rest, j);
        assert(rest[j] == s[j]);
        assert(merge::ids_of(s)[j] != merge::ids_of(s)[n]);
        assert(s.last() == s[n]);
    }
}

proof fn columns_are_indexed(s: Seq<PlacedModel>, column: Seq<char>)
    requires
        conformance::index_of(s).columns.dom().contains(column),
    ensures
        exists|i: int|
            0 <= i < s.len() && (#[trigger] s[i]).scope == conformance::index_of(s).columns[column].scope,
    decreases s.len(),
{
    if s.len() > 0 {
        let rest = s.drop_last();
        let n = s.len() - 1;
        assert(s[n] == s.last());
        if !(s.last().shell matches ShellModel::Column(c) && c.id == column) {
            columns_are_indexed(rest, column);
            let i = choose|i: int|
                0 <= i < rest.len() && (#[trigger] rest[i]).scope
                    == conformance::index_of(rest).columns[column].scope;
            assert(s[i] == rest[i]);
        }
    }
}

/// The groups that enclose a column are `many` groups of its schema, each
/// within those before it.
pub proof fn scopes_are_groups(schema: SchemaModel, column: Seq<char>, k: int)
    requires
        merge::ids_are_distinct(schema),
        conformance::schema_index(schema).columns.dom().contains(column),
        0 <= k < conformance::schema_index(schema).columns[column].scope.len(),
    ensures
        ({
            let scope = conformance::schema_index(schema).columns[column].scope;
            let groups = conformance::schema_index(schema).groups;
            &&& groups.dom().contains(scope[k])
            &&& groups[scope[k]].cardinality == Cardinality::Many
            &&& groups[scope[k]].parent_scope == scope.take(k)
        }),
{
    let s = schema::schema_elements(schema);
    let scope = conformance::schema_index(schema).columns[column].scope;
    columns_are_indexed(s, column);
    let i = choose|i: int| 0 <= i < s.len() && (#[trigger] s[i]).scope == scope;
    placed_are_enclosed(schema.root, None, Seq::empty());
    assert(is_enclosed(s, s[i].scope, 0));
    assert(holds_many_group(s, scope[k], scope.take(k)));
    let j = choose|j: int|
        0 <= j < s.len() && #[trigger] is_many_group(s[j], scope[k], scope.take(k));
    groups_are_indexed(s, j);
}

/// Whether the items that a row path passes through are all in their
/// lists.
spec fn is_listed_throughout(
    path: Seq<PathSegModel>,
    items: Map<ItemsAddrModel, Seq<Seq<char>>>,
) -> bool {
    forall|k: int|
        0 <= k < path.len() ==> value::list_at(
            items,
            ItemsAddrModel { group: (#[trigger] path[k]).group, parent: path.take(k) },
        ).contains(path[k].item)
}

proof fn nothing_is_missing(
    column: Seq<char>,
    path: Seq<PathSegModel>,
    items: Map<ItemsAddrModel, Seq<Seq<char>>>,
)
    ensures
        conformance::missing_items(column, path, items).len() == 0 <==> is_listed_throughout(path, items),
    decreases path.len(),
{
    if path.len() > 0 {
        let rest = path.drop_last();
        let n = path.len() - 1;
        nothing_is_missing(column, rest, items);
        assert(path[n] == path.last());
        assert(path.take(n) =~= rest);
        assert forall|k: int| 0 <= k < n implies path.take(k) == #[trigger] rest.take(k)
            && path[k] == rest[k] by {
            assert(path.take(k) =~= rest.take(k));
        }
        if is_listed_throughout(path, items) {
            assert forall|k: int| 0 <= k < rest.len() implies value::list_at(
                items,
                ItemsAddrModel { group: (#[trigger] rest[k]).group, parent: rest.take(k) },
            ).contains(rest[k].item) by {
                assert(path[k] == rest[k]);
                assert(path.take(k) == rest.take(k));
            }
        }
        if conformance::missing_items(column, path, items).len() == 0 {
            assert forall|k: int| 0 <= k < path.len() implies value::list_at(
                items,
                ItemsAddrModel { group: (#[trigger] path[k]).group, parent: path.take(k) },
            ).contains(path[k].item) by {
                if k < n {
                    assert(path[k] == rest[k]);
                    assert(path.take(k) == rest.take(k));
                }
            }
        }
    }
}

proof fn cells_conform_each(
    keys: Seq<CellAddrModel>,
    v: RecordValuesModel,
    columns: Map<Seq<char>, ColumnInfoModel>,
    noms: Map<(Seq<char>, u32), Seq<OptionRowModel>>,
)
    ensures
        conformance::cells_errors(keys, v, columns, noms).len() == 0 <==> forall|i: int|
            0 <= i < keys.len() ==> conformance::cell_errors(
                #[trigger] keys[i],
                v.cells[keys[i]],
                v.items,
                columns,
                noms,
            ).len() == 0,
    decreases keys.len(),
{
    if keys.len() > 0 {
        let rest = keys.drop_last();
        let n = keys.len() - 1;
        cells_conform_each(rest, v, columns, noms);
        assert(keys[n] == keys.last());
        assert forall|i: int| 0 <= i < n implies #[trigger] rest[i] == keys[i] by {}
        if conformance::cells_errors(keys, v, columns, noms).len() == 0 {
            assert forall|i: int| 0 <= i < keys.len() implies conformance::cell_errors(
                #[trigger] keys[i],
                v.cells[keys[i]],
                v.items,
                columns,
                noms,
            ).len() == 0 by {
                if i < n {
                    assert(rest[i] == keys[i]);
                }
            }
        }
    }
}

proof fn lists_conform_each(
    keys: Seq<ItemsAddrModel>,
    items: Map<ItemsAddrModel, Seq<Seq<char>>>,
    groups: Map<Seq<char>, GroupInfoModel>,
)
    ensures
        conformance::lists_errors(keys, items, groups).len() == 0 <==> forall|i: int|
            0 <= i < keys.len() ==> conformance::list_place_errors(#[trigger] keys[i], groups).len() == 0
                && conformance::repeated_items(keys[i].group, items[keys[i]]).len() == 0,
    decreases keys.len(),
{
    if keys.len() > 0 {
        let rest = keys.drop_last();
        let n = keys.len() - 1;
        lists_conform_each(rest, items, groups);
        assert(keys[n] == keys.last());
        assert forall|i: int| 0 <= i < n implies #[trigger] rest[i] == keys[i] by {}
        if conformance::lists_errors(keys, items, groups).len() == 0 {
            assert forall|i: int| 0 <= i < keys.len() implies conformance::list_place_errors(
                #[trigger] keys[i],
                groups,
            ).len() == 0 && conformance::repeated_items(keys[i].group, items[keys[i]]).len() == 0 by {
                if i < n {
                    assert(rest[i] == keys[i]);
                }
            }
        }
    }
}

spec fn cast_is_possible(
    from: ScalarTypeModel,
    to: ScalarTypeModel,
    noms: Map<(Seq<char>, u32), Seq<OptionRowModel>>,
) -> bool {
    cast::cast_between(from, to, noms) matches Ok(c) && c.possible
}

/// Whether a state is what a cell of a record comes to under a reader.
spec fn is_read(
    a: CellAddrModel,
    state: CellStateModel,
    values: Map<CellAddrModel, CellStateModel>,
    writer: Map<Seq<char>, ColumnInfoModel>,
    reader: Map<Seq<char>, ColumnInfoModel>,
    noms: Map<(Seq<char>, u32), Seq<OptionRowModel>>,
) -> bool {
    &&& values.dom().contains(a)
    &&& writer.dom().contains(a.column)
    &&& reader.dom().contains(a.column)
    &&& writer[a.column].scope == reader[a.column].scope
    &&& cast_is_possible(writer[a.column].ty, reader[a.column].ty, noms)
    &&& projection::state_projection(values[a], writer[a.column], reader[a.column], noms) matches Ok(
        Some((p, _)),
    ) && p == state
}

spec fn all_read(
    cells: Map<CellAddrModel, CellStateModel>,
    values: Map<CellAddrModel, CellStateModel>,
    writer: Map<Seq<char>, ColumnInfoModel>,
    reader: Map<Seq<char>, ColumnInfoModel>,
    noms: Map<(Seq<char>, u32), Seq<OptionRowModel>>,
) -> bool {
    forall|a: CellAddrModel| #[trigger]
        cells.dom().contains(a) ==> is_read(a, cells[a], values, writer, reader, noms)
}

proof fn cells_are_read(
    cells: Map<CellAddrModel, CellStateModel>,
    keys: Seq<CellAddrModel>,
    values: Map<CellAddrModel, CellStateModel>,
    column: Seq<char>,
    writer: Map<Seq<char>, ColumnInfoModel>,
    reader: Map<Seq<char>, ColumnInfoModel>,
    noms: Map<(Seq<char>, u32), Seq<OptionRowModel>>,
)
    requires
        all_read(cells, values, writer, reader, noms),
        forall|i: int| 0 <= i < keys.len() ==> values.dom().contains(#[trigger] keys[i]),
        writer.dom().contains(column),
        reader.dom().contains(column),
        writer[column].scope == reader[column].scope,
        cast_is_possible(writer[column].ty, reader[column].ty, noms),
    ensures
        projection::cells_projection(
            cells,
            keys,
            values,
            column,
            writer[column],
            reader[column],
            noms,
        ) matches Ok(c) ==> all_read(c.cells, values, writer, reader, noms),
    decreases keys.len(),
{
    if keys.len() > 0 {
        let rest = keys.drop_last();
        assert forall|i: int| 0 <= i < rest.len() implies values.dom().contains(
            #[trigger] rest[i],
        ) by {
            assert(rest[i] == keys[i]);
        }
        cells_are_read(cells, rest, values, column, writer, reader, noms);
        assert(values.dom().contains(keys[keys.len() - 1]));
    }
}

proof fn columns_are_read(
    keys: Seq<Seq<char>>,
    values: Map<CellAddrModel, CellStateModel>,
    writer: Map<Seq<char>, ColumnInfoModel>,
    reader: Map<Seq<char>, ColumnInfoModel>,
    noms: Map<(Seq<char>, u32), Seq<OptionRowModel>>,
)
    requires
        collections::is_listed::<CellAddr>(values.dom()),
        forall|i: int| 0 <= i < keys.len() ==> reader.dom().contains(#[trigger] keys[i]),
    ensures
        projection::columns_projection(keys, values, writer, reader, noms) matches Ok((cells, _)) ==> all_read(
            cells,
            values,
            writer,
            reader,
            noms,
        ),
    decreases keys.len(),
{
    if keys.len() > 0 {
        let rest = keys.drop_last();
        assert forall|i: int| 0 <= i < rest.len() implies reader.dom().contains(
            #[trigger] rest[i],
        ) by {
            assert(rest[i] == keys[i]);
        }
        columns_are_read(rest, values, writer, reader, noms);
        let column = keys[keys.len() - 1];
        assert(column == keys.last());
        if let Ok((before, _)) = projection::columns_projection(rest, values, writer, reader, noms) {
            let addrs = collections::key_order::<CellAddr>(values.dom());
            assert forall|i: int| 0 <= i < addrs.len() implies values.dom().contains(
                #[trigger] addrs[i],
            ) by {
                assert(addrs.contains(addrs[i]));
            }
            if writer.dom().contains(column) && writer[column].scope == reader[column].scope
                && cast_is_possible(writer[column].ty, reader[column].ty, noms) {
                cells_are_read(before, addrs, values, column, writer, reader, noms);
            }
        }
    }
}

proof fn lists_are_kept(
    keys: Seq<ItemsAddrModel>,
    items: Map<ItemsAddrModel, Seq<Seq<char>>>,
    groups: Map<Seq<char>, GroupInfoModel>,
)
    ensures
        forall|a: ItemsAddrModel| #[trigger]
            projection::lists_projection(keys, items, groups).0.dom().contains(a) <==> keys.contains(a)
                && projection::list_is_kept(a, groups),
        forall|a: ItemsAddrModel| #[trigger]
            projection::lists_projection(keys, items, groups).0.dom().contains(a) ==> projection::lists_projection(
                keys,
                items,
                groups,
            ).0[a] == items[a],
    decreases keys.len(),
{
    if keys.len() > 0 {
        let rest = keys.drop_last();
        lists_are_kept(rest, items, groups);
        let n = keys.len() - 1;
        let last = keys[n];
        let before = projection::lists_projection(rest, items, groups).0;
        let after = projection::lists_projection(keys, items, groups).0;
        assert forall|a: ItemsAddrModel| #[trigger] after.dom().contains(a) <==> keys.contains(a)
            && projection::list_is_kept(a, groups) by {
            assert(before.dom().contains(a) <==> rest.contains(a) && projection::list_is_kept(a, groups));
            if rest.contains(a) {
                assert(keys[rest.index_of(a)] == a);
            }
            if keys.contains(a) && a != last {
                assert(rest[keys.index_of(a)] == a);
            }
        }
        assert forall|a: ItemsAddrModel| #[trigger] after.dom().contains(a) implies after[a]
            == items[a] by {
            assert(before.dom().contains(a) ==> before[a] == items[a]);
        }
    }
}

/// Whether each of a record's cells and lists fits a schema's index.
spec fn is_fit(
    v: RecordValuesModel,
    index: SchemaIndexModel,
    noms: Map<(Seq<char>, u32), Seq<OptionRowModel>>,
) -> bool {
    &&& forall|a: CellAddrModel| #[trigger]
        v.cells.dom().contains(a) ==> conformance::cell_errors(a, v.cells[a], v.items, index.columns, noms).len()
            == 0
    &&& forall|a: ItemsAddrModel| #[trigger]
        v.items.dom().contains(a) ==> conformance::list_place_errors(a, index.groups).len() == 0
            && conformance::repeated_items(a.group, v.items[a]).len() == 0
}

proof fn records_conform_where_parts_do(
    v: RecordValuesModel,
    schema: SchemaModel,
    noms: Map<(Seq<char>, u32), Seq<OptionRowModel>>,
)
    requires
        v.cells.dom().finite(),
        v.items.dom().finite(),
    ensures
        conformance::conformance_errors(v, schema, noms).len() == 0 <==> is_fit(v, conformance::schema_index(schema), noms),
{
    let index = conformance::schema_index(schema);
    let lists = collections::key_order::<ItemsAddr>(v.items.dom());
    let cells = collections::key_order::<CellAddr>(v.cells.dom());
    collections::finite_is_listed::<ItemsAddr>(v.items.dom());
    collections::finite_is_listed::<CellAddr>(v.cells.dom());
    lists_conform_each(lists, v.items, index.groups);
    cells_conform_each(cells, v, index.columns, noms);
    if conformance::conformance_errors(v, schema, noms).len() == 0 {
        assert forall|a: CellAddrModel| #[trigger] v.cells.dom().contains(a) implies conformance::cell_errors(
            a,
            v.cells[a],
            v.items,
            index.columns,
            noms,
        ).len() == 0 by {
            assert(cells.contains(a));
            assert(cells[cells.index_of(a)] == a);
        }
        assert forall|a: ItemsAddrModel| #[trigger]
            v.items.dom().contains(a) implies conformance::list_place_errors(a, index.groups).len() == 0
            && conformance::repeated_items(a.group, v.items[a]).len() == 0 by {
            assert(lists.contains(a));
            assert(lists[lists.index_of(a)] == a);
        }
    }
    if is_fit(v, index, noms) {
        assert forall|i: int| 0 <= i < cells.len() implies conformance::cell_errors(
            #[trigger] cells[i],
            v.cells[cells[i]],
            v.items,
            index.columns,
            noms,
        ).len() == 0 by {
            assert(cells.contains(cells[i]));
            assert(v.cells.dom().contains(cells[i]));
        }
        assert forall|i: int| 0 <= i < lists.len() implies conformance::list_place_errors(
            #[trigger] lists[i],
            index.groups,
        ).len() == 0 && conformance::repeated_items(lists[i].group, v.items[lists[i]]).len() == 0 by {
            assert(lists.contains(lists[i]));
            assert(v.items.dom().contains(lists[i]));
        }
    }
}

/// The lists that a cell's path passes through are kept by every reader
/// that has the cell's column in its place.
proof fn paths_keep_their_lists(
    a: CellAddrModel,
    items: Map<ItemsAddrModel, Seq<Seq<char>>>,
    kept: Map<ItemsAddrModel, Seq<Seq<char>>>,
    reader: SchemaModel,
)
    requires
        merge::ids_are_distinct(reader),
        conformance::schema_index(reader).columns.dom().contains(a.column),
        conformance::path_groups(a.path) == conformance::schema_index(reader).columns[a.column].scope,
        is_listed_throughout(a.path, items),
        forall|l: ItemsAddrModel| #[trigger]
            kept.dom().contains(l) <==> items.dom().contains(l) && projection::list_is_kept(
                l,
                conformance::schema_index(reader).groups,
            ),
        forall|l: ItemsAddrModel| #[trigger] kept.dom().contains(l) ==> kept[l] == items[l],
    ensures
        is_listed_throughout(a.path, kept),
{
    let scope = conformance::schema_index(reader).columns[a.column].scope;
    assert forall|k: int| 0 <= k < a.path.len() implies value::list_at(
        kept,
        ItemsAddrModel { group: (#[trigger] a.path[k]).group, parent: a.path.take(k) },
    ).contains(a.path[k].item) by {
        let l = ItemsAddrModel { group: a.path[k].group, parent: a.path.take(k) };
        assert(value::list_at(items, l).contains(a.path[k].item));
        assert(items.dom().contains(l));
        assert(conformance::path_groups(a.path)[k] == a.path[k].group);
        assert(conformance::path_groups(l.parent) =~= scope.take(k));
        scopes_are_groups(reader, a.column, k);
        assert(kept.dom().contains(l));
    }
}

/// What is read conforms: a record that fits the schema it was written
/// under fits the reader's schema as the reader reads it. A cell that a
/// checked cast cannot make fit is not read at all.
pub proof fn projected_record_conforms(
    v: RecordValuesModel,
    writer: SchemaModel,
    reader: SchemaModel,
    noms: Map<(Seq<char>, u32), Seq<OptionRowModel>>,
)
    requires
        v.cells.dom().finite(),
        v.items.dom().finite(),
        merge::ids_are_distinct(reader),
        conformance::conformance_errors(v, writer, noms).len() == 0,
    ensures
        projection::projection(v, writer, reader, noms) matches Ok(p) ==> conformance::conformance_errors(
            p.values,
            reader,
            noms,
        ).len() == 0,
{
    if let Ok(p) = projection::projection(v, writer, reader, noms) {
        let w = conformance::schema_index(writer);
        let r = conformance::schema_index(reader);
        let columns = collections::key_order::<ColumnId>(r.columns.dom());
        let lists = collections::key_order::<ItemsAddr>(v.items.dom());
        conformance::index_is_finite(reader);
        collections::finite_is_listed::<ColumnId>(r.columns.dom());
        collections::finite_is_listed::<CellAddr>(v.cells.dom());
        collections::finite_is_listed::<ItemsAddr>(v.items.dom());
        assert forall|i: int| 0 <= i < columns.len() implies r.columns.dom().contains(
            #[trigger] columns[i],
        ) by {
            assert(columns.contains(columns[i]));
        }
        columns_are_read(columns, v.cells, w.columns, r.columns, noms);
        lists_are_kept(lists, v.items, r.groups);
        let out = p.values;
        assert(out.cells.dom().subset_of(v.cells.dom()));
        vstd::set_lib::lemma_set_subset_finite(v.cells.dom(), out.cells.dom());
        assert forall|l: ItemsAddrModel| #[trigger]
            out.items.dom().contains(l) <==> v.items.dom().contains(l) && projection::list_is_kept(
            l,
            r.groups,
        ) by {
            assert(lists.contains(l) <==> v.items.dom().contains(l));
        }
        assert(out.items.dom().subset_of(v.items.dom()));
        vstd::set_lib::lemma_set_subset_finite(v.items.dom(), out.items.dom());
        records_conform_where_parts_do(v, writer, noms);
        assert forall|a: CellAddrModel| #[trigger] out.cells.dom().contains(a) implies conformance::cell_errors(
            a,
            out.cells[a],
            out.items,
            r.columns,
            noms,
        ).len() == 0 by {
            assert(is_read(a, out.cells[a], v.cells, w.columns, r.columns, noms));
            assert(conformance::cell_errors(a, v.cells[a], v.items, w.columns, noms).len() == 0);
            nothing_is_missing(a.column, a.path, v.items);
            paths_keep_their_lists(a, v.items, out.items, reader);
            nothing_is_missing(a.column, a.path, out.items);
            projection::projected_state_conforms(
                v.cells[a],
                w.columns[a.column],
                r.columns[a.column],
                a.column,
                noms,
            );
        }
        assert forall|l: ItemsAddrModel| #[trigger]
            out.items.dom().contains(l) implies conformance::list_place_errors(l, r.groups).len() == 0
            && conformance::repeated_items(l.group, out.items[l]).len() == 0 by {
            assert(v.items.dom().contains(l));
        }
        records_conform_where_parts_do(out, reader, noms);
    }
}

} // verus!
