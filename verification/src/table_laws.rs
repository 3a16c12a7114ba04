//! What a table shows of a record: one row for itself, one for each item
//! of a group with visible columns, and in each row what its columns hold
//! there.

use vstd::prelude::*;
use crate::collections;
use crate::conformance;
use crate::projection;
use crate::table;
use crate::cast::CastErrorModel;
use crate::ids::PathSegModel;
use crate::order::{Key, Order};
use crate::schema::{OptionRowModel, ScalarTypeModel};
use crate::table::{
    TableColumnModel, TableRowModel, TableSchemaModel, TableValueModel, TextStyleModel,
};
use crate::value::{
    CellAddrModel, CellStateModel, CellValueModel, ItemsAddr, ItemsAddrModel, RecordValuesModel,
    ScalarModel,
};

verus! {

/// Whether a column's innermost group is this one.
pub open spec fn leads_to(c: TableColumnModel, group: Seq<char>) -> bool {
    c.scope.len() > 0 && c.scope[c.scope.len() - 1] == group
}

/// Whether one of some columns leads to a group.
pub open spec fn has_columns(columns: Seq<TableColumnModel>, group: Seq<char>) -> bool {
    exists|m: int| 0 <= m < columns.len() && leads_to(#[trigger] columns[m], group)
}

/// Whether a column leads to one group before any leads to the other.
pub open spec fn appears_before(
    columns: Seq<TableColumnModel>,
    a: Seq<char>,
    b: Seq<char>,
) -> bool {
    exists|m: int|
        {
            &&& 0 <= m < columns.len()
            &&& leads_to(#[trigger] columns[m], a)
            &&& forall|n: int| 0 <= n <= m ==> !leads_to(#[trigger] columns[n], b)
        }
}

/// Whether a value is what a column holds for a row path: the cell of
/// the path's own ancestor in the column's groups, blank where there is
/// none or it is empty, and blank where the path leaves these groups.
pub open spec fn is_held(
    x: TableValueModel,
    v: RecordValuesModel,
    c: TableColumnModel,
    path: Seq<PathSegModel>,
) -> bool {
    let lies_in = c.scope.len() <= path.len() && forall|i: int|
        0 <= i < c.scope.len() ==> (#[trigger] path[i]).group == c.scope[i];
    let addr = CellAddrModel { column: c.column, path: path.take(c.scope.len() as int) };
    if !lies_in || !v.cells.dom().contains(addr) {
        x is Blank
    } else {
        match v.cells[addr] {
            CellStateModel::Empty => x is Blank,
            CellStateModel::Value(CellValueModel::One(s)) => x == TableValueModel::One(s),
            CellStateModel::Value(CellValueModel::Many(l)) => x == TableValueModel::Many(l),
        }
    }
}

/// Whether values are those of a row path, one for each column.
pub open spec fn are_held(
    values: Seq<TableValueModel>,
    v: RecordValuesModel,
    schema: TableSchemaModel,
    path: Seq<PathSegModel>,
) -> bool {
    &&& values.len() == schema.columns.len()
    &&& forall|i: int|
        0 <= i < values.len() ==> is_held(#[trigger] values[i], v, schema.columns[i], path)
}

/// Whether an item is in a list of the record, under a group that the
/// table has columns for.
pub open spec fn is_shown(
    v: RecordValuesModel,
    schema: TableSchemaModel,
    x: (ItemsAddrModel, int),
) -> bool {
    &&& v.items.dom().contains(x.0)
    &&& 0 <= x.1 < v.items[x.0].len()
    &&& has_columns(schema.columns, x.0.group)
}

/// Whether a row is that of an item: it names the record, the group, the
/// item and its place in the list, and holds the values of the item's own
/// path.
pub open spec fn is_row_of(
    row: TableRowModel,
    record: Seq<char>,
    v: RecordValuesModel,
    schema: TableSchemaModel,
    x: (ItemsAddrModel, int),
) -> bool {
    let item = v.items[x.0][x.1];
    &&& row.record == record
    &&& row.scope == Some(x.0.group)
    &&& row.item == Some(item)
    &&& row.ordinal matches Some(n) && n == x.1 + 1
    &&& are_held(
        row.values,
        v,
        schema,
        x.0.parent.push(PathSegModel { group: x.0.group, item }),
    )
}

/// Whether an item is listed before another: by place within a list, by
/// address among the lists of a group, and by their first column among
/// groups.
pub open spec fn is_listed_before(
    schema: TableSchemaModel,
    a: (ItemsAddrModel, int),
    b: (ItemsAddrModel, int),
) -> bool {
    ||| a.0 == b.0 && a.1 < b.1
    ||| a.0.group == b.0.group && ItemsAddr::order(a.0, b.0) == Order::Less
    ||| appears_before(schema.columns, a.0.group, b.0.group)
}

proof fn paths_hold_their_values(
    v: RecordValuesModel,
    schema: TableSchemaModel,
    path: Seq<PathSegModel>,
)
    ensures
        are_held(table::row_of_path(v, schema, path), v, schema, path),
{
    let values = table::row_of_path(v, schema, path);
    let groups = conformance::path_groups(path);
    assert forall|i: int| 0 <= i < values.len() implies is_held(
        #[trigger] values[i],
        v,
        schema.columns[i],
        path,
    ) by {
        let scope = schema.columns[i].scope;
        if scope.is_prefix_of(groups) {
            assert forall|k: int| 0 <= k < scope.len() implies (#[trigger] path[k]).group
                == scope[k] by {
                assert(groups[k] == path[k].group);
            }
        }
        if scope.len() <= path.len() && forall|k: int|
            0 <= k < scope.len() ==> (#[trigger] path[k]).group == scope[k] {
            assert(scope =~= groups.take(scope.len() as int));
            assert(scope.is_prefix_of(groups));
        }
    }
}

proof fn groups_are_those_of_columns(columns: Seq<TableColumnModel>)
    ensures
        table::innermost_groups(columns).no_duplicates(),
        forall|g: Seq<char>| #[trigger]
            table::innermost_groups(columns).contains(g) <==> has_columns(columns, g),
    decreases columns.len(),
{
    let groups = table::innermost_groups(columns);
    if columns.len() > 0 {
        let rest = columns.drop_last();
        let before = table::innermost_groups(rest);
        let last = columns.len() - 1;
        groups_are_those_of_columns(rest);
        assert(columns[last] == columns.last());
        assert forall|i: int, j: int| 0 <= i < j < groups.len() implies groups[i] != groups[j] by {
            assert(groups[i] == before[i]);
            assert(before.contains(before[i]));
            if j < before.len() {
                assert(groups[j] == before[j]);
            }
        }
        assert(groups.no_duplicates());
        assert forall|g: Seq<char>| #[trigger] groups.contains(g) <==> has_columns(columns, g) by {
            if groups.contains(g) {
                let i = choose|i: int| 0 <= i < groups.len() && groups[i] == g;
                if i < before.len() {
                    assert(before[i] == g);
                    assert(before.contains(g));
                    let m = choose|m: int| 0 <= m < rest.len() && leads_to(#[trigger] rest[m], g);
                    assert(leads_to(columns[m], g));
                } else {
                    assert(leads_to(columns[last], g));
                }
            }
            if has_columns(columns, g) {
                let m = choose|m: int|
                    0 <= m < columns.len() && leads_to(#[trigger] columns[m], g);
                if m < last {
                    assert(leads_to(rest[m], g));
                    assert(has_columns(rest, g));
                    assert(before.contains(g));
                }
                if before.contains(g) {
                    let i = choose|i: int| 0 <= i < before.len() && before[i] == g;
                    assert(groups[i] == g);
                } else {
                    assert(m == last);
                    assert(groups[before.len() as int] == g);
                }
            }
        }
    }
}

proof fn groups_come_by_column(columns: Seq<TableColumnModel>, i: int, j: int)
    requires
        0 <= i < j < table::innermost_groups(columns).len(),
    ensures
        appears_before(columns, table::innermost_groups(columns)[i], table::innermost_groups(columns)[j]),
    decreases columns.len(),
{
    let groups = table::innermost_groups(columns);
    let rest = columns.drop_last();
    let before = table::innermost_groups(rest);
    let last = columns.len() - 1;
    groups_are_those_of_columns(rest);
    let a = groups[i];
    let b = groups[j];
    assert(a == before[i]);
    if j < before.len() {
        assert(b == before[j]);
        groups_come_by_column(rest, i, j);
        let m = choose|m: int|
            {
                &&& 0 <= m < rest.len()
                &&& leads_to(#[trigger] rest[m], a)
                &&& forall|n: int| 0 <= n <= m ==> !leads_to(#[trigger] rest[n], b)
            };
        assert(leads_to(columns[m], a));
        assert forall|n: int| 0 <= n <= m implies !leads_to(#[trigger] columns[n], b) by {
            assert(rest[n] == columns[n]);
        }
    } else {
        assert(before.contains(a));
        let m = choose|m: int| 0 <= m < rest.len() && leads_to(#[trigger] rest[m], a);
        assert(leads_to(columns[m], a));
        assert forall|n: int| 0 <= n <= m implies !leads_to(#[trigger] columns[n], b) by {
            assert(rest[n] == columns[n]);
            assert(!before.contains(b));
            if leads_to(rest[n], b) {
                assert(has_columns(rest, b));
            }
        }
    }
}

spec fn items_of_list(v: RecordValuesModel, addr: ItemsAddrModel) -> Seq<(ItemsAddrModel, int)> {
    Seq::new(v.items[addr].len(), |i: int| (addr, i))
}

spec fn items_of_group(
    v: RecordValuesModel,
    group: Seq<char>,
    keys: Seq<ItemsAddrModel>,
) -> Seq<(ItemsAddrModel, int)>
    decreases keys.len(),
{
    if keys.len() == 0 {
        Seq::empty()
    } else {
        items_of_group(v, group, keys.drop_last()) + if keys.last().group == group {
            items_of_list(v, keys.last())
        } else {
            Seq::empty()
        }
    }
}

spec fn items_of_groups(v: RecordValuesModel, groups: Seq<Seq<char>>) -> Seq<(ItemsAddrModel, int)>
    decreases groups.len(),
{
    if groups.len() == 0 {
        Seq::empty()
    } else {
        items_of_groups(v, groups.drop_last()) + items_of_group(
            v,
            groups.last(),
            collections::key_order::<ItemsAddr>(v.items.dom()),
        )
    }
}

/// Whether rows are those of some items, one by one.
spec fn are_rows_of(
    rows: Seq<TableRowModel>,
    items: Seq<(ItemsAddrModel, int)>,
    record: Seq<char>,
    v: RecordValuesModel,
    schema: TableSchemaModel,
) -> bool {
    &&& rows.len() == items.len()
    &&& forall|k: int|
        0 <= k < rows.len() ==> is_row_of(#[trigger] rows[k], record, v, schema, items[k])
}

proof fn rows_join(
    a: Seq<TableRowModel>,
    b: Seq<TableRowModel>,
    x: Seq<(ItemsAddrModel, int)>,
    y: Seq<(ItemsAddrModel, int)>,
    record: Seq<char>,
    v: RecordValuesModel,
    schema: TableSchemaModel,
)
    requires
        are_rows_of(a, x, record, v, schema),
        are_rows_of(b, y, record, v, schema),
    ensures
        are_rows_of(a + b, x + y, record, v, schema),
{
    assert forall|k: int| 0 <= k < (a + b).len() implies is_row_of(
        #[trigger] (a + b)[k],
        record,
        v,
        schema,
        (x + y)[k],
    ) by {
        if k < a.len() {
            assert(is_row_of(a[k], record, v, schema, x[k]));
        } else {
            assert(is_row_of(b[k - a.len()], record, v, schema, y[k - a.len()]));
        }
    }
}

proof fn group_has_rows(
    record: Seq<char>,
    v: RecordValuesModel,
    schema: TableSchemaModel,
    group: Seq<char>,
    keys: Seq<ItemsAddrModel>,
)
    requires
        forall|i: int| 0 <= i < keys.len() ==> v.items[#[trigger] keys[i]].len() <= u64::MAX,
    ensures
        are_rows_of(
            table::group_rows(record, v, schema, group, keys),
            items_of_group(v, group, keys),
            record,
            v,
            schema,
        ),
    decreases keys.len(),
{
    if keys.len() > 0 {
        let rest = keys.drop_last();
        let addr = keys.last();
        assert(keys[keys.len() - 1] == addr);
        assert forall|i: int| 0 <= i < rest.len() implies v.items[#[trigger] rest[i]].len()
            <= u64::MAX by {
            assert(rest[i] == keys[i]);
        }
        group_has_rows(record, v, schema, group, rest);
        if addr.group == group {
            let rows = table::list_rows(record, v, schema, addr);
            let items = items_of_list(v, addr);
            assert forall|k: int| 0 <= k < rows.len() implies is_row_of(
                #[trigger] rows[k],
                record,
                v,
                schema,
                items[k],
            ) by {
                paths_hold_their_values(
                    v,
                    schema,
                    addr.parent.push(PathSegModel { group: addr.group, item: v.items[addr][k] }),
                );
            }
            rows_join(
                table::group_rows(record, v, schema, group, rest),
                rows,
                items_of_group(v, group, rest),
                items,
                record,
                v,
                schema,
            );
        } else {
            rows_join(
                table::group_rows(record, v, schema, group, rest),
                Seq::empty(),
                items_of_group(v, group, rest),
                Seq::empty(),
                record,
                v,
                schema,
            );
        }
    }
}

proof fn groups_have_rows(
    record: Seq<char>,
    v: RecordValuesModel,
    schema: TableSchemaModel,
    groups: Seq<Seq<char>>,
)
    requires
        forall|a: ItemsAddrModel| #[trigger]
            v.items.dom().contains(a) ==> v.items[a].len() <= u64::MAX,
        collections::is_listed::<ItemsAddr>(v.items.dom()),
    ensures
        are_rows_of(
            table::groups_rows(record, v, schema, groups),
            items_of_groups(v, groups),
            record,
            v,
            schema,
        ),
    decreases groups.len(),
{
    if groups.len() > 0 {
        let keys = collections::key_order::<ItemsAddr>(v.items.dom());
        groups_have_rows(record, v, schema, groups.drop_last());
        assert forall|i: int| 0 <= i < keys.len() implies v.items[#[trigger] keys[i]].len()
            <= u64::MAX by {
            assert(keys.contains(keys[i]));
            assert(v.items.dom().contains(keys[i]));
        }
        group_has_rows(record, v, schema, groups.last(), keys);
        rows_join(
            table::groups_rows(record, v, schema, groups.drop_last()),
            table::group_rows(record, v, schema, groups.last(), keys),
            items_of_groups(v, groups.drop_last()),
            items_of_group(v, groups.last(), keys),
            record,
            v,
            schema,
        );
    }
}

proof fn group_has_items(v: RecordValuesModel, group: Seq<char>, keys: Seq<ItemsAddrModel>)
    ensures
        ({
            let items = items_of_group(v, group, keys);
            &&& forall|k: int|
                0 <= k < items.len() ==> (#[trigger] items[k]).0.group == group && 0 <= items[k].1
                    < v.items[items[k].0].len() && keys.contains(items[k].0)
            &&& forall|a: ItemsAddrModel, i: int|
                keys.contains(a) && a.group == group && 0 <= i < v.items[a].len()
                    ==> #[trigger] items.contains((a, i))
        }),
    decreases keys.len(),
{
    let items = items_of_group(v, group, keys);
    if keys.len() > 0 {
        let rest = keys.drop_last();
        let addr = keys.last();
        let had = items_of_group(v, group, rest);
        assert(keys[keys.len() - 1] == addr);
        group_has_items(v, group, rest);
        assert forall|k: int| 0 <= k < items.len() implies (#[trigger] items[k]).0.group == group
            && 0 <= items[k].1 < v.items[items[k].0].len() && keys.contains(items[k].0) by {
            if k < had.len() {
                assert(items[k] == had[k]);
                let i = choose|i: int| 0 <= i < rest.len() && rest[i] == had[k].0;
                assert(keys[i] == had[k].0);
            } else {
                assert(items[k] == items_of_list(v, addr)[k - had.len()]);
                assert(keys.contains(addr));
            }
        }
        assert forall|a: ItemsAddrModel, i: int|
            keys.contains(a) && a.group == group && 0 <= i
                < v.items[a].len() implies #[trigger] items.contains((a, i)) by {
            let p = choose|p: int| 0 <= p < keys.len() && keys[p] == a;
            if p < rest.len() {
                assert(rest[p] == a);
                assert(rest.contains(a));
                assert(had.contains((a, i)));
                let k = choose|k: int| 0 <= k < had.len() && had[k] == (a, i);
                assert(items[k] == (a, i));
            } else {
                assert(items_of_list(v, addr)[i] == (a, i));
                assert(items[had.len() + i] == (a, i));
            }
        }
    }
}

/// Whether items come list by list, and by place in each list.
spec fn are_in_order(items: Seq<(ItemsAddrModel, int)>) -> bool {
    forall|j: int, k: int|
        #![trigger items[j], items[k]]
        0 <= j < k < items.len() ==> (items[j].0 == items[k].0 && items[j].1 < items[k].1)
            || ItemsAddr::order(items[j].0, items[k].0) == Order::Less
}

proof fn group_is_in_order(v: RecordValuesModel, group: Seq<char>, keys: Seq<ItemsAddrModel>)
    requires
        collections::in_order::<ItemsAddr>(keys),
    ensures
        are_in_order(items_of_group(v, group, keys)),
    decreases keys.len(),
{
    let items = items_of_group(v, group, keys);
    if keys.len() > 0 {
        let rest = keys.drop_last();
        let addr = keys.last();
        let had = items_of_group(v, group, rest);
        assert(collections::in_order::<ItemsAddr>(rest)) by {
            assert forall|i: int, j: int|
                #![trigger rest[i], rest[j]]
                0 <= i < j < rest.len() implies ItemsAddr::order(rest[i], rest[j])
                == Order::Less by {
                assert(rest[i] == keys[i] && rest[j] == keys[j]);
            }
        }
        group_is_in_order(v, group, rest);
        group_has_items(v, group, rest);
        assert forall|j: int, k: int|
            #![trigger items[j], items[k]]
            0 <= j < k < items.len() implies (items[j].0 == items[k].0 && items[j].1 < items[k].1)
            || ItemsAddr::order(items[j].0, items[k].0) == Order::Less by {
            if k < had.len() {
                assert(items[j] == had[j] && items[k] == had[k]);
            } else {
                assert(items[k] == items_of_list(v, addr)[k - had.len()]);
                if j < had.len() {
                    assert(items[j] == had[j]);
                    let i = choose|i: int| 0 <= i < rest.len() && rest[i] == had[j].0;
                    assert(keys[i] == had[j].0);
                    assert(ItemsAddr::order(keys[i], keys[keys.len() - 1]) == Order::Less);
                } else {
                    assert(items[j] == items_of_list(v, addr)[j - had.len()]);
                }
            }
        }
    }
}

proof fn groups_have_items(v: RecordValuesModel, groups: Seq<Seq<char>>)
    requires
        collections::is_listed::<ItemsAddr>(v.items.dom()),
    ensures
        ({
            let items = items_of_groups(v, groups);
            &&& forall|k: int|
                0 <= k < items.len() ==> groups.contains((#[trigger] items[k]).0.group) && 0
                    <= items[k].1 < v.items[items[k].0].len() && v.items.dom().contains(items[k].0)
            &&& forall|a: ItemsAddrModel, i: int|
                v.items.dom().contains(a) && groups.contains(a.group) && 0 <= i < v.items[a].len()
                    ==> #[trigger] items.contains((a, i))
        }),
    decreases groups.len(),
{
    let items = items_of_groups(v, groups);
    if groups.len() > 0 {
        let keys = collections::key_order::<ItemsAddr>(v.items.dom());
        let rest = groups.drop_last();
        let g = groups.last();
        let had = items_of_groups(v, rest);
        let mine = items_of_group(v, g, keys);
        groups_have_items(v, rest);
        group_has_items(v, g, keys);
        assert(groups[groups.len() - 1] == g);
        assert forall|k: int| 0 <= k < items.len() implies groups.contains(
            (#[trigger] items[k]).0.group,
        ) && 0 <= items[k].1 < v.items[items[k].0].len() && v.items.dom().contains(
            items[k].0,
        ) by {
            if k < had.len() {
                assert(items[k] == had[k]);
                let p = choose|p: int| 0 <= p < rest.len() && rest[p] == had[k].0.group;
                assert(groups[p] == had[k].0.group);
            } else {
                assert(items[k] == mine[k - had.len()]);
                assert(keys.contains(items[k].0));
                assert(groups.contains(g));
            }
        }
        assert forall|a: ItemsAddrModel, i: int|
            v.items.dom().contains(a) && groups.contains(a.group) && 0 <= i
                < v.items[a].len() implies #[trigger] items.contains((a, i)) by {
            if a.group == g {
                assert(keys.contains(a));
                assert(mine.contains((a, i)));
                let k = choose|k: int| 0 <= k < mine.len() && mine[k] == (a, i);
                assert(items[had.len() + k] == (a, i));
            } else {
                let p = choose|p: int| 0 <= p < groups.len() && groups[p] == a.group;
                assert(rest[p] == a.group);
                assert(rest.contains(a.group));
                assert(had.contains((a, i)));
                let k = choose|k: int| 0 <= k < had.len() && had[k] == (a, i);
                assert(items[k] == (a, i));
            }
        }
    }
}

/// Whether an item comes before another where the groups come in this
/// order.
spec fn comes_before(
    groups: Seq<Seq<char>>,
    a: (ItemsAddrModel, int),
    b: (ItemsAddrModel, int),
) -> bool {
    ||| a.0 == b.0 && a.1 < b.1
    ||| a.0.group == b.0.group && ItemsAddr::order(a.0, b.0) == Order::Less
    ||| exists|i: int, j: int|
        0 <= i < j < groups.len() && #[trigger] groups[i] == a.0.group && #[trigger] groups[j]
            == b.0.group
}

proof fn groups_are_in_order(v: RecordValuesModel, groups: Seq<Seq<char>>, j: int, k: int)
    requires
        collections::is_listed::<ItemsAddr>(v.items.dom()),
        0 <= j < k < items_of_groups(v, groups).len(),
    ensures
        comes_before(groups, items_of_groups(v, groups)[j], items_of_groups(v, groups)[k]),
    decreases groups.len(),
{
    let items = items_of_groups(v, groups);
    let keys = collections::key_order::<ItemsAddr>(v.items.dom());
    let rest = groups.drop_last();
    let g = groups.last();
    let had = items_of_groups(v, rest);
    let mine = items_of_group(v, g, keys);
    assert(groups[groups.len() - 1] == g);
    if k < had.len() {
        assert(items[j] == had[j] && items[k] == had[k]);
        groups_are_in_order(v, rest, j, k);
        if exists|p: int, q: int|
            0 <= p < q < rest.len() && #[trigger] rest[p] == items[j].0.group && #[trigger] rest[q]
                == items[k].0.group {
            let (p, q) = choose|p: int, q: int|
                0 <= p < q < rest.len() && #[trigger] rest[p] == items[j].0.group
                    && #[trigger] rest[q] == items[k].0.group;
            assert(groups[p] == items[j].0.group && groups[q] == items[k].0.group);
        }
    } else if j < had.len() {
        assert(items[j] == had[j] && items[k] == mine[k - had.len()]);
        groups_have_items(v, rest);
        group_has_items(v, g, keys);
        assert(rest.contains(had[j].0.group));
        let p = choose|p: int| 0 <= p < rest.len() && rest[p] == had[j].0.group;
        assert(groups[p] == items[j].0.group);
        assert(groups[groups.len() - 1] == items[k].0.group);
    } else {
        assert(items[j] == mine[j - had.len()] && items[k] == mine[k - had.len()]);
        group_has_items(v, g, keys);
        group_is_in_order(v, g, keys);
    }
}

/// A table's first row is the record's own: it names no item, and holds
/// what lies in no group.
pub proof fn the_record_has_its_row(
    record: Seq<char>,
    v: RecordValuesModel,
    schema: TableSchemaModel,
)
    ensures
        ({
            let rows = table::table_rows(record, v, schema);
            &&& rows.len() >= 1
            &&& rows[0].record == record
            &&& rows[0].scope is None
            &&& rows[0].item is None
            &&& rows[0].ordinal is None
            &&& are_held(rows[0].values, v, schema, Seq::empty())
        }),
{
    paths_hold_their_values(v, schema, Seq::empty());
    assert(table::table_rows(record, v, schema)[0] == table::root_row(record, v, schema));
}

/// Every item of a group that the table has columns for has one row
/// behind the record's own, and there are no other rows. The items come
/// group by group as the groups first appear among the columns, list by
/// list, and in the order of each list.
pub proof fn every_item_has_its_row(
    record: Seq<char>,
    v: RecordValuesModel,
    schema: TableSchemaModel,
)
    requires
        v.items.dom().finite(),
        forall|a: ItemsAddrModel| #[trigger]
            v.items.dom().contains(a) ==> v.items[a].len() <= u64::MAX,
    ensures
        ({
            let rows = table::table_rows(record, v, schema);
            exists|items: Seq<(ItemsAddrModel, int)>|
                {
                    &&& #[trigger] items.no_duplicates()
                    &&& rows.len() == 1 + items.len()
                    &&& forall|x: (ItemsAddrModel, int)| #[trigger]
                        items.contains(x) <==> is_shown(v, schema, x)
                    &&& forall|k: int|
                        0 <= k < items.len() ==> is_row_of(
                            rows[k + 1],
                            record,
                            v,
                            schema,
                            #[trigger] items[k],
                        )
                    &&& forall|j: int, k: int|
                        0 <= j < k < items.len() ==> is_listed_before(
                            schema,
                            #[trigger] items[j],
                            #[trigger] items[k],
                        )
                }
        }),
{
    let rows = table::table_rows(record, v, schema);
    let groups = table::innermost_groups(schema.columns);
    let items = items_of_groups(v, groups);
    collections::finite_is_listed::<ItemsAddr>(v.items.dom());
    groups_are_those_of_columns(schema.columns);
    groups_have_rows(record, v, schema, groups);
    groups_have_items(v, groups);
    let below = table::groups_rows(record, v, schema, groups);
    assert forall|k: int| 0 <= k < items.len() implies is_row_of(
        rows[k + 1],
        record,
        v,
        schema,
        #[trigger] items[k],
    ) by {
        assert(rows[k + 1] == below[k]);
    }
    assert forall|x: (ItemsAddrModel, int)| #[trigger] items.contains(x) <==> is_shown(
        v,
        schema,
        x,
    ) by {
        assert(groups.contains(x.0.group) <==> has_columns(schema.columns, x.0.group));
        if items.contains(x) {
            let k = choose|k: int| 0 <= k < items.len() && items[k] == x;
            assert(groups.contains(items[k].0.group));
        }
        if is_shown(v, schema, x) {
            assert(items.contains((x.0, x.1)));
        }
    }
    assert forall|j: int, k: int| 0 <= j < k < items.len() implies is_listed_before(
        schema,
        #[trigger] items[j],
        #[trigger] items[k],
    ) && items[j] != items[k] by {
        groups_are_in_order(v, groups, j, k);
        ItemsAddr::order_equal(items[j].0, items[k].0);
        let a = items[j].0.group;
        let b = items[k].0.group;
        if exists|p: int, q: int|
            0 <= p < q < groups.len() && #[trigger] groups[p] == a && #[trigger] groups[q] == b {
            let (p, q) = choose|p: int, q: int|
                0 <= p < q < groups.len() && #[trigger] groups[p] == a && #[trigger] groups[q] == b;
            groups_come_by_column(schema.columns, p, q);
        }
    }
    assert(items.no_duplicates());
}

/// Blank is written as nothing, one value as its text, and a list as its
/// elements' texts with the separator between them.
pub proof fn lists_are_written_joined(
    column: Seq<char>,
    l: Seq<ScalarModel>,
    s: ScalarModel,
    labels: Map<Seq<char>, Map<Seq<char>, Seq<char>>>,
    style: TextStyleModel,
)
    ensures
        table::value_text(column, TableValueModel::Blank, labels, style) == Seq::<char>::empty(),
        table::value_text(column, TableValueModel::Many(Seq::empty()), labels, style) == Seq::<
            char,
        >::empty(),
        table::value_text(column, TableValueModel::Many(l.push(s)), labels, style) == if l.len() == 0 {
            table::value_text(column, TableValueModel::One(s), labels, style)
        } else {
            table::value_text(column, TableValueModel::Many(l), labels, style) + style.list_separator
                + table::value_text(column, TableValueModel::One(s), labels, style)
        },
{
    let more = l.push(s);
    let before = Seq::new(l.len(), |i: int| table::cell_text(column, l[i], labels, style));
    let after = Seq::new(more.len(), |i: int| table::cell_text(column, more[i], labels, style));
    assert(after.drop_last() =~= before);
    assert(after.last() == table::cell_text(column, s, labels, style));
    let none = Seq::new(
        Seq::<ScalarModel>::empty().len(),
        |i: int| table::cell_text(column, Seq::<ScalarModel>::empty()[i], labels, style),
    );
    assert(none.len() == 0);
}

/// A plain value is written as it is cast to text; an option by its label
/// where one is known and ids are not asked for, and by its id otherwise;
/// a file by its name.
pub proof fn values_are_written_as_cast(
    column: Seq<char>,
    s: ScalarModel,
    ty: ScalarTypeModel,
    labels: Map<Seq<char>, Map<Seq<char>, Seq<char>>>,
    style: TextStyleModel,
    noms: Map<(Seq<char>, u32), Seq<OptionRowModel>>,
)
    requires
        !(ty is Enum),
    ensures
        ({
            let written = table::value_text(column, TableValueModel::One(s), labels, style);
            match s {
                ScalarModel::Enum(id) => written == if !style.enum_ids && labels.dom().contains(
                    column,
                ) && labels[column].dom().contains(id) {
                    labels[column][id]
                } else {
                    id
                },
                ScalarModel::Attachment(a) => written == a.filename,
                ScalarModel::Geometry(_) => true,
                _ => ty != ScalarTypeModel::Text || s is Text ==> projection::scalar_projection(
                    s,
                    ty,
                    ScalarTypeModel::Text,
                    noms,
                ) == Ok::<_, CastErrorModel>(Some((ScalarModel::Text(written), false))),
            }
        }),
{
}

/// A column's header is its label, with its note in brackets where it has
/// one.
pub proof fn headers_show_notes(c: TableColumnModel)
    ensures
        c.note is None ==> table::header_label(c) == c.label,
        c.note matches Some(note) ==> table::header_label(c) == c.label + seq![' ', '['] + note + seq![
            ']',
        ],
{
    reveal_strlit(" [");
    reveal_strlit("]");
    assert(" ["@ =~= seq![' ', '[']);
    assert("]"@ =~= seq![']']);
}

} // verus!
