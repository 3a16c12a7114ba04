//! What a record looks like under another schema: which cells and lists
//! come through, as what, and how they are counted.

use vstd::prelude::*;
use crate::cast;
use crate::collections;
use crate::conformance;
use crate::counting;
use crate::projection;
use crate::cast::{Cast, CastErrorModel};
use crate::conformance::{ColumnInfoModel, GroupInfoModel};
use crate::ids::ColumnId;
use crate::order::{Key, Order};
use crate::projection::ColumnReport;
use crate::schema::{OptionRowModel, ScalarTypeModel, SchemaModel};
use crate::value::{
    CellAddr, CellAddrModel, CellStateModel, CellValueModel, ItemsAddr, ItemsAddrModel,
    RecordValuesModel, ScalarModel,
};

verus! {

/// Whether a column's cells are cast: both schemas have it, in the same
/// groups, and there is a cast between its types.
pub open spec fn is_cast(
    column: Seq<char>,
    writer: Map<Seq<char>, ColumnInfoModel>,
    reader: Map<Seq<char>, ColumnInfoModel>,
    noms: Map<(Seq<char>, u32), Seq<OptionRowModel>>,
) -> bool {
    &&& writer.dom().contains(column) && reader.dom().contains(column)
    &&& writer[column].scope == reader[column].scope
    &&& cast::column_cast_of(
        (writer[column].ty, writer[column].arity),
        (reader[column].ty, reader[column].arity),
        noms,
    ) matches Ok(cast) && cast.possible
}

/// What a cell becomes, and whether that is a loss; nothing where its
/// cast rejects it.
pub open spec fn becomes(
    v: RecordValuesModel,
    a: CellAddrModel,
    writer: Map<Seq<char>, ColumnInfoModel>,
    reader: Map<Seq<char>, ColumnInfoModel>,
    noms: Map<(Seq<char>, u32), Seq<OptionRowModel>>,
) -> Option<(CellStateModel, bool)> {
    projection::state_projection(v.cells[a], writer[a.column], reader[a.column], noms)->Ok_0
}

/// How many cells of a column become something of a kind.
pub open spec fn cells_that(
    v: RecordValuesModel,
    column: Seq<char>,
    writer: Map<Seq<char>, ColumnInfoModel>,
    reader: Map<Seq<char>, ColumnInfoModel>,
    noms: Map<(Seq<char>, u32), Seq<OptionRowModel>>,
    p: spec_fn(Option<(CellStateModel, bool)>) -> bool,
) -> nat {
    v.cells.dom().filter(
        |a: CellAddrModel| a.column == column && p(becomes(v, a, writer, reader, noms)),
    ).len()
}

/// Whether a report is right about a column.
pub open spec fn reports_on(
    report: ColumnReport,
    v: RecordValuesModel,
    column: Seq<char>,
    writer: Map<Seq<char>, ColumnInfoModel>,
    reader: Map<Seq<char>, ColumnInfoModel>,
    noms: Map<(Seq<char>, u32), Seq<OptionRowModel>>,
) -> bool {
    let came = cells_that(v, column, writer, reader, noms, |o: Option<(CellStateModel, bool)>| o is Some);
    let lost = cells_that(
        v,
        column,
        writer,
        reader,
        noms,
        |o: Option<(CellStateModel, bool)>| o matches Some(x) && x.1,
    );
    let failed = cells_that(v, column, writer, reader, noms, |o: Option<(CellStateModel, bool)>| o is None);
    if !writer.dom().contains(column) {
        report.status is AddedAbsent && has_no_cells(report)
    } else if writer[column].scope != reader[column].scope {
        report.status is ScopeMoved && has_no_cells(report)
    } else if !is_cast(column, writer, reader, noms) {
        report.status is Forbidden && has_no_cells(report)
    } else {
        &&& report.status is Identity || report.status is Cast
        &&& report.status is Identity <==> cast::column_cast_of(
            (writer[column].ty, writer[column].arity),
            (reader[column].ty, reader[column].arity),
            noms,
        )->Ok_0.spec_class() is Identity
        &&& report.cells_projected == came
        &&& report.cells_lossy == lost
        &&& report.cells_failed == failed
    }
}

/// Whether a report counts nothing.
pub open spec fn has_no_cells(report: ColumnReport) -> bool {
    report.cells_projected == 0 && report.cells_lossy == 0 && report.cells_failed == 0
}

proof fn cells_are_cast(
    cells: Map<CellAddrModel, CellStateModel>,
    keys: Seq<CellAddrModel>,
    values: Map<CellAddrModel, CellStateModel>,
    column: Seq<char>,
    writer: ColumnInfoModel,
    reader: ColumnInfoModel,
    noms: Map<(Seq<char>, u32), Seq<OptionRowModel>>,
)
    ensures
        projection::cells_projection(cells, keys, values, column, writer, reader, noms) matches Ok(c) ==> {
            let out = |a: CellAddrModel|
                projection::state_projection(values[a], writer, reader, noms)->Ok_0;
            &&& forall|a: CellAddrModel| #[trigger]
                c.cells.dom().contains(a) <==> cells.dom().contains(a) || (keys.contains(a)
                    && a.column == column && out(a) is Some)
            &&& forall|a: CellAddrModel| #[trigger]
                c.cells.dom().contains(a) ==> c.cells[a] == if keys.contains(a) && a.column
                    == column && out(a) is Some {
                    (out(a)->0).0
                } else {
                    cells[a]
                }
            &&& c.projected == counting::count_along(
                keys,
                |a: CellAddrModel| a.column == column && out(a) is Some,
            )
            &&& c.lossy == counting::count_along(
                keys,
                |a: CellAddrModel| a.column == column && (out(a) matches Some(x) && x.1),
            )
            &&& c.failed == counting::count_along(
                keys,
                |a: CellAddrModel| a.column == column && out(a) is None,
            )
        },
    decreases keys.len(),
{
    if keys.len() > 0 {
        let rest = keys.drop_last();
        let last = keys.last();
        cells_are_cast(cells, rest, values, column, writer, reader, noms);
        assert(keys[keys.len() - 1] == last);
        assert forall|a: CellAddrModel| #[trigger] keys.contains(a) <==> rest.contains(a) || a
            == last by {
            if keys.contains(a) {
                let i = choose|i: int| 0 <= i < keys.len() && keys[i] == a;
                if i < rest.len() {
                    assert(rest[i] == a);
                }
            }
            if rest.contains(a) {
                let i = choose|i: int| 0 <= i < rest.len() && rest[i] == a;
                assert(keys[i] == a);
            }
        }
    }
}

/// What the columns done so far have left.
spec fn is_so_far(
    done: Seq<Seq<char>>,
    cells: Map<CellAddrModel, CellStateModel>,
    reports: Map<Seq<char>, ColumnReport>,
    v: RecordValuesModel,
    writer: Map<Seq<char>, ColumnInfoModel>,
    reader: Map<Seq<char>, ColumnInfoModel>,
    noms: Map<(Seq<char>, u32), Seq<OptionRowModel>>,
) -> bool {
    &&& forall|c: Seq<char>| #[trigger] reports.dom().contains(c) <==> done.contains(c)
    &&& forall|c: Seq<char>| #[trigger]
        done.contains(c) ==> reports_on(reports[c], v, c, writer, reader, noms)
    &&& forall|a: CellAddrModel| #[trigger]
        cells.dom().contains(a) <==> v.cells.dom().contains(a) && done.contains(a.column)
            && is_cast(a.column, writer, reader, noms) && becomes(v, a, writer, reader, noms) is Some
    &&& forall|a: CellAddrModel| #[trigger]
        cells.dom().contains(a) ==> cells[a] == (becomes(v, a, writer, reader, noms)->0).0
}

proof fn column_is_done(
    cells: Map<CellAddrModel, CellStateModel>,
    v: RecordValuesModel,
    column: Seq<char>,
    writer: Map<Seq<char>, ColumnInfoModel>,
    reader: Map<Seq<char>, ColumnInfoModel>,
    noms: Map<(Seq<char>, u32), Seq<OptionRowModel>>,
)
    requires
        v.cells.dom().finite(),
        v.cells.dom().len() <= u64::MAX,
        reader.dom().contains(column),
        forall|a: CellAddrModel| #[trigger] cells.dom().contains(a) ==> a.column != column,
    ensures
        projection::column_projection(cells, v.cells, column, writer, reader[column], noms) matches Ok(out)
            ==> {
            &&& reports_on(out.1, v, column, writer, reader, noms)
            &&& forall|a: CellAddrModel| #[trigger]
                out.0.dom().contains(a) <==> cells.dom().contains(a) || (v.cells.dom().contains(a)
                    && a.column == column && is_cast(column, writer, reader, noms) && becomes(
                    v,
                    a,
                    writer,
                    reader,
                    noms,
                ) is Some)
            &&& forall|a: CellAddrModel| #[trigger]
                out.0.dom().contains(a) ==> out.0[a] == if a.column == column {
                    (becomes(v, a, writer, reader, noms)->0).0
                } else {
                    cells[a]
                }
        },
{
    if let Ok(done) = projection::column_projection(cells, v.cells, column, writer, reader[column], noms) {
        if is_cast(column, writer, reader, noms) {
            let keys = collections::key_order::<CellAddr>(v.cells.dom());
            collections::finite_is_listed::<CellAddr>(v.cells.dom());
            collections::in_order_is_distinct::<CellAddr>(keys);
            assert(keys.to_set() =~= v.cells.dom()) by {
                assert forall|a: CellAddrModel| #[trigger]
                    keys.to_set().contains(a) <==> v.cells.dom().contains(a) by {
                    assert(keys.contains(a) <==> v.cells.dom().contains(a));
                }
            }
            let w = writer[column];
            let r = reader[column];
            cells_are_cast(cells, keys, v.cells, column, w, r, noms);
            let out = |a: CellAddrModel| projection::state_projection(v.cells[a], w, r, noms)->Ok_0;
            counts_agree(
                v,
                column,
                writer,
                reader,
                noms,
                keys,
                |o: Option<(CellStateModel, bool)>| o is Some,
                |a: CellAddrModel| a.column == column && out(a) is Some,
            );
            counts_agree(
                v,
                column,
                writer,
                reader,
                noms,
                keys,
                |o: Option<(CellStateModel, bool)>| o matches Some(x) && x.1,
                |a: CellAddrModel| a.column == column && (out(a) matches Some(x) && x.1),
            );
            counts_agree(
                v,
                column,
                writer,
                reader,
                noms,
                keys,
                |o: Option<(CellStateModel, bool)>| o is None,
                |a: CellAddrModel| a.column == column && out(a) is None,
            );
        }
    }
}

proof fn counts_agree(
    v: RecordValuesModel,
    column: Seq<char>,
    writer: Map<Seq<char>, ColumnInfoModel>,
    reader: Map<Seq<char>, ColumnInfoModel>,
    noms: Map<(Seq<char>, u32), Seq<OptionRowModel>>,
    keys: Seq<CellAddrModel>,
    p: spec_fn(Option<(CellStateModel, bool)>) -> bool,
    q: spec_fn(CellAddrModel) -> bool,
)
    requires
        v.cells.dom().finite(),
        keys.no_duplicates(),
        keys.to_set() == v.cells.dom(),
        forall|a: CellAddrModel| #[trigger]
            q(a) == (a.column == column && p(becomes(v, a, writer, reader, noms))),
    ensures
        cells_that(v, column, writer, reader, noms, p) == counting::count_along(keys, q),
        counting::count_along(keys, q) <= v.cells.dom().len(),
{
    let f = |a: CellAddrModel| a.column == column && p(becomes(v, a, writer, reader, noms));
    assert(f =~= q);
    counting::count_of_listing(keys, q);
    vstd::set_lib::lemma_len_subset(v.cells.dom().filter(q), v.cells.dom());
}

proof fn columns_are_done(
    keys: Seq<Seq<char>>,
    v: RecordValuesModel,
    writer: Map<Seq<char>, ColumnInfoModel>,
    reader: Map<Seq<char>, ColumnInfoModel>,
    noms: Map<(Seq<char>, u32), Seq<OptionRowModel>>,
)
    requires
        v.cells.dom().finite(),
        v.cells.dom().len() <= u64::MAX,
        keys.no_duplicates(),
        forall|c: Seq<char>| #[trigger] keys.contains(c) ==> reader.dom().contains(c),
    ensures
        projection::columns_projection(keys, v.cells, writer, reader, noms) matches Ok(out) ==> is_so_far(
            keys,
            out.0,
            out.1,
            v,
            writer,
            reader,
            noms,
        ),
    decreases keys.len(),
{
    if keys.len() > 0 {
        let rest = keys.drop_last();
        let last = keys.last();
        assert(keys[keys.len() - 1] == last);
        assert forall|c: Seq<char>| #[trigger] keys.contains(c) <==> rest.contains(c) || c
            == last by {
            if keys.contains(c) {
                let i = choose|i: int| 0 <= i < keys.len() && keys[i] == c;
                if i < rest.len() {
                    assert(rest[i] == c);
                }
            }
            if rest.contains(c) {
                let i = choose|i: int| 0 <= i < rest.len() && rest[i] == c;
                assert(keys[i] == c);
            }
        }
        assert(!rest.contains(last)) by {
            if rest.contains(last) {
                let i = choose|i: int| 0 <= i < rest.len() && rest[i] == last;
                assert(keys[i] == keys[keys.len() - 1]);
            }
        }
        assert(rest.no_duplicates());
        assert forall|c: Seq<char>| #[trigger] rest.contains(c) implies reader.dom().contains(
            c,
        ) by {
            assert(keys.contains(c));
        }
        assert(keys.contains(last));
        columns_are_done(rest, v, writer, reader, noms);
        if let Ok((cells, reports)) = projection::columns_projection(rest, v.cells, writer, reader, noms) {
            column_is_done(cells, v, last, writer, reader, noms);
        }
    }
}

/// The cells that come through are those of columns that both schemas
/// have in the same groups, with a cast between their types that does not
/// reject them; each comes through as that cast gives it.
pub proof fn cells_come_through_their_casts(
    v: RecordValuesModel,
    writer: SchemaModel,
    reader: SchemaModel,
    noms: Map<(Seq<char>, u32), Seq<OptionRowModel>>,
)
    requires
        v.cells.dom().finite(),
        v.cells.dom().len() <= u64::MAX,
    ensures
        projection::projection(v, writer, reader, noms) matches Ok(p) ==> {
            let w = conformance::schema_index(writer).columns;
            let r = conformance::schema_index(reader).columns;
            &&& forall|a: CellAddrModel| #[trigger]
                p.values.cells.dom().contains(a) <==> v.cells.dom().contains(a) && is_cast(
                    a.column,
                    w,
                    r,
                    noms,
                ) && becomes(v, a, w, r, noms) is Some
            &&& forall|a: CellAddrModel| #[trigger]
                p.values.cells.dom().contains(a) ==> p.values.cells[a] == (becomes(
                    v,
                    a,
                    w,
                    r,
                    noms,
                )->0).0
        },
{
    let w = conformance::schema_index(writer).columns;
    let r = conformance::schema_index(reader).columns;
    reader_is_listed(reader);
    columns_are_done(collections::key_order::<ColumnId>(r.dom()), v, w, r, noms);
}

proof fn reader_is_listed(reader: SchemaModel)
    ensures
        ({
            let r = conformance::schema_index(reader).columns;
            let keys = collections::key_order::<ColumnId>(r.dom());
            &&& keys.no_duplicates()
            &&& collections::in_order::<ColumnId>(keys)
            &&& forall|c: Seq<char>| #[trigger] keys.contains(c) <==> r.dom().contains(c)
        }),
{
    let r = conformance::schema_index(reader).columns;
    conformance::index_is_finite(reader);
    collections::finite_is_listed::<ColumnId>(r.dom());
    collections::in_order_is_distinct::<ColumnId>(collections::key_order::<ColumnId>(r.dom()));
}

/// Every column of the reader is reported: as added, moved or without a
/// cast, with no cells; or as cast, with the number of its cells that
/// come through, that lose something and that are rejected.
pub proof fn every_column_is_reported(
    v: RecordValuesModel,
    writer: SchemaModel,
    reader: SchemaModel,
    noms: Map<(Seq<char>, u32), Seq<OptionRowModel>>,
)
    requires
        v.cells.dom().finite(),
        v.cells.dom().len() <= u64::MAX,
    ensures
        projection::projection(v, writer, reader, noms) matches Ok(p) ==> {
            let w = conformance::schema_index(writer).columns;
            let r = conformance::schema_index(reader).columns;
            &&& forall|c: Seq<char>| #[trigger]
                p.report.columns.dom().contains(c) <==> r.dom().contains(c)
            &&& forall|c: Seq<char>| #[trigger]
                r.dom().contains(c) ==> reports_on(p.report.columns[c], v, c, w, r, noms)
        },
{
    let w = conformance::schema_index(writer).columns;
    let r = conformance::schema_index(reader).columns;
    let keys = collections::key_order::<ColumnId>(r.dom());
    reader_is_listed(reader);
    columns_are_done(keys, v, w, r, noms);
    if let Ok(p) = projection::projection(v, writer, reader, noms) {
        assert forall|c: Seq<char>| #[trigger] r.dom().contains(c) implies reports_on(
            p.report.columns[c],
            v,
            c,
            w,
            r,
            noms,
        ) by {
            assert(keys.contains(c));
        }
    }
}

proof fn ignored_are_those(keys: Seq<Seq<char>>, reader: Map<Seq<char>, ColumnInfoModel>)
    requires
        collections::in_order::<ColumnId>(keys),
    ensures
        collections::in_order::<ColumnId>(projection::ignored_columns(keys, reader)),
        forall|c: Seq<char>| #[trigger]
            projection::ignored_columns(keys, reader).contains(c) <==> keys.contains(c)
                && !reader.dom().contains(c),
    decreases keys.len(),
{
    let out = projection::ignored_columns(keys, reader);
    if keys.len() > 0 {
        let rest = keys.drop_last();
        let last = keys.last();
        let before = projection::ignored_columns(rest, reader);
        assert(keys[keys.len() - 1] == last);
        assert(collections::in_order::<ColumnId>(rest)) by {
            assert forall|i: int, j: int|
                #![trigger rest[i], rest[j]]
                0 <= i < j < rest.len() implies ColumnId::order(rest[i], rest[j])
                == Order::Less by {
                assert(rest[i] == keys[i] && rest[j] == keys[j]);
            }
        }
        ignored_are_those(rest, reader);
        assert forall|c: Seq<char>| #[trigger] keys.contains(c) <==> rest.contains(c) || c
            == last by {
            if keys.contains(c) {
                let i = choose|i: int| 0 <= i < keys.len() && keys[i] == c;
                if i < rest.len() {
                    assert(rest[i] == c);
                }
            }
            if rest.contains(c) {
                let i = choose|i: int| 0 <= i < rest.len() && rest[i] == c;
                assert(keys[i] == c);
            }
        }
        assert forall|c: Seq<char>| #[trigger] out.contains(c) <==> keys.contains(c)
            && !reader.dom().contains(c) by {
            if out.contains(c) {
                let i = choose|i: int| 0 <= i < out.len() && out[i] == c;
                if i < before.len() {
                    assert(before[i] == c);
                    assert(before.contains(c));
                }
            }
            if before.contains(c) {
                let i = choose|i: int| 0 <= i < before.len() && before[i] == c;
                assert(out[i] == c);
            }
            if c == last && !reader.dom().contains(c) {
                assert(out[before.len() as int] == c);
            }
        }
        assert forall|i: int, j: int|
            #![trigger out[i], out[j]]
            0 <= i < j < out.len() implies ColumnId::order(out[i], out[j]) == Order::Less by {
            assert(out[i] == before[i]);
            if j < before.len() {
                assert(out[j] == before[j]);
            } else {
                assert(before.contains(before[i]));
                assert(rest.contains(before[i]));
                let k = choose|k: int| 0 <= k < rest.len() && rest[k] == before[i];
                assert(keys[k] == before[i]);
                assert(ColumnId::order(keys[k], keys[keys.len() - 1]) == Order::Less);
            }
        }
    }
}

/// The columns that only the writer has are named, each once and in
/// order.
pub proof fn ignored_columns_are_named(
    v: RecordValuesModel,
    writer: SchemaModel,
    reader: SchemaModel,
    noms: Map<(Seq<char>, u32), Seq<OptionRowModel>>,
)
    ensures
        projection::projection(v, writer, reader, noms) matches Ok(p) ==> {
            let w = conformance::schema_index(writer).columns;
            let r = conformance::schema_index(reader).columns;
            &&& collections::in_order::<ColumnId>(p.report.ignored_writer_columns)
            &&& forall|c: Seq<char>| #[trigger]
                p.report.ignored_writer_columns.contains(c) <==> w.dom().contains(c)
                    && !r.dom().contains(c)
        },
{
    reader_is_listed(writer);
    ignored_are_those(
        collections::key_order::<ColumnId>(conformance::schema_index(writer).columns.dom()),
        conformance::schema_index(reader).columns,
    );
}

/// Whether the reader has a list's group, as a group of many, where the
/// list stands.
pub open spec fn has_its_place(
    addr: ItemsAddrModel,
    groups: Map<Seq<char>, GroupInfoModel>,
) -> bool {
    &&& groups.dom().contains(addr.group)
    &&& groups[addr.group].cardinality is Many
    &&& addr.parent.len() == groups[addr.group].parent_scope.len()
    &&& forall|i: int|
        0 <= i < addr.parent.len() ==> (#[trigger] addr.parent[i]).group
            == groups[addr.group].parent_scope[i]
}

proof fn places_agree(addr: ItemsAddrModel, groups: Map<Seq<char>, GroupInfoModel>)
    ensures
        projection::list_is_kept(addr, groups) == has_its_place(addr, groups),
{
    let g = conformance::path_groups(addr.parent);
    let scope = groups[addr.group].parent_scope;
    if has_its_place(addr, groups) {
        assert(g =~= scope);
    }
    if projection::list_is_kept(addr, groups) {
        assert forall|i: int| 0 <= i < addr.parent.len() implies (#[trigger] addr.parent[i]).group
            == scope[i] by {
            assert(g[i] == addr.parent[i].group);
        }
    }
}

proof fn lists_are_kept(
    keys: Seq<ItemsAddrModel>,
    items: Map<ItemsAddrModel, Seq<Seq<char>>>,
    groups: Map<Seq<char>, GroupInfoModel>,
)
    ensures
        ({
            let (kept, dropped) = projection::lists_projection(keys, items, groups);
            &&& forall|a: ItemsAddrModel| #[trigger]
                kept.dom().contains(a) <==> keys.contains(a) && has_its_place(a, groups)
            &&& forall|a: ItemsAddrModel| #[trigger] kept.dom().contains(a) ==> kept[a] == items[a]
            &&& dropped == counting::count_along(keys, |a: ItemsAddrModel| !has_its_place(a, groups))
        }),
    decreases keys.len(),
{
    if keys.len() > 0 {
        let rest = keys.drop_last();
        let last = keys.last();
        lists_are_kept(rest, items, groups);
        places_agree(last, groups);
        assert(keys[keys.len() - 1] == last);
        assert forall|a: ItemsAddrModel| #[trigger] keys.contains(a) <==> rest.contains(a) || a
            == last by {
            if keys.contains(a) {
                let i = choose|i: int| 0 <= i < keys.len() && keys[i] == a;
                if i < rest.len() {
                    assert(rest[i] == a);
                }
            }
            if rest.contains(a) {
                let i = choose|i: int| 0 <= i < rest.len() && rest[i] == a;
                assert(keys[i] == a);
            }
        }
    }
}

/// A list comes through as it is where the reader has its group in its
/// place; the others are dropped and counted.
pub proof fn lists_come_through_or_are_counted(
    v: RecordValuesModel,
    writer: SchemaModel,
    reader: SchemaModel,
    noms: Map<(Seq<char>, u32), Seq<OptionRowModel>>,
)
    requires
        v.items.dom().finite(),
        v.items.dom().len() <= u64::MAX,
    ensures
        projection::projection(v, writer, reader, noms) matches Ok(p) ==> {
            let groups = conformance::schema_index(reader).groups;
            &&& forall|a: ItemsAddrModel| #[trigger]
                p.values.items.dom().contains(a) <==> v.items.dom().contains(a) && has_its_place(
                    a,
                    groups,
                )
            &&& forall|a: ItemsAddrModel| #[trigger]
                p.values.items.dom().contains(a) ==> p.values.items[a] == v.items[a]
            &&& p.report.dropped_item_lists == v.items.dom().filter(
                |a: ItemsAddrModel| !has_its_place(a, groups),
            ).len()
        },
{
    let groups = conformance::schema_index(reader).groups;
    let keys = collections::key_order::<ItemsAddr>(v.items.dom());
    collections::finite_is_listed::<ItemsAddr>(v.items.dom());
    collections::in_order_is_distinct::<ItemsAddr>(keys);
    assert(keys.to_set() =~= v.items.dom()) by {
        assert forall|a: ItemsAddrModel| #[trigger]
            keys.to_set().contains(a) <==> v.items.dom().contains(a) by {
            assert(keys.contains(a) <==> v.items.dom().contains(a));
        }
    }
    lists_are_kept(keys, v.items, groups);
    let f = |a: ItemsAddrModel| !has_its_place(a, groups);
    counting::count_of_listing(keys, f);
    vstd::set_lib::lemma_len_subset(v.items.dom().filter(f), v.items.dom());
}

/// An empty cell stays empty under any column.
pub proof fn empty_stays_empty(
    w: ColumnInfoModel,
    r: ColumnInfoModel,
    noms: Map<(Seq<char>, u32), Seq<OptionRowModel>>,
)
    ensures
        projection::state_projection(CellStateModel::Empty, w, r, noms) == Ok::<_, CastErrorModel>(
            Some((CellStateModel::Empty, false)),
        ),
{
}

/// A single value becomes what its cast gives: itself alone, or the one
/// element of a list where the column takes many.
pub proof fn a_value_is_cast_alone(
    s: ScalarModel,
    w: ColumnInfoModel,
    r: ColumnInfoModel,
    noms: Map<(Seq<char>, u32), Seq<OptionRowModel>>,
)
    ensures
        projection::state_projection(CellStateModel::Value(CellValueModel::One(s)), w, r, noms)
            == match projection::scalar_projection(s, w.ty, r.ty, noms) {
            Ok(Some((t, lossy))) => Ok(
                Some(
                    (
                        CellStateModel::Value(
                            if r.arity is One {
                                CellValueModel::One(t)
                            } else {
                                CellValueModel::Many(seq![t])
                            },
                        ),
                        lossy,
                    ),
                ),
            ),
            Ok(None) => Ok(None),
            Err(e) => Err(e),
        },
{
    reveal_with_fuel(projection::scalars_projection, 2);
    let one = seq![s];
    assert(one.drop_last() =~= Seq::<ScalarModel>::empty());
    assert(one.last() == s);
    if let Ok(Some((t, lossy))) = projection::scalar_projection(s, w.ty, r.ty, noms) {
        assert(Seq::<ScalarModel>::empty().push(t) =~= seq![t]);
        one_repeats_nothing(t);
    }
}

proof fn one_repeats_nothing(t: ScalarModel)
    ensures
        !conformance::repeats_element(seq![t]),
{
}

proof fn all_are_cast(
    l: Seq<ScalarModel>,
    w: ScalarTypeModel,
    r: ScalarTypeModel,
    noms: Map<(Seq<char>, u32), Seq<OptionRowModel>>,
    out: Seq<(ScalarModel, bool)>,
)
    requires
        out.len() == l.len(),
        forall|i: int|
            0 <= i < l.len() ==> projection::scalar_projection(#[trigger] l[i], w, r, noms) == Ok::<
                _,
                CastErrorModel,
            >(Some(out[i])),
    ensures
        projection::scalars_projection(l, w, r, noms) == Ok::<_, CastErrorModel>(
            Some(
                (
                    Seq::new(out.len(), |i: int| out[i].0),
                    exists|i: int| 0 <= i < out.len() && (#[trigger] out[i]).1,
                ),
            ),
        ),
    decreases l.len(),
{
    let done = Seq::new(out.len(), |i: int| out[i].0);
    if l.len() == 0 {
        assert(done =~= Seq::<ScalarModel>::empty());
    } else {
        let rest = out.drop_last();
        let before = Seq::new(rest.len(), |i: int| rest[i].0);
        assert forall|i: int| 0 <= i < l.drop_last().len() implies projection::scalar_projection(
            #[trigger] l.drop_last()[i],
            w,
            r,
            noms,
        ) == Ok::<_, CastErrorModel>(Some(rest[i])) by {
            assert(l.drop_last()[i] == l[i]);
        }
        all_are_cast(l.drop_last(), w, r, noms, rest);
        assert(l[l.len() - 1] == l.last());
        assert(out[out.len() - 1] == out.last());
        assert(before.push(out.last().0) =~= done);
        assert((exists|i: int| 0 <= i < out.len() && (#[trigger] out[i]).1) == ((exists|i: int|
            0 <= i < rest.len() && (#[trigger] rest[i]).1) || out.last().1)) by {
            if exists|i: int| 0 <= i < out.len() && (#[trigger] out[i]).1 {
                let i = choose|i: int| 0 <= i < out.len() && (#[trigger] out[i]).1;
                if i < rest.len() {
                    assert(rest[i].1);
                }
            }
            if exists|i: int| 0 <= i < rest.len() && (#[trigger] rest[i]).1 {
                let i = choose|i: int| 0 <= i < rest.len() && (#[trigger] rest[i]).1;
                assert(out[i].1);
            }
        }
    }
}

/// A list becomes the list of what its elements are cast to, in order,
/// with a loss where one of them loses something. Under a column that
/// takes one value its first element stays, and that is a loss where
/// there were more.
pub proof fn a_list_is_cast_by_element(
    l: Seq<ScalarModel>,
    w: ColumnInfoModel,
    r: ColumnInfoModel,
    noms: Map<(Seq<char>, u32), Seq<OptionRowModel>>,
    out: Seq<(ScalarModel, bool)>,
)
    requires
        l.len() > 0,
        out.len() == l.len(),
        forall|i: int|
            0 <= i < l.len() ==> projection::scalar_projection(#[trigger] l[i], w.ty, r.ty, noms) == Ok::<
                _,
                CastErrorModel,
            >(Some(out[i])),
    ensures
        ({
            let list = Seq::new(out.len(), |i: int| out[i].0);
            let lossy = exists|i: int| 0 <= i < out.len() && (#[trigger] out[i]).1;
            let got = projection::state_projection(CellStateModel::Value(CellValueModel::Many(l)), w, r, noms);
            if r.arity is One {
                got == Ok::<_, CastErrorModel>(
                    Some(
                        (
                            CellStateModel::Value(CellValueModel::One(out[0].0)),
                            l.len() > 1 || out[0].1,
                        ),
                    ),
                )
            } else if conformance::repeats_element(list) {
                got == Ok::<Option<(CellStateModel, bool)>, CastErrorModel>(None)
            } else {
                got == Ok::<_, CastErrorModel>(
                    Some((CellStateModel::Value(CellValueModel::Many(list)), lossy)),
                )
            }
        }),
{
    all_are_cast(l, w.ty, r.ty, noms, out);
    let first = l.take(1);
    assert(first[0] == l[0]);
    assert(out.take(1)[0] == out[0]);
    all_are_cast(first, w.ty, r.ty, noms, out.take(1));
    if l.len() == 1 {
        assert(l =~= first);
    }
    if out[0].1 {
        assert(out.take(1)[0].1);
    }
}

/// A list with an element that its cast rejects is rejected whole.
pub proof fn one_rejected_element_rejects_the_list(
    l: Seq<ScalarModel>,
    w: ColumnInfoModel,
    r: ColumnInfoModel,
    noms: Map<(Seq<char>, u32), Seq<OptionRowModel>>,
    k: int,
)
    requires
        r.arity is Many,
        0 <= k < l.len(),
        projection::scalar_projection(l[k], w.ty, r.ty, noms) == Ok::<
            Option<(ScalarModel, bool)>,
            CastErrorModel,
        >(None),
        forall|i: int|
            0 <= i < k ==> projection::scalar_projection(#[trigger] l[i], w.ty, r.ty, noms) matches Ok(Some(_)),
    ensures
        projection::state_projection(CellStateModel::Value(CellValueModel::Many(l)), w, r, noms) == Ok::<
            Option<(CellStateModel, bool)>,
            CastErrorModel,
        >(None),
{
    a_rejected_element_stops(l, w.ty, r.ty, noms, k);
}

proof fn a_rejected_element_stops(
    l: Seq<ScalarModel>,
    w: ScalarTypeModel,
    r: ScalarTypeModel,
    noms: Map<(Seq<char>, u32), Seq<OptionRowModel>>,
    k: int,
)
    requires
        0 <= k < l.len(),
        projection::scalar_projection(l[k], w, r, noms) == Ok::<Option<(ScalarModel, bool)>, CastErrorModel>(
            None,
        ),
        forall|i: int|
            0 <= i < k ==> projection::scalar_projection(#[trigger] l[i], w, r, noms) matches Ok(Some(_)),
    ensures
        projection::scalars_projection(l, w, r, noms) == Ok::<
            Option<(Seq<ScalarModel>, bool)>,
            CastErrorModel,
        >(None),
    decreases l.len(),
{
    let rest = l.drop_last();
    if k < rest.len() {
        assert forall|i: int| 0 <= i < k implies projection::scalar_projection(
            #[trigger] rest[i],
            w,
            r,
            noms,
        ) matches Ok(Some(_)) by {
            assert(rest[i] == l[i]);
        }
        assert(rest[k] == l[k]);
        a_rejected_element_stops(rest, w, r, noms, k);
    } else {
        let out = Seq::new(
            rest.len(),
            |i: int| projection::scalar_projection(rest[i], w, r, noms)->Ok_0->0,
        );
        assert forall|i: int| 0 <= i < rest.len() implies projection::scalar_projection(
            #[trigger] rest[i],
            w,
            r,
            noms,
        ) == Ok::<_, CastErrorModel>(Some(out[i])) by {
            assert(rest[i] == l[i]);
        }
        all_are_cast(rest, w, r, noms, out);
        assert(l.last() == l[k]);
    }
}

} // verus!
