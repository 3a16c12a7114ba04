//! Records as table rows: one for the record, one for each item of a
//! `many` group. File formats may differ in presentation only.

use vstd::prelude::*;
use crate::canonical;
use crate::collections;
use crate::conformance;
use crate::decimal;
use crate::order;
use crate::time;
use crate::canonical::push_int;
use crate::collections::OrderedMap;
use crate::ids::{ColumnId, GroupId, ItemId, OptionId, PathSeg, PathSegModel, RecordId, RowPath};
use crate::order::{Modeled, contains_model, dup_vec};
use crate::schema::{Arity, ScalarType, ScalarTypeModel};
use crate::text::{push_text, text_of};
use crate::time::Date;
use crate::value::{
    CellAddr, CellAddrModel, CellState, CellStateModel, CellValue, CellValueModel, ItemsAddr,
    ItemsAddrModel, RecordValues, RecordValuesModel, Scalar, ScalarModel,
};

verus! {

/// One column of a view, as plain data.
#[derive(Clone, Debug, PartialEq, Eq)]
pub struct TableColumn {
    pub column: ColumnId,
    /// The first header row, cosmetic.
    pub label: String,
    pub ty: ScalarType,
    pub arity: Arity,
    /// Enclosing `many` groups, outermost first.
    pub scope: Vec<GroupId>,
    /// A header flag, rendered by the caller.
    pub note: Option<String>,
}

/// The model of [`TableColumn`].
#[verifier::ext_equal]
pub struct TableColumnModel {
    pub column: Seq<char>,
    pub label: Seq<char>,
    pub ty: ScalarTypeModel,
    pub arity: Arity,
    pub scope: Seq<Seq<char>>,
    pub note: Option<Seq<char>>,
}

impl DeepView for TableColumn {
    type V = TableColumnModel;

    open spec fn deep_view(&self) -> TableColumnModel {
        TableColumnModel {
            column: self.column.deep_view(),
            label: self.label.deep_view(),
            ty: self.ty.deep_view(),
            arity: self.arity.deep_view(),
            scope: self.scope.deep_view(),
            note: self.note.deep_view(),
        }
    }
}

impl View for TableColumn {
    type V = TableColumnModel;

    open spec fn view(&self) -> TableColumnModel {
        self.deep_view()
    }
}

impl Modeled for TableColumn {
    fn dup(&self) -> (r: Self) {
        TableColumn {
            column: self.column.dup(),
            label: self.label.dup(),
            ty: self.ty.dup(),
            arity: self.arity.dup(),
            scope: self.scope.dup(),
            note: self.note.dup(),
        }
    }

    fn same(&self, other: &Self) -> (b: bool) {
        self.column.same(&other.column)
            && self.label.same(&other.label)
            && self.ty.same(&other.ty)
            && self.arity.same(&other.arity)
            && self.scope.same(&other.scope)
            && self.note.same(&other.note)
    }
}

/// The visible columns, in order.
#[derive(Clone, Debug, PartialEq, Eq)]
pub struct TableSchema {
    pub columns: Vec<TableColumn>,
}

/// The model of [`TableSchema`].
#[verifier::ext_equal]
pub struct TableSchemaModel {
    pub columns: Seq<TableColumnModel>,
}

impl DeepView for TableSchema {
    type V = TableSchemaModel;

    open spec fn deep_view(&self) -> TableSchemaModel {
        TableSchemaModel {
            columns: self.columns.deep_view(),
        }
    }
}

impl View for TableSchema {
    type V = TableSchemaModel;

    open spec fn view(&self) -> TableSchemaModel {
        self.deep_view()
    }
}

impl Modeled for TableSchema {
    fn dup(&self) -> (r: Self) {
        TableSchema {
            columns: self.columns.dup(),
        }
    }

    fn same(&self, other: &Self) -> (b: bool) {
        self.columns.same(&other.columns)
    }
}

/// A cell of a view. Blank is both absent and written empty.
#[derive(Clone, Debug, PartialEq, Eq)]
pub enum TableValue {
    Blank,
    One(Scalar),
    Many(Vec<Scalar>),
}

/// The model of [`TableValue`].
#[verifier::ext_equal]
pub enum TableValueModel {
    Blank,
    One(ScalarModel),
    Many(Seq<ScalarModel>),
}

impl DeepView for TableValue {
    type V = TableValueModel;

    open spec fn deep_view(&self) -> TableValueModel {
        match self {
            TableValue::Blank => TableValueModel::Blank,
            TableValue::One(x) => TableValueModel::One(x.deep_view()),
            TableValue::Many(x) => TableValueModel::Many(x.deep_view()),
        }
    }
}

impl View for TableValue {
    type V = TableValueModel;

    open spec fn view(&self) -> TableValueModel {
        self.deep_view()
    }
}

impl Modeled for TableValue {
    fn dup(&self) -> (r: Self) {
        match self {
            TableValue::Blank => TableValue::Blank,
            TableValue::One(x) => TableValue::One(x.dup()),
            TableValue::Many(x) => TableValue::Many(x.dup()),
        }
    }

    fn same(&self, other: &Self) -> (b: bool) {
        match (self, other) {
            (TableValue::Blank, TableValue::Blank) => true,
            (TableValue::One(x), TableValue::One(y)) => x.same(y),
            (TableValue::Many(x), TableValue::Many(y)) => x.same(y),
            _ => false,
        }
    }
}

/// One row: the record's root row, or that of one item. The values align
/// with the columns; those of an enclosing scope are repeated.
#[derive(Clone, Debug, PartialEq, Eq)]
pub struct TableRow {
    pub record: RecordId,
    /// The item's group; none on the root row.
    pub scope: Option<GroupId>,
    pub item: Option<ItemId>,
    /// The item's position in its list, from 1.
    pub ordinal: Option<u64>,
    pub values: Vec<TableValue>,
}

/// The model of [`TableRow`].
#[verifier::ext_equal]
pub struct TableRowModel {
    pub record: Seq<char>,
    pub scope: Option<Seq<char>>,
    pub item: Option<Seq<char>>,
    pub ordinal: Option<u64>,
    pub values: Seq<TableValueModel>,
}

impl DeepView for TableRow {
    type V = TableRowModel;

    open spec fn deep_view(&self) -> TableRowModel {
        TableRowModel {
            record: self.record.deep_view(),
            scope: self.scope.deep_view(),
            item: self.item.deep_view(),
            ordinal: self.ordinal.deep_view(),
            values: self.values.deep_view(),
        }
    }
}

impl View for TableRow {
    type V = TableRowModel;

    open spec fn view(&self) -> TableRowModel {
        self.deep_view()
    }
}

impl Modeled for TableRow {
    fn dup(&self) -> (r: Self) {
        TableRow {
            record: self.record.dup(),
            scope: self.scope.dup(),
            item: self.item.dup(),
            ordinal: self.ordinal.dup(),
            values: self.values.dup(),
        }
    }

    fn same(&self, other: &Self) -> (b: bool) {
        self.record.same(&other.record)
            && self.scope.same(&other.scope)
            && self.item.same(&other.item)
            && self.ordinal.same(&other.ordinal)
            && self.values.same(&other.values)
    }
}

/// Where file formats plug in: first the schema, then one call per row.
pub trait TableSink {
    type Error;

    fn begin(&mut self, schema: &TableSchema) -> Result<(), Self::Error>;

    fn row(&mut self, row: &TableRow) -> Result<(), Self::Error>;

    fn finish(&mut self) -> Result<(), Self::Error>;
}

/// The columns that every table begins with.
pub open spec fn leading() -> Seq<Seq<char>> {
    seq!["record_id"@, "scope"@, "item_id"@, "item_ordinal"@]
}

/// The columns that every table begins with.
pub fn leading_columns() -> (r: Vec<String>)
    ensures
        r.deep_view() == leading(),
{
    let mut r: Vec<String> = Vec::new();
    r.push("record_id".to_owned());
    r.push("scope".to_owned());
    r.push("item_id".to_owned());
    r.push("item_ordinal".to_owned());
    assert(r.deep_view() =~= leading());
    r
}

/// A column's label, with its note in brackets.
pub open spec fn header_label(c: TableColumnModel) -> Seq<char> {
    match c.note {
        Some(note) => c.label + " ["@ + note + "]"@,
        None => c.label,
    }
}

impl TableSchema {
    /// The first header row: labels, cosmetic.
    pub fn header_labels(&self) -> (r: Vec<String>)
        ensures
            r.deep_view() == leading() + Seq::new(
                self@.columns.len(),
                |i: int| header_label(self@.columns[i]),
            ),
    {
        let mut r = leading_columns();
        let ghost all = Seq::new(
            self@.columns.len(),
            |i: int| header_label(self@.columns[i]),
        );
        let mut i: usize = 0;
        assert(r.deep_view() =~= leading() + all.take(0));
        while i < self.columns.len()
            invariant
                i <= self.columns@.len(),
                all == Seq::new(self@.columns.len(), |i: int| header_label(self@.columns[i])),
                r.deep_view() == leading() + all.take(i as int),
            decreases self.columns@.len() - i,
        {
            let c = &self.columns[i];
            assert(self@.columns[i as int] == c@);
            let mut text: Vec<char> = Vec::new();
            push_text(&mut text, c.label.as_str());
            if let Some(note) = &c.note {
                push_text(&mut text, " [");
                push_text(&mut text, note.as_str());
                push_text(&mut text, "]");
            }
            let ghost had = r.deep_view();
            let label = text_of(&text);
            assert(label@ =~= header_label(c@));
            r.push(label);
            assert(r.deep_view() =~= had.push(all[i as int]));
            assert(had.push(all[i as int]) =~= leading() + all.take(i + 1));
            i += 1;
        }
        assert(all.take(all.len() as int) =~= all);
        r
    }

    /// The second header row: column ids, authoritative.
    pub fn header_ids(&self) -> (r: Vec<String>)
        ensures
            r.deep_view() == leading() + Seq::new(
                self@.columns.len(),
                |i: int| self@.columns[i].column,
            ),
    {
        let mut r = leading_columns();
        let ghost all = Seq::new(self@.columns.len(), |i: int| self@.columns[i].column);
        let mut i: usize = 0;
        assert(r.deep_view() =~= leading() + all.take(0));
        while i < self.columns.len()
            invariant
                i <= self.columns@.len(),
                all == Seq::new(self@.columns.len(), |i: int| self@.columns[i].column),
                r.deep_view() == leading() + all.take(i as int),
            decreases self.columns@.len() - i,
        {
            let c = &self.columns[i];
            assert(self@.columns[i as int] == c@);
            let ghost had = r.deep_view();
            r.push(c.column.to_string());
            assert(r.deep_view() =~= had.push(all[i as int]));
            assert(had.push(all[i as int]) =~= leading() + all.take(i + 1));
            i += 1;
        }
        assert(all.take(all.len() as int) =~= all);
        r
    }
}

/// Whether a row path passes first through the groups of a scope.
pub open spec fn is_below(scope: Seq<Seq<char>>, path: Seq<PathSegModel>) -> bool {
    scope.is_prefix_of(conformance::path_groups(path))
}

/// What a column shows on the row at a path: the cell at the path's front
/// that the column's scope takes up, or blank off its scope.
pub open spec fn shown(
    v: RecordValuesModel,
    c: TableColumnModel,
    path: Seq<PathSegModel>,
) -> TableValueModel {
    if is_below(c.scope, path) {
        let addr = CellAddrModel { column: c.column, path: path.take(c.scope.len() as int) };
        if v.cells.dom().contains(addr) {
            match v.cells[addr] {
                CellStateModel::Empty => TableValueModel::Blank,
                CellStateModel::Value(CellValueModel::One(s)) => TableValueModel::One(s),
                CellStateModel::Value(CellValueModel::Many(s)) => TableValueModel::Many(s),
            }
        } else {
            TableValueModel::Blank
        }
    } else {
        TableValueModel::Blank
    }
}

/// The path's front that a scope takes up, where the path passes through
/// it.
pub fn scope_prefix(scope: &Vec<GroupId>, path: &RowPath) -> (r: Option<RowPath>)
    ensures
        match r {
            Some(p) => is_below(scope.deep_view(), path@) && p@ == path@.take(scope@.len() as int),
            None => !is_below(scope.deep_view(), path@),
        },
{
    let segments = path.segments();
    if scope.len() > segments.len() {
        return None;
    }
    let ghost groups = conformance::path_groups(path@);
    let ghost m = scope.deep_view();
    let mut i: usize = 0;
    while i < scope.len()
        invariant
            i <= scope@.len() <= segments@.len(),
            order::models(segments@) == path@,
            groups == conformance::path_groups(path@),
            m == scope.deep_view(),
            forall|j: int| 0 <= j < i ==> #[trigger] m[j] == groups[j],
        decreases scope@.len() - i,
    {
        assert(path@[i as int] == segments@[i as int].deep_view());
        if !scope[i].same(&segments[i].group) {
            assert(groups.subrange(0, m.len() as int)[i as int] == groups[i as int]);
            assert(m[i as int] != groups[i as int]);
            return None;
        }
        i += 1;
    }
    assert(m =~= groups.subrange(0, m.len() as int));
    Some(path.take(scope.len()))
}

fn value_at(values: &RecordValues, c: &TableColumn, path: &RowPath) -> (r: TableValue)
    ensures
        r@ == shown(values@, c@, path@),
{
    match scope_prefix(&c.scope, path) {
        None => TableValue::Blank,
        Some(front) => {
            let addr = CellAddr { column: c.column.dup(), path: front };
            match values.cells.get(&addr) {
                None => TableValue::Blank,
                Some(CellState::Empty) => TableValue::Blank,
                Some(CellState::Value(CellValue::One(s))) => TableValue::One(s.dup()),
                Some(CellState::Value(CellValue::Many(s))) => TableValue::Many(dup_vec(s)),
            }
        },
    }
}

/// The values of the row at a path.
pub open spec fn row_of_path(
    v: RecordValuesModel,
    schema: TableSchemaModel,
    path: Seq<PathSegModel>,
) -> Seq<TableValueModel> {
    Seq::new(schema.columns.len(), |i: int| shown(v, schema.columns[i], path))
}

fn row_values(values: &RecordValues, schema: &TableSchema, path: &RowPath) -> (r: Vec<TableValue>)
    ensures
        r.deep_view() == row_of_path(values@, schema@, path@),
{
    let mut r: Vec<TableValue> = Vec::new();
    let mut i: usize = 0;
    while i < schema.columns.len()
        invariant
            i <= schema.columns@.len(),
            r@.len() == i,
            forall|j: int|
                0 <= j < i ==> (#[trigger] r@[j]).deep_view() == shown(
                    values@,
                    schema@.columns[j],
                    path@,
                ),
        decreases schema.columns@.len() - i,
    {
        assert(schema@.columns[i as int] == schema.columns@[i as int]@);
        r.push(value_at(values, &schema.columns[i], path));
        i += 1;
    }
    assert(r.deep_view() =~= row_of_path(values@, schema@, path@));
    r
}

/// The innermost groups of some columns, in order of first appearance.
pub open spec fn innermost_groups(columns: Seq<TableColumnModel>) -> Seq<Seq<char>>
    decreases columns.len(),
{
    if columns.len() == 0 {
        Seq::empty()
    } else {
        let rest = innermost_groups(columns.drop_last());
        let scope = columns.last().scope;
        if scope.len() > 0 && !rest.contains(scope.last()) {
            rest.push(scope.last())
        } else {
            rest
        }
    }
}

fn find_groups(schema: &TableSchema) -> (r: Vec<GroupId>)
    ensures
        r.deep_view() == innermost_groups(schema@.columns),
{
    let ghost m = schema@.columns;
    let mut r: Vec<GroupId> = Vec::new();
    let mut i: usize = 0;
    assert(m.take(0) =~= Seq::<TableColumnModel>::empty());
    assert(r.deep_view() =~= Seq::<Seq<char>>::empty());
    while i < schema.columns.len()
        invariant
            i <= schema.columns@.len(),
            m == schema@.columns,
            r.deep_view() == innermost_groups(m.take(i as int)),
        decreases schema.columns@.len() - i,
    {
        let c = &schema.columns[i];
        proof {
            assert(m[i as int] == c@);
            assert(m.take(i + 1).drop_last() =~= m.take(i as int));
            assert(m.take(i + 1).last() == c@);
        }
        let n = c.scope.len();
        if n > 0 {
            let g = &c.scope[n - 1];
            assert(c@.scope.last() == g@);
            let ghost had = r.deep_view();
            if !contains_model(&r, g) {
                r.push(g.dup());
                assert(r.deep_view() =~= had.push(g@));
            }
        }
        i += 1;
    }
    assert(m.take(m.len() as int) =~= m);
    r
}

/// The row of one item.
pub open spec fn item_row(
    record: Seq<char>,
    v: RecordValuesModel,
    schema: TableSchemaModel,
    addr: ItemsAddrModel,
    index: int,
) -> TableRowModel {
    let item = v.items[addr][index];
    TableRowModel {
        record,
        scope: Some(addr.group),
        item: Some(item),
        ordinal: Some((index + 1) as u64),
        values: row_of_path(
            v,
            schema,
            addr.parent.push(PathSegModel { group: addr.group, item }),
        ),
    }
}

/// The rows of one list's items, in order.
pub open spec fn list_rows(
    record: Seq<char>,
    v: RecordValuesModel,
    schema: TableSchemaModel,
    addr: ItemsAddrModel,
) -> Seq<TableRowModel> {
    Seq::new(v.items[addr].len(), |i: int| item_row(record, v, schema, addr, i))
}

/// The rows of a group's items, list by list in address order.
pub open spec fn group_rows(
    record: Seq<char>,
    v: RecordValuesModel,
    schema: TableSchemaModel,
    group: Seq<char>,
    keys: Seq<ItemsAddrModel>,
) -> Seq<TableRowModel>
    decreases keys.len(),
{
    if keys.len() == 0 {
        Seq::empty()
    } else {
        group_rows(record, v, schema, group, keys.drop_last()) + if keys.last().group == group {
            list_rows(record, v, schema, keys.last())
        } else {
            Seq::empty()
        }
    }
}

/// The item rows of some groups.
pub open spec fn groups_rows(
    record: Seq<char>,
    v: RecordValuesModel,
    schema: TableSchemaModel,
    groups: Seq<Seq<char>>,
) -> Seq<TableRowModel>
    decreases groups.len(),
{
    if groups.len() == 0 {
        Seq::empty()
    } else {
        groups_rows(record, v, schema, groups.drop_last()) + group_rows(
            record,
            v,
            schema,
            groups.last(),
            collections::key_order::<ItemsAddr>(v.items.dom()),
        )
    }
}

/// A record's own row.
pub open spec fn root_row(
    record: Seq<char>,
    v: RecordValuesModel,
    schema: TableSchemaModel,
) -> TableRowModel {
    TableRowModel {
        record,
        scope: None,
        item: None,
        ordinal: None,
        values: row_of_path(v, schema, Seq::empty()),
    }
}

/// A record's rows: its own first, then those of the items.
pub open spec fn table_rows(
    record: Seq<char>,
    v: RecordValuesModel,
    schema: TableSchemaModel,
) -> Seq<TableRowModel> {
    seq![root_row(record, v, schema)] + groups_rows(
        record,
        v,
        schema,
        innermost_groups(schema.columns),
    )
}

fn push_list_rows(
    record: &RecordId,
    values: &RecordValues,
    schema: &TableSchema,
    at: usize,
    rows: &mut Vec<TableRow>,
)
    requires
        at < values.items.keys().len(),
    ensures
        final(rows).deep_view() == old(rows).deep_view() + list_rows(
            record@,
            values@,
            schema@,
            values.items.keys()[at as int],
        ),
{
    let addr = values.items.key_at(at);
    let items = values.items.value_at(at);
    let ghost all = list_rows(record@, values@, schema@, addr@);
    let ghost start = rows.deep_view();
    let mut i: usize = 0;
    assert(rows.deep_view() =~= start + all.take(0));
    while i < items.len()
        invariant
            i <= items@.len(),
            items.deep_view() == values@.items[addr@],
            all == list_rows(record@, values@, schema@, addr@),
            rows.deep_view() == start + all.take(i as int),
        decreases items@.len() - i,
    {
        let item = &items[i];
        assert(values@.items[addr@][i as int] == item@);
        let path = addr.parent.child(PathSeg { group: addr.group.dup(), item: item.dup() });
        let row = TableRow {
            record: record.dup(),
            scope: Some(addr.group.dup()),
            item: Some(item.dup()),
            ordinal: Some(i as u64 + 1),
            values: row_values(values, schema, &path),
        };
        let ghost had = rows.deep_view();
        assert(row@ == all[i as int]);
        rows.push(row);
        assert(rows.deep_view() =~= had.push(all[i as int]));
        assert(had.push(all[i as int]) =~= start + all.take(i + 1));
        i += 1;
    }
    assert(all.take(all.len() as int) =~= all);
}

fn push_group_rows(
    record: &RecordId,
    values: &RecordValues,
    schema: &TableSchema,
    group: &GroupId,
    rows: &mut Vec<TableRow>,
)
    ensures
        final(rows).deep_view() == old(rows).deep_view() + group_rows(
            record@,
            values@,
            schema@,
            group@,
            values.items.keys(),
        ),
{
    let n = values.items.len();
    let ghost keys = values.items.keys();
    let ghost start = rows.deep_view();
    let mut i: usize = 0;
    assert(keys.take(0) =~= Seq::<ItemsAddrModel>::empty());
    assert(start + Seq::<TableRowModel>::empty() =~= start);
    while i < n
        invariant
            i <= n == keys.len(),
            keys == values.items.keys(),
            rows.deep_view() == start + group_rows(
                record@,
                values@,
                schema@,
                group@,
                keys.take(i as int),
            ),
        decreases n - i,
    {
        let ghost before = group_rows(record@, values@, schema@, group@, keys.take(i as int));
        proof {
            assert(keys.take(i + 1).drop_last() =~= keys.take(i as int));
            assert(keys.take(i + 1).last() == keys[i as int]);
        }
        if values.items.key_at(i).group.same(group) {
            push_list_rows(record, values, schema, i, rows);
            let ghost mine = list_rows(record@, values@, schema@, keys[i as int]);
            assert((start + before) + mine =~= start + (before + mine));
        } else {
            assert(before + Seq::<TableRowModel>::empty() =~= before);
        }
        i += 1;
    }
    assert(keys.take(n as int) =~= keys);
}

/// One record as its rows: its own first, then, for each group with
/// visible columns in order of first appearance, one per item.
pub fn tabulate(record: &RecordId, values: &RecordValues, schema: &TableSchema) -> (r: Vec<
    TableRow,
>)
    ensures
        r.deep_view() == table_rows(record@, values@, schema@),
{
    let root = RowPath::root();
    let mut rows: Vec<TableRow> = Vec::new();
    rows.push(
        TableRow {
            record: record.dup(),
            scope: None,
            item: None,
            ordinal: None,
            values: row_values(values, schema, &root),
        },
    );
    let ghost first = seq![root_row(record@, values@, schema@)];
    assert(rows.deep_view() =~= first);
    let groups = find_groups(schema);
    let ghost m = groups.deep_view();
    let mut i: usize = 0;
    assert(m.take(0) =~= Seq::<Seq<char>>::empty());
    assert(first + Seq::<TableRowModel>::empty() =~= first);
    while i < groups.len()
        invariant
            i <= groups@.len(),
            m == groups.deep_view(),
            rows.deep_view() == first + groups_rows(record@, values@, schema@, m.take(i as int)),
        decreases groups@.len() - i,
    {
        let ghost before = groups_rows(record@, values@, schema@, m.take(i as int));
        proof {
            assert(m.take(i + 1).drop_last() =~= m.take(i as int));
            assert(m.take(i + 1).last() == groups@[i as int]@);
        }
        push_group_rows(record, values, schema, &groups[i], &mut rows);
        assert(rows.deep_view() =~= first + groups_rows(
            record@,
            values@,
            schema@,
            m.take(i + 1),
        ));
        i += 1;
    }
    assert(m.take(m.len() as int) =~= m);
    rows
}

/// The labels of each column's options.
pub type EnumLabels = OrderedMap<ColumnId, OrderedMap<OptionId, String>>;

/// How values become text.
#[derive(Clone, Debug, PartialEq, Eq)]
pub struct TextStyle {
    /// What stands between the elements of a list.
    pub list_separator: String,
    /// Option ids in place of labels.
    pub enum_ids: bool,
}

/// The model of [`TextStyle`].
#[verifier::ext_equal]
pub struct TextStyleModel {
    pub list_separator: Seq<char>,
    pub enum_ids: bool,
}

impl DeepView for TextStyle {
    type V = TextStyleModel;

    open spec fn deep_view(&self) -> TextStyleModel {
        TextStyleModel {
            list_separator: self.list_separator.deep_view(),
            enum_ids: self.enum_ids,
        }
    }
}

impl View for TextStyle {
    type V = TextStyleModel;

    open spec fn view(&self) -> TextStyleModel {
        self.deep_view()
    }
}

impl Modeled for TextStyle {
    fn dup(&self) -> (r: Self) {
        TextStyle {
            list_separator: self.list_separator.dup(),
            enum_ids: self.enum_ids,
        }
    }

    fn same(&self, other: &Self) -> (b: bool) {
        self.list_separator.same(&other.list_separator)
            && self.enum_ids == other.enum_ids
    }
}

impl Default for TextStyle {
    fn default() -> (r: Self)
        ensures
            r@ == (TextStyleModel { list_separator: " | "@, enum_ids: false }),
    {
        TextStyle { list_separator: " | ".to_owned(), enum_ids: false }
    }
}

/// The label of an option, or its id where it has none.
pub open spec fn option_label(
    labels: Map<Seq<char>, Map<Seq<char>, Seq<char>>>,
    column: Seq<char>,
    option: Seq<char>,
) -> Seq<char> {
    if labels.dom().contains(column) && labels[column].dom().contains(option) {
        labels[column][option]
    } else {
        option
    }
}

/// The text of one scalar in a table.
pub open spec fn cell_text(
    column: Seq<char>,
    s: ScalarModel,
    labels: Map<Seq<char>, Map<Seq<char>, Seq<char>>>,
    style: TextStyleModel,
) -> Seq<char> {
    match s {
        ScalarModel::Text(t) => t,
        ScalarModel::Boolean(b) => if b {
            "true"@
        } else {
            "false"@
        },
        ScalarModel::Integer(i) => canonical::int_text(i as int),
        ScalarModel::Decimal(d) => decimal::rendered(d),
        ScalarModel::Date(d) => d.text(),
        ScalarModel::Datetime(t) => time::timestamp_text(t),
        ScalarModel::Enum(o) => if style.enum_ids {
            o
        } else {
            option_label(labels, column, o)
        },
        ScalarModel::Attachment(a) => a.filename,
        ScalarModel::Geometry(g) => canonical::jcs(g)->Ok_0,
    }
}

/// The text of one scalar: what text formats write.
pub fn render_scalar(
    column: &ColumnId,
    scalar: &Scalar,
    labels: &EnumLabels,
    style: &TextStyle,
) -> (r: String)
    ensures
        r@ == cell_text(column@, scalar@, labels@, style@),
{
    match scalar {
        Scalar::Text(t) => t.clone(),
        Scalar::Boolean(b) => if *b {
            "true".to_owned()
        } else {
            "false".to_owned()
        },
        Scalar::Integer(i) => {
            let mut out: Vec<char> = Vec::new();
            push_int(&mut out, *i);
            let r = text_of(&out);
            assert(r@ =~= canonical::int_text(*i as int));
            r
        },
        Scalar::Decimal(d) => d.to_string(),
        Scalar::Date(d) => d.to_string(),
        Scalar::Datetime(t) => t.to_string(),
        Scalar::Enum(option) => {
            if style.enum_ids {
                return option.to_string();
            }
            match labels.get(column) {
                Some(m) => match m.get(option) {
                    Some(label) => label.clone(),
                    None => option.to_string(),
                },
                None => option.to_string(),
            }
        },
        Scalar::Attachment(a) => a.filename.clone(),
        Scalar::Geometry(f) => f.to_string(),
    }
}

/// Texts with a separator between them.
pub open spec fn joined(texts: Seq<Seq<char>>, separator: Seq<char>) -> Seq<char>
    decreases texts.len(),
{
    if texts.len() == 0 {
        Seq::empty()
    } else if texts.len() == 1 {
        texts[0]
    } else {
        joined(texts.drop_last(), separator) + separator + texts.last()
    }
}

/// The text of a table cell: elements of a list are packed into one.
pub open spec fn value_text(
    column: Seq<char>,
    v: TableValueModel,
    labels: Map<Seq<char>, Map<Seq<char>, Seq<char>>>,
    style: TextStyleModel,
) -> Seq<char> {
    match v {
        TableValueModel::Blank => Seq::empty(),
        TableValueModel::One(s) => cell_text(column, s, labels, style),
        TableValueModel::Many(list) => joined(
            Seq::new(list.len(), |i: int| cell_text(column, list[i], labels, style)),
            style.list_separator,
        ),
    }
}

/// The text of a table cell.
pub fn render_value(
    column: &ColumnId,
    value: &TableValue,
    labels: &EnumLabels,
    style: &TextStyle,
) -> (r: String)
    ensures
        r@ == value_text(column@, value@, labels@, style@),
{
    let mut out: Vec<char> = Vec::new();
    match value {
        TableValue::Blank => {},
        TableValue::One(s) => {
            push_text(&mut out, render_scalar(column, s, labels, style).as_str());
        },
        TableValue::Many(list) => {
            let ghost m = list.deep_view();
            let ghost texts = Seq::new(
                m.len(),
                |i: int| cell_text(column@, m[i], labels@, style@),
            );
            let mut i: usize = 0;
            assert(texts.take(0) =~= Seq::<Seq<char>>::empty());
            while i < list.len()
                invariant
                    i <= list@.len(),
                    m == list.deep_view(),
                    texts == Seq::new(
                        m.len(),
                        |i: int| cell_text(column@, m[i], labels@, style@),
                    ),
                    out@ == joined(texts.take(i as int), style@.list_separator),
                decreases list@.len() - i,
            {
                let ghost t = texts.take(i + 1);
                proof {
                    assert(t.drop_last() =~= texts.take(i as int));
                    assert(m[i as int] == list@[i as int].deep_view());
                    assert(t.last() == texts[i as int]);
                }
                let ghost had = out@;
                if i > 0 {
                    push_text(&mut out, style.list_separator.as_str());
                }
                push_text(&mut out, render_scalar(column, &list[i], labels, style).as_str());
                assert(out@ =~= joined(t, style@.list_separator));
                i += 1;
            }
            assert(texts.take(texts.len() as int) =~= texts);
        },
    }
    let r = text_of(&out);
    assert(r@ =~= value_text(column@, value@, labels@, style@));
    r
}

} // verus!
