//! Records as rows.

use varve::schema::{Arity, ScalarType};
use varve::table::{
    render_value, tabulate, EnumLabels, TableColumn, TableRow, TableSchema, TableSink, TableValue,
    TextStyle,
};
use varve::value::{CellAddr, CellState, CellValue, ItemsAddr, RecordValues, Scalar};
use varve::{ColumnId, GroupId, ItemId, OptionId, OrderedMap, PathSeg, RecordId, RowPath};

fn col(id: &str, label: &str, ty: ScalarType, scope: &[&str]) -> TableColumn {
    TableColumn {
        column: ColumnId::new(id),
        label: label.into(),
        ty,
        arity: Arity::One,
        scope: scope.iter().map(|g| GroupId::new(g)).collect(),
        note: None,
    }
}

fn schema() -> TableSchema {
    TableSchema {
        columns: vec![
            col("name", "Nom", ScalarType::Text, &[]),
            col("tags", "Tags", ScalarType::Text, &[]),
            col("child_name", "Prénom enfant", ScalarType::Text, &["children"]),
        ],
    }
}

fn set(values: &mut RecordValues, column: &str, path: RowPath, v: CellValue) {
    values
        .cells
        .insert(CellAddr { column: ColumnId::new(column), path }, CellState::Value(v));
}

fn one(s: &str) -> CellValue {
    CellValue::One(Scalar::Text(s.into()))
}

fn record() -> RecordValues {
    let mut v = RecordValues::new();
    set(&mut v, "name", RowPath::root(), one("Ada"));
    set(
        &mut v,
        "tags",
        RowPath::root(),
        CellValue::Many(vec![Scalar::Text("a".into()), Scalar::Text("b, c".into())]),
    );
    let group = GroupId::new("children");
    v.items.insert(
        ItemsAddr { group: group.clone(), parent: RowPath::root() },
        vec![ItemId::new("i1"), ItemId::new("i2")],
    );
    for (item, name) in [("i1", "Alice"), ("i2", "Bob")] {
        let path = RowPath::root().child(PathSeg {
            group: group.clone(),
            item: ItemId::new(item),
        });
        set(&mut v, "child_name", path, one(name));
    }
    v
}

#[test]
fn root_row_plus_one_row_per_item() {
    let rows = tabulate(&RecordId::new("r1"), &record(), &schema());
    assert_eq!(rows.len(), 3);

    let root = &rows[0];
    assert_eq!(root.scope, None);
    assert_eq!(root.values[0], TableValue::One(Scalar::Text("Ada".into())));
    assert_eq!(root.values[2], TableValue::Blank);

    let first = &rows[1];
    assert_eq!(first.scope, Some(GroupId::new("children")));
    assert_eq!(first.item, Some(ItemId::new("i1")));
    assert_eq!(first.ordinal, Some(1));
    assert_eq!(first.values[0], TableValue::One(Scalar::Text("Ada".into())));
    assert_eq!(first.values[2], TableValue::One(Scalar::Text("Alice".into())));
    assert_eq!(rows[2].ordinal, Some(2));
    assert_eq!(rows[2].values[2], TableValue::One(Scalar::Text("Bob".into())));
}

#[test]
fn empty_and_absent_both_render_blank() {
    let mut v = RecordValues::new();
    v.cells.insert(
        CellAddr { column: ColumnId::new("name"), path: RowPath::root() },
        CellState::Empty,
    );
    let rows = tabulate(&RecordId::new("r1"), &v, &schema());
    assert_eq!(rows.len(), 1);
    assert_eq!(rows[0].values[0], TableValue::Blank);
    assert_eq!(rows[0].values[1], TableValue::Blank);
    let style = TextStyle::default();
    let labels = EnumLabels::new();
    assert_eq!(render_value(&ColumnId::new("name"), &rows[0].values[0], &labels, &style), "");
}

#[test]
fn headers_and_text_rendering() {
    let mut s = schema();
    s.columns[2].note = Some("deprecated since r5".into());
    assert_eq!(
        s.header_labels(),
        vec![
            "record_id",
            "scope",
            "item_id",
            "item_ordinal",
            "Nom",
            "Tags",
            "Prénom enfant [deprecated since r5]"
        ]
    );
    assert_eq!(s.header_ids()[4..], ["name", "tags", "child_name"]);

    let rows = tabulate(&RecordId::new("r1"), &record(), &s);
    let style = TextStyle::default();
    let labels = EnumLabels::new();
    assert_eq!(
        render_value(&ColumnId::new("tags"), &rows[0].values[1], &labels, &style),
        "a | b, c"
    );
}

#[test]
fn enum_labels_with_fallback() {
    let column = ColumnId::new("civility");
    let mut labels = EnumLabels::new();
    let mut of_column = OrderedMap::new();
    of_column.insert(OptionId::new("mme"), "Madame".to_string());
    labels.insert(column.clone(), of_column);
    let style = TextStyle::default();
    let known = TableValue::One(Scalar::Enum(OptionId::new("mme")));
    let unknown = TableValue::One(Scalar::Enum(OptionId::new("gone")));
    assert_eq!(render_value(&column, &known, &labels, &style), "Madame");
    assert_eq!(render_value(&column, &unknown, &labels, &style), "gone");
    let ids = TextStyle { enum_ids: true, ..TextStyle::default() };
    assert_eq!(render_value(&column, &known, &labels, &ids), "mme");
}

struct Collect {
    begun: bool,
    rows: Vec<TableRow>,
    finished: bool,
}
impl TableSink for Collect {
    type Error = ();
    fn begin(&mut self, _schema: &TableSchema) -> Result<(), ()> {
        self.begun = true;
        Ok(())
    }
    fn row(&mut self, row: &TableRow) -> Result<(), ()> {
        self.rows.push(row.clone());
        Ok(())
    }
    fn finish(&mut self) -> Result<(), ()> {
        self.finished = true;
        Ok(())
    }
}

#[test]
fn sink_drives_in_order() {
    let s = schema();
    let mut sink = Collect { begun: false, rows: Vec::new(), finished: false };
    sink.begin(&s).unwrap();
    for row in tabulate(&RecordId::new("r1"), &record(), &s) {
        sink.row(&row).unwrap();
    }
    sink.finish().unwrap();
    assert!(sink.begun && sink.finished);
    assert_eq!(sink.rows.len(), 3);
}
