//! Records read under another schema.

use varve::cast::NomenclatureTable;
use varve::conformance::check;
use varve::decimal::Decimal;
use varve::projection::{project, ColumnStatus};
use varve::schema::{
    Arity, Cardinality, Column, Element, Group, NomenclatureRef, OptionRow, ScalarType, Schema,
    Unit,
};
use varve::time::{Date, Instant};
use varve::value::{CellAddr, CellState, CellValue, ItemsAddr, RecordValues, Scalar};
use varve::{ColumnId, GroupId, ItemId, OptionId, PathSeg, RowPath};

fn column(id: &str, ty: ScalarType, arity: Arity) -> Element {
    Element::Column(Column {
        id: ColumnId::new(id),
        label: id.to_string(),
        ty,
        arity,
    })
}

fn schema(elements: Vec<Element>) -> Schema {
    Schema {
        root: elements,
        resolvers: vec![],
    }
}

fn options(pairs: &[(&str, &str)]) -> NomenclatureRef {
    NomenclatureRef::Inline(
        pairs
            .iter()
            .map(|(id, label)| OptionRow {
                id: OptionId::new(id),
                label: (*label).to_string(),
                fields: vec![],
            })
            .collect(),
    )
}

fn addr(column: &str) -> CellAddr {
    CellAddr {
        column: ColumnId::new(column),
        path: RowPath::root(),
    }
}

fn one(scalar: Scalar) -> CellState {
    CellState::Value(CellValue::One(scalar))
}

#[test]
fn identity_projection_is_a_no_op_with_a_clean_report() {
    let s = schema(vec![column("name", ScalarType::Text, Arity::One)]);
    let mut v = RecordValues::new();
    v.cells
        .insert(addr("name"), one(Scalar::Text("Dupont".into())));

    let p = project(&v, &s, &s, &NomenclatureTable::new()).unwrap();
    assert_eq!(p.values, v);
    assert!(p.report.is_clean());
    assert_eq!(
        p.report.columns.get(&ColumnId::new("name")).unwrap().status,
        ColumnStatus::Identity
    );
}

#[test]
fn added_and_removed_columns_are_free() {
    let writer = schema(vec![
        column("a", ScalarType::Text, Arity::One),
        column("gone", ScalarType::Text, Arity::One),
    ]);
    let reader = schema(vec![
        column("a", ScalarType::Text, Arity::One),
        column("new", ScalarType::Text, Arity::One),
    ]);
    let mut v = RecordValues::new();
    v.cells.insert(addr("a"), one(Scalar::Text("x".into())));
    v.cells.insert(addr("gone"), one(Scalar::Text("y".into())));

    let p = project(&v, &writer, &reader, &NomenclatureTable::new()).unwrap();
    assert!(!p.values.cells.contains_key(&addr("gone")));
    assert_eq!(
        p.report.columns.get(&ColumnId::new("new")).unwrap().status,
        ColumnStatus::AddedAbsent
    );
    assert_eq!(p.report.ignored_writer_columns, vec![ColumnId::new("gone")]);
    assert!(p.report.is_clean());
}

#[test]
fn widening_casts_convert_values() {
    let writer = schema(vec![
        column("n", ScalarType::Integer(None), Arity::One),
        column("d", ScalarType::Date, Arity::One),
        column("choice", ScalarType::Enum(options(&[("o1", "Oui")])), Arity::One),
    ]);
    let reader = schema(vec![
        column("n", ScalarType::Decimal(None), Arity::One),
        column("d", ScalarType::Datetime, Arity::One),
        column("choice", ScalarType::Text, Arity::One),
    ]);
    let mut v = RecordValues::new();
    v.cells.insert(addr("n"), one(Scalar::Integer(42)));
    v.cells.insert(
        addr("d"),
        one(Scalar::Date(
            Date::parse("2026-08-16").unwrap(),
        )),
    );
    v.cells
        .insert(addr("choice"), one(Scalar::Enum(OptionId::new("o1"))));

    let p = project(&v, &writer, &reader, &NomenclatureTable::new()).unwrap();
    assert_eq!(
        *p.values.cells.get(&addr("n")).unwrap(),
        one(Scalar::Decimal(Decimal::parse("42").unwrap()))
    );
    assert_eq!(
        *p.values.cells.get(&addr("d")).unwrap(),
        one(Scalar::Datetime(
            Instant::parse("2026-08-16T00:00:00Z").unwrap()
        ))
    );
    assert_eq!(*p.values.cells.get(&addr("choice")).unwrap(), one(Scalar::Text("Oui".into())));
    assert!(p.report.is_clean());
}

#[test]
fn checked_casts_fail_loudly_per_cell() {
    let writer = schema(vec![
        column("d", ScalarType::Decimal(None), Arity::One),
        column("choice", ScalarType::Enum(options(&[("o1", "Oui"), ("o2", "Non")])), Arity::One),
    ]);
    let reader = schema(vec![
        column("d", ScalarType::Integer(None), Arity::One),
        column("choice", ScalarType::Enum(options(&[("o1", "Oui")])), Arity::One),
    ]);
    let mut v = RecordValues::new();
    v.cells
        .insert(addr("d"), one(Scalar::Decimal(Decimal::parse("1.5").unwrap())));
    v.cells
        .insert(addr("choice"), one(Scalar::Enum(OptionId::new("o2"))));

    let p = project(&v, &writer, &reader, &NomenclatureTable::new()).unwrap();
    assert!(p.values.cells.is_empty());
    assert_eq!(p.report.total_failed(), 2);
    assert!(!p.report.is_clean());
}

#[test]
fn many_to_one_truncates_and_reports() {
    let writer = schema(vec![column(
        "tags",
        ScalarType::Enum(options(&[("o1", "A"), ("o2", "B")])),
        Arity::Many,
    )]);
    let reader = schema(vec![column(
        "tags",
        ScalarType::Enum(options(&[("o1", "A"), ("o2", "B")])),
        Arity::One,
    )]);
    let mut v = RecordValues::new();
    v.cells.insert(
        addr("tags"),
        CellState::Value(CellValue::Many(vec![
            Scalar::Enum(OptionId::new("o1")),
            Scalar::Enum(OptionId::new("o2")),
        ])),
    );

    let p = project(&v, &writer, &reader, &NomenclatureTable::new()).unwrap();
    assert_eq!(*p.values.cells.get(&addr("tags")).unwrap(), one(Scalar::Enum(OptionId::new("o1"))));
    assert_eq!(p.report.total_lossy(), 1);

    let mut v2 = RecordValues::new();
    v2.cells.insert(
        addr("tags"),
        CellState::Value(CellValue::Many(vec![Scalar::Enum(OptionId::new("o2"))])),
    );
    let p2 = project(&v2, &writer, &reader, &NomenclatureTable::new()).unwrap();
    assert_eq!(p2.report.total_lossy(), 0);
}

#[test]
fn datetime_to_date_loss_is_per_cell() {
    let writer = schema(vec![column("t", ScalarType::Datetime, Arity::One)]);
    let reader = schema(vec![column("t", ScalarType::Date, Arity::One)]);

    let mut noon = RecordValues::new();
    noon.cells.insert(
        addr("t"),
        one(Scalar::Datetime(Instant::parse("2026-08-16T12:30:00Z").unwrap())),
    );
    let p = project(&noon, &writer, &reader, &NomenclatureTable::new()).unwrap();
    assert_eq!(p.report.total_lossy(), 1);

    let mut midnight = RecordValues::new();
    midnight.cells.insert(
        addr("t"),
        one(Scalar::Datetime(Instant::parse("2026-08-16T00:00:00Z").unwrap())),
    );
    let p = project(&midnight, &writer, &reader, &NomenclatureTable::new()).unwrap();
    assert_eq!(p.report.total_lossy(), 0);
}

#[test]
fn scope_move_is_breaking() {
    let writer = schema(vec![column("x", ScalarType::Text, Arity::One)]);
    let reader = schema(vec![Element::Group(Group {
        id: GroupId::new("g"),
        label: "g".into(),
        cardinality: Cardinality::Many,
        children: vec![column("x", ScalarType::Text, Arity::One)],
        included_from: None,
    })]);
    let mut v = RecordValues::new();
    v.cells.insert(addr("x"), one(Scalar::Text("root".into())));

    let p = project(&v, &writer, &reader, &NomenclatureTable::new()).unwrap();
    assert_eq!(
        p.report.columns.get(&ColumnId::new("x")).unwrap().status,
        ColumnStatus::ScopeMoved
    );
    assert!(p.values.cells.is_empty());
    assert!(!p.report.is_clean());
}

#[test]
fn items_survive_or_drop_with_their_group() {
    let group = |children| {
        Element::Group(Group {
            id: GroupId::new("g"),
            label: "g".into(),
            cardinality: Cardinality::Many,
            children,
            included_from: None,
        })
    };
    let writer = schema(vec![group(vec![column("x", ScalarType::Text, Arity::One)])]);
    let reader_keeps = writer.clone();
    let reader_drops = schema(vec![]);

    let mut v = RecordValues::new();
    v.items.insert(
        ItemsAddr {
            group: GroupId::new("g"),
            parent: RowPath::root(),
        },
        vec![ItemId::new("i1")],
    );
    v.cells.insert(
        CellAddr {
            column: ColumnId::new("x"),
            path: RowPath::root().child(PathSeg {
                group: GroupId::new("g"),
                item: ItemId::new("i1"),
            }),
        },
        one(Scalar::Text("v".into())),
    );

    let kept = project(&v, &writer, &reader_keeps, &NomenclatureTable::new()).unwrap();
    assert_eq!(kept.values, v);
    let dropped = project(&v, &writer, &reader_drops, &NomenclatureTable::new()).unwrap();
    assert!(dropped.values.items.is_empty());
    assert_eq!(dropped.report.dropped_item_lists, 1);
}

#[test]
fn unit_conversions_are_exact_or_nothing() {
    let metres_int = schema(vec![column(
        "d",
        ScalarType::Integer(Some(Unit::Metre)),
        Arity::One,
    )]);
    let km_int = schema(vec![column(
        "d",
        ScalarType::Integer(Some(Unit::Kilometre)),
        Arity::One,
    )]);
    let km_dec = schema(vec![column(
        "d",
        ScalarType::Decimal(Some(Unit::Kilometre)),
        Arity::One,
    )]);

    let mut v = RecordValues::new();
    v.cells.insert(addr("d"), one(Scalar::Integer(1500)));

    let p = project(&v, &metres_int, &km_int, &NomenclatureTable::new()).unwrap();
    assert_eq!(p.report.total_failed(), 1);
    let p = project(&v, &metres_int, &km_dec, &NomenclatureTable::new()).unwrap();
    assert_eq!(
        *p.values.cells.get(&addr("d")).unwrap(),
        one(Scalar::Decimal(Decimal::parse("1.5").unwrap()))
    );
    assert!(p.report.is_clean());

    let mut v2 = RecordValues::new();
    v2.cells.insert(addr("d"), one(Scalar::Integer(2000)));
    let p = project(&v2, &metres_int, &km_int, &NomenclatureTable::new()).unwrap();
    assert_eq!(*p.values.cells.get(&addr("d")).unwrap(), one(Scalar::Integer(2)));
}

#[test]
fn unit_added_or_removed_is_pure_reinterpretation() {
    let plain = schema(vec![column("n", ScalarType::Integer(None), Arity::One)]);
    let days = schema(vec![column(
        "n",
        ScalarType::Integer(Some(Unit::Day)),
        Arity::One,
    )]);
    let mut v = RecordValues::new();
    v.cells.insert(addr("n"), one(Scalar::Integer(12)));

    for (from, to) in [(&plain, &days), (&days, &plain)] {
        let p = project(&v, from, to, &NomenclatureTable::new()).unwrap();
        assert_eq!(*p.values.cells.get(&addr("n")).unwrap(), one(Scalar::Integer(12)));
        // A unit that goes takes its meaning along: every such cell counts.
        assert_eq!(p.report.total_lossy(), u64::from(from == &days));
        assert_eq!(p.report.total_failed(), 0);
        assert_eq!(
            p.report.columns.get(&ColumnId::new("n")).unwrap().status,
            ColumnStatus::Cast
        );
    }
}

#[test]
fn text_to_enum_matches_labels() {
    let writer = schema(vec![column("c", ScalarType::Text, Arity::One)]);
    let reader = schema(vec![column(
        "c",
        ScalarType::Enum(options(&[("o1", "Oui"), ("o2", "Non")])),
        Arity::One,
    )]);
    let mut v = RecordValues::new();
    v.cells.insert(addr("c"), one(Scalar::Text("Non".into())));
    let p = project(&v, &writer, &reader, &NomenclatureTable::new()).unwrap();
    assert_eq!(*p.values.cells.get(&addr("c")).unwrap(), one(Scalar::Enum(OptionId::new("o2"))));

    let mut bad = RecordValues::new();
    bad.cells.insert(addr("c"), one(Scalar::Text("Peut-être".into())));
    let p = project(&bad, &writer, &reader, &NomenclatureTable::new()).unwrap();
    assert_eq!(p.report.total_failed(), 1);
}

#[test]
fn what_is_read_conforms_in_every_scope() {
    let group = |id: &str, cardinality, children| {
        Element::Group(Group {
            id: GroupId::new(id),
            label: id.into(),
            cardinality,
            children,
            included_from: None,
        })
    };
    let nested = |ty: ScalarType| {
        schema(vec![group(
            "outer",
            Cardinality::Many,
            vec![group("inner", Cardinality::Many, vec![column("x", ty, Arity::One)])],
        )])
    };
    let outer = ItemsAddr { group: GroupId::new("outer"), parent: RowPath::root() };
    let path = RowPath::root().child(PathSeg {
        group: GroupId::new("outer"),
        item: ItemId::new("o1"),
    });
    let inner = ItemsAddr { group: GroupId::new("inner"), parent: path.clone() };
    let mut v = RecordValues::new();
    v.items.insert(outer, vec![ItemId::new("o1")]);
    v.items.insert(inner, vec![ItemId::new("i1")]);
    v.cells.insert(
        CellAddr {
            column: ColumnId::new("x"),
            path: path.child(PathSeg {
                group: GroupId::new("inner"),
                item: ItemId::new("i1"),
            }),
        },
        CellState::Value(CellValue::One(Scalar::Integer(7))),
    );
    let n = NomenclatureTable::new();
    let writer = nested(ScalarType::Integer(None));
    assert_eq!(check(&v, &writer, &n), vec![]);
    let readers = [
        (nested(ScalarType::Text), 1),
        (nested(ScalarType::Boolean), 0),
        (schema(vec![column("x", ScalarType::Integer(None), Arity::One)]), 0),
        (
            schema(vec![
                group("outer", Cardinality::One, vec![]),
                group("inner", Cardinality::Many, vec![column("x", ScalarType::Integer(None), Arity::One)]),
            ]),
            0,
        ),
    ];
    for (reader, cells) in readers {
        let p = project(&v, &writer, &reader, &n).unwrap();
        assert_eq!(check(&p.values, &reader, &n), vec![], "{reader:?}");
        assert_eq!(p.values.cells.len(), cells);
    }
}
