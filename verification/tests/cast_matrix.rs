//! Every cast on every type: what is projected conforms.

use varve::canonical::{hash_plain, CanonicalValue, Float, Members};
use varve::cast::{nomenclature_rows, scalar_cast, CastClass, NomenclatureTable};
use varve::conformance::check;
use varve::decimal::Decimal;
use varve::projection::{project, ColumnStatus};
use varve::schema::{
    Arity, AttachmentConstraints, Column, Element, NomenclatureRef, OptionRow, ScalarType, Schema,
    Unit,
};
use varve::time::{Date, Instant};
use varve::value::{
    AttachmentRef, CellAddr, CellState, CellValue, Feature, RecordValues, Scalar,
};
use varve::{ColumnId, NomenclatureId, OptionId, RowPath};

fn object(pairs: Vec<(&str, CanonicalValue)>) -> CanonicalValue {
    let mut members = Members::new();
    for (key, value) in pairs {
        members.insert(key.to_string(), value);
    }
    CanonicalValue::Object(members)
}

fn number(text: &str) -> CanonicalValue {
    CanonicalValue::Float(Float::from_shortest(false, text).unwrap())
}

fn point() -> CanonicalValue {
    object(vec![
        ("type", CanonicalValue::String("Feature".into())),
        (
            "geometry",
            object(vec![
                ("type", CanonicalValue::String("Point".into())),
                ("coordinates", CanonicalValue::Array(vec![number("2.35"), number("48.85")])),
            ]),
        ),
        ("properties", CanonicalValue::Null),
    ])
}

fn single(ty: ScalarType, arity: Arity) -> Schema {
    Schema {
        root: vec![Element::Column(Column {
            id: ColumnId::new("c"),
            label: "c".into(),
            ty,
            arity,
        })],
        resolvers: vec![],
    }
}

fn addr() -> CellAddr {
    CellAddr {
        column: ColumnId::new("c"),
        path: RowPath::root(),
    }
}

fn row(id: &str, label: &str) -> OptionRow {
    OptionRow {
        id: OptionId::new(id),
        label: label.into(),
        fields: vec![],
    }
}

fn inline(rows: &[(&str, &str)]) -> ScalarType {
    ScalarType::Enum(NomenclatureRef::Inline(
        rows.iter().map(|(i, l)| row(i, l)).collect(),
    ))
}

fn published(id: &str, version: u32) -> ScalarType {
    ScalarType::Enum(NomenclatureRef::Published {
        id: NomenclatureId::new(id),
        version,
    })
}

fn attachment(accept: &[&str], max_bytes: Option<u64>) -> ScalarType {
    ScalarType::Attachment(AttachmentConstraints {
        accept: accept.iter().map(|s| s.to_string()).collect(),
        max_bytes,
    })
}

fn table() -> NomenclatureTable {
    let mut n = NomenclatureTable::new();
    n.insert(NomenclatureId::new("cog"), 1, vec![row("01", "Ain")]);
    n.insert(
        NomenclatureId::new("cog"),
        2,
        vec![row("01", "Ain"), row("02", "Aisne")],
    );
    n
}

fn types() -> Vec<ScalarType> {
    vec![
        ScalarType::Text,
        ScalarType::Boolean,
        ScalarType::Integer(None),
        ScalarType::Integer(Some(Unit::Day)),
        ScalarType::Integer(Some(Unit::Week)),
        ScalarType::Integer(Some(Unit::Metre)),
        ScalarType::Decimal(None),
        ScalarType::Decimal(Some(Unit::Minute)),
        ScalarType::Decimal(Some(Unit::Hour)),
        ScalarType::Date,
        ScalarType::Datetime,
        inline(&[("o1", "Oui"), ("o2", "Non")]),
        inline(&[("o1", "Oui")]),
        inline(&[("01", "Ain"), ("02", "Aisne")]),
        published("cog", 1),
        published("cog", 2),
        attachment(&[], None),
        attachment(&["application/pdf"], Some(1_000)),
        attachment(&["image/*"], None),
        ScalarType::Geometry,
    ]
}

fn file(name: &str, content_type: &str, byte_size: u64) -> Scalar {
    Scalar::Attachment(Box::new(AttachmentRef {
        id: name.into(),
        hash: hash_plain(&CanonicalValue::String(name.into())).unwrap(),
        filename: name.into(),
        content_type: content_type.into(),
        byte_size,
    }))
}

fn feature() -> Scalar {
    Scalar::Geometry(Box::new(
        Feature::from_canonical(&point()).unwrap(),
    ))
}

fn values_for(ty: &ScalarType) -> Vec<Scalar> {
    match ty {
        ScalarType::Text => [
            "12",
            "1.5",
            "true",
            "2024-02-29",
            "2024-02-29T10:00:00Z",
            "Oui",
            "Ain",
            "abc",
        ]
        .into_iter()
        .map(|s| Scalar::Text(s.into()))
        .collect(),
        ScalarType::Boolean => vec![Scalar::Boolean(true), Scalar::Boolean(false)],
        ScalarType::Integer(_) => vec![
            Scalar::Integer(7),
            Scalar::Integer(-3),
            Scalar::Integer(1_440),
        ],
        ScalarType::Decimal(_) => ["1.5", "12", "7"]
            .into_iter()
            .map(|s| Scalar::Decimal(Decimal::parse(s).unwrap()))
            .collect(),
        ScalarType::Date => vec![Scalar::Date(
            Date::parse("2024-02-29").unwrap(),
        )],
        ScalarType::Datetime => vec![
            Scalar::Datetime(Instant::parse("2024-02-29T00:00:00Z").unwrap()),
            Scalar::Datetime(Instant::parse("2024-02-29T10:00:00Z").unwrap()),
        ],
        ScalarType::Enum(nref) => nomenclature_rows(nref, &table())
            .unwrap()
            .iter()
            .map(|r| Scalar::Enum(r.id.clone()))
            .collect(),
        ScalarType::Attachment(c) => [
            file("a.pdf", "application/pdf", 500),
            file("b.png", "image/png", 5_000),
        ]
        .into_iter()
        .filter(|s| match s {
            Scalar::Attachment(a) => c.accepts(&a.content_type) && c.admits_size(a.byte_size),
            _ => unreachable!(),
        })
        .collect(),
        ScalarType::Geometry => vec![feature()],
    }
}

fn values(state: CellState) -> RecordValues {
    let mut v = RecordValues::new();
    v.cells.insert(addr(), state);
    v
}

fn one(scalar: &Scalar) -> CellState {
    CellState::Value(CellValue::One(scalar.clone()))
}

#[test]
fn every_value_of_every_type_conforms_to_its_own_column() {
    let n = table();
    for ty in types() {
        let vs = values_for(&ty);
        assert!(!vs.is_empty(), "no values for {ty:?}");
        for v in vs {
            let schema = single(ty.clone(), Arity::One);
            assert_eq!(
                check(&values(one(&v)), &schema, &n),
                vec![],
                "{v:?} in {ty:?}"
            );
        }
    }
}

#[test]
fn projection_matrix_agrees_with_the_cast_table() {
    let n = table();
    let types = types();
    for from in &types {
        for to in &types {
            let cast = scalar_cast(from, to, &n).unwrap();
            let writer = single(from.clone(), Arity::One);
            let reader = single(to.clone(), Arity::One);
            for value in values_for(from) {
                let ctx = format!("{from:?} → {to:?} with {value:?}");
                let p = project(&values(one(&value)), &writer, &reader, &n).unwrap();
                let col = p.report.columns.get(&ColumnId::new("c")).unwrap();
                let projected = p.values.cells.get(&addr());

                assert_eq!(check(&p.values, &reader, &n), vec![], "{ctx}");
                assert_eq!(
                    col.cells_projected + col.cells_failed,
                    u64::from(cast.possible),
                    "{ctx}"
                );
                assert_eq!(col.cells_projected == 1, projected.is_some(), "{ctx}");
                assert!(col.cells_lossy <= col.cells_projected, "{ctx}");

                match cast.class() {
                    CastClass::Forbidden => {
                        assert_eq!(col.status, ColumnStatus::Forbidden, "{ctx}");
                        assert!(projected.is_none(), "{ctx}");
                        assert_eq!(col.cells_failed, 0, "{ctx}");
                        assert_eq!(col.cells_projected, 0, "{ctx}");
                    }
                    CastClass::Identity => {
                        assert_eq!(col.status, ColumnStatus::Identity, "{ctx}");
                        assert_eq!(projected, Some(&one(&value)), "{ctx}");
                        assert!(p.report.is_clean(), "{ctx}");
                    }
                    CastClass::Widening => {
                        assert_eq!(col.status, ColumnStatus::Cast, "{ctx}");
                        assert!(projected.is_some(), "{ctx}");
                        assert_eq!(col.cells_failed, 0, "{ctx}");
                        assert_eq!(col.cells_lossy, 0, "{ctx}");
                    }
                    CastClass::Lossy => {
                        assert_eq!(col.status, ColumnStatus::Cast, "{ctx}");
                        assert!(projected.is_some(), "{ctx}");
                        assert_eq!(col.cells_failed, 0, "{ctx}");
                    }
                    CastClass::Checked => {
                        assert_eq!(col.status, ColumnStatus::Cast, "{ctx}");
                        assert!(
                            (projected.is_some() && col.cells_failed == 0)
                                || (projected.is_none() && col.cells_failed == 1),
                            "{ctx}: {col:?}"
                        );
                    }
                }
            }
        }
    }
}

#[test]
fn empty_cells_pass_through_every_possible_cast() {
    let n = table();
    let types = types();
    for from in &types {
        for to in &types {
            let cast = scalar_cast(from, to, &n).unwrap();
            let p = project(
                &values(CellState::Empty),
                &single(from.clone(), Arity::One),
                &single(to.clone(), Arity::One),
                &n,
            )
            .unwrap();
            let col = p.report.columns.get(&ColumnId::new("c")).unwrap();
            if cast.possible {
                assert_eq!(
                    p.values.cells.get(&addr()),
                    Some(&CellState::Empty),
                    "{from:?} → {to:?}"
                );
                assert_eq!(
                    (col.cells_projected, col.cells_lossy, col.cells_failed),
                    (1, 0, 0)
                );
            } else {
                assert!(p.values.cells.is_empty(), "{from:?} → {to:?}");
                assert_eq!(
                    (col.cells_projected, col.cells_lossy, col.cells_failed),
                    (0, 0, 0)
                );
            }
        }
    }
}

#[test]
fn loss_is_counted_per_cell_where_it_actually_happens() {
    let n = table();
    let lossy_of = |from: ScalarType, to: ScalarType, value: Scalar| {
        let p = project(
            &values(one(&value)),
            &single(from, Arity::One),
            &single(to, Arity::One),
            &n,
        )
        .unwrap();
        let col = p.report.columns.get(&ColumnId::new("c")).unwrap();
        assert_eq!(col.cells_failed, 0);
        (col.cells_lossy, p.values.cells.get(&addr()).unwrap().clone())
    };
    let midnight = Scalar::Datetime(Instant::parse("2024-02-29T00:00:00Z").unwrap());
    let ten = Scalar::Datetime(Instant::parse("2024-02-29T10:00:00Z").unwrap());
    let date = one(&Scalar::Date(Date::parse("2024-02-29").unwrap()));
    assert_eq!(
        lossy_of(ScalarType::Datetime, ScalarType::Date, midnight),
        (0, date.clone())
    );
    assert_eq!(
        lossy_of(ScalarType::Datetime, ScalarType::Date, ten),
        (1, date)
    );
    assert_eq!(
        lossy_of(
            ScalarType::Integer(Some(Unit::Day)),
            ScalarType::Integer(None),
            Scalar::Integer(7)
        ),
        (1, one(&Scalar::Integer(7)))
    );
    assert_eq!(
        lossy_of(
            ScalarType::Integer(None),
            ScalarType::Integer(Some(Unit::Day)),
            Scalar::Integer(7)
        ),
        (0, one(&Scalar::Integer(7)))
    );
    let cog_inline = inline(&[("01", "Ain"), ("02", "Aisne")]);
    let ain = Scalar::Enum(OptionId::new("01"));
    assert_eq!(
        lossy_of(published("cog", 1), cog_inline.clone(), ain.clone()),
        (1, one(&ain))
    );
    assert_eq!(
        lossy_of(cog_inline, published("cog", 2), ain.clone()),
        (0, one(&ain))
    );
    assert_eq!(
        lossy_of(published("cog", 1), published("cog", 2), ain.clone()),
        (0, one(&ain))
    );
}

#[test]
fn unit_conversion_is_exact_or_fails_the_cell() {
    let n = table();
    let run = |from: ScalarType, to: ScalarType, value: Scalar| {
        let p = project(
            &values(one(&value)),
            &single(from, Arity::One),
            &single(to, Arity::One),
            &n,
        )
        .unwrap();
        let col = p.report.columns.get(&ColumnId::new("c")).unwrap();
        (p.values.cells.get(&addr()).cloned(), col.cells_failed)
    };
    let day = ScalarType::Integer(Some(Unit::Day));
    let week = ScalarType::Integer(Some(Unit::Week));
    assert_eq!(
        run(day.clone(), week.clone(), Scalar::Integer(7)),
        (Some(one(&Scalar::Integer(1))), 0)
    );
    assert_eq!(
        run(day.clone(), week.clone(), Scalar::Integer(-3)),
        (None, 1)
    );
    assert_eq!(
        run(week, day, Scalar::Integer(-3)),
        (Some(one(&Scalar::Integer(-21))), 0)
    );
    let minute = ScalarType::Decimal(Some(Unit::Minute));
    let hour = ScalarType::Decimal(Some(Unit::Hour));
    let d = |s: &str| Scalar::Decimal(Decimal::parse(s).unwrap());
    assert_eq!(
        run(minute.clone(), hour.clone(), d("90")),
        (Some(one(&d("1.5"))), 0)
    );
    assert_eq!(run(minute.clone(), hour.clone(), d("7")), (None, 1));
    assert_eq!(run(hour, minute, d("1.5")), (Some(one(&d("90"))), 0));
}

#[test]
fn arity_matrix() {
    let n = table();
    for ty in types() {
        let vs = values_for(&ty);
        let first = vs[0].clone();
        let list: Vec<Scalar> = vs.iter().take(2).cloned().collect();
        let one_schema = single(ty.clone(), Arity::One);
        let many_schema = single(ty.clone(), Arity::Many);
        let ctx = format!("{ty:?}");

        let p = project(&values(one(&first)), &one_schema, &many_schema, &n).unwrap();
        assert_eq!(
            *p.values.cells.get(&addr()).unwrap(),
            CellState::Value(CellValue::Many(vec![first.clone()])),
            "{ctx}"
        );
        assert!(p.report.is_clean(), "{ctx}");
        assert_eq!(check(&p.values, &many_schema, &n), vec![], "{ctx}");

        let many = CellState::Value(CellValue::Many(list.clone()));
        let p = project(&values(many.clone()), &many_schema, &many_schema, &n).unwrap();
        assert_eq!(*p.values.cells.get(&addr()).unwrap(), many, "{ctx}");
        assert!(p.report.is_clean(), "{ctx}");

        let p = project(&values(many), &many_schema, &one_schema, &n).unwrap();
        assert_eq!(*p.values.cells.get(&addr()).unwrap(), one(&first), "{ctx}");
        let col = p.report.columns.get(&ColumnId::new("c")).unwrap();
        assert_eq!(col.cells_lossy, u64::from(list.len() > 1), "{ctx}");
        assert_eq!(col.cells_failed, 0, "{ctx}");
        assert_eq!(check(&p.values, &one_schema, &n), vec![], "{ctx}");
        let single_element = CellState::Value(CellValue::Many(vec![first.clone()]));
        let p = project(&values(single_element), &many_schema, &one_schema, &n).unwrap();
        assert_eq!(
            p.report.columns.get(&ColumnId::new("c")).unwrap().cells_lossy,
            0,
            "{ctx}"
        );
    }

    let one_schema = single(ScalarType::Text, Arity::One);
    let many_schema = single(ScalarType::Text, Arity::Many);
    let v = values(one(&Scalar::Text("x".into())));
    let wide = project(&v, &one_schema, &many_schema, &n).unwrap();
    let back = project(&wide.values, &many_schema, &one_schema, &n).unwrap();
    assert_eq!(back.values, v);
    for (w, r) in [(&one_schema, &many_schema), (&many_schema, &one_schema)] {
        let p = project(&values(CellState::Empty), w, r, &n).unwrap();
        assert_eq!(*p.values.cells.get(&addr()).unwrap(), CellState::Empty);
        assert!(p.report.is_clean());
    }
}

#[test]
fn attachment_constraint_changes_recheck_the_claims() {
    let n = table();
    let run = |from: ScalarType, to: ScalarType, value: Scalar| {
        let p = project(
            &values(one(&value)),
            &single(from, Arity::One),
            &single(to, Arity::One),
            &n,
        )
        .unwrap();
        let col = p.report.columns.get(&ColumnId::new("c")).unwrap().clone();
        (p.values.cells.get(&addr()).cloned(), col)
    };
    let pdf = file("a.pdf", "application/pdf", 500);
    let png = file("b.png", "image/png", 5_000);
    let any = attachment(&[], None);
    let pdf_only = attachment(&["application/pdf"], Some(1_000));
    let images = attachment(&["image/*"], None);

    let (cell, col) = run(any.clone(), pdf_only.clone(), png.clone());
    assert_eq!(
        (cell, col.status.clone(), col.cells_failed),
        (None, ColumnStatus::Cast, 1)
    );
    let (cell, col) = run(any.clone(), pdf_only.clone(), pdf.clone());
    assert_eq!((cell, col.cells_failed), (Some(one(&pdf)), 0));
    let (cell, col) = run(any.clone(), attachment(&[], Some(1_000)), png.clone());
    assert_eq!((cell, col.cells_failed), (None, 1));
    let (cell, col) = run(any.clone(), attachment(&[], Some(1_000)), pdf.clone());
    assert_eq!((cell, col.cells_failed), (Some(one(&pdf)), 0));
    for (from, value) in [
        (pdf_only.clone(), pdf.clone()),
        (images.clone(), png.clone()),
    ] {
        let (cell, col) = run(from, any.clone(), value.clone());
        assert_eq!(
            (cell, col.status, col.cells_failed, col.cells_lossy),
            (Some(one(&value)), ColumnStatus::Cast, 0, 0)
        );
    }
    let (cell, col) = run(any.clone(), images.clone(), png.clone());
    assert_eq!((cell, col.cells_failed), (Some(one(&png)), 0));
    let (cell, col) = run(any, images.clone(), pdf.clone());
    assert_eq!((cell, col.cells_failed), (None, 1));
    let (cell, col) = run(pdf_only.clone(), images, pdf.clone());
    assert_eq!(
        (cell, col.status, col.cells_failed),
        (None, ColumnStatus::Cast, 1)
    );
    let shuffled = attachment(&["Image/*", "APPLICATION/pdf"], Some(1_000));
    let sorted = attachment(&["application/pdf", "image/*"], Some(1_000));
    let (cell, col) = run(shuffled, sorted, pdf.clone());
    assert_eq!(
        (cell, col.status),
        (Some(one(&pdf)), ColumnStatus::Identity)
    );
}

#[test]
fn a_join_is_symmetric_and_both_types_widen_to_it() {
    let noms = NomenclatureTable::new();
    let types = [
        ScalarType::Text,
        ScalarType::Boolean,
        ScalarType::Date,
        ScalarType::Datetime,
        ScalarType::Integer(None),
        ScalarType::Integer(Some(Unit::Month)),
        ScalarType::Decimal(None),
        ScalarType::Decimal(Some(Unit::Year)),
    ];
    for a in &types {
        assert_eq!(varve::cast::scalar_join(a, a, &noms).unwrap().0, a.clone());
        for b in &types {
            let join = varve::cast::scalar_join(a, b, &noms);
            assert_eq!(join, varve::cast::scalar_join(b, a, &noms));
            if let Ok((top, _)) = join {
                assert!(scalar_cast(a, &top, &noms).unwrap().is_widening(), "{a:?} {top:?}");
                assert!(scalar_cast(b, &top, &noms).unwrap().is_widening(), "{b:?} {top:?}");
            }
        }
    }
    // Widening twice is widening.
    for a in &types {
        for b in &types {
            for c in &types {
                let widens = |x: &ScalarType, y: &ScalarType| {
                    scalar_cast(x, y, &noms).unwrap().is_widening()
                };
                if widens(a, b) && widens(b, c) {
                    assert!(widens(a, c), "{a:?} {b:?} {c:?}");
                }
            }
        }
    }
}

#[test]
fn a_list_that_reads_one_option_twice_fails_the_cell() {
    let n = table();
    let writer = single(ScalarType::Text, Arity::Many);
    let reader = single(inline(&[("oui", "Oui"), ("non", "Non")]), Arity::Many);
    let list = |texts: &[&str]| {
        CellState::Value(CellValue::Many(texts.iter().map(|t| Scalar::Text((*t).into())).collect()))
    };
    let doubled = values(list(&["Oui", "Oui"]));
    assert_eq!(check(&doubled, &writer, &n), vec![]);
    let p = project(&doubled, &writer, &reader, &n).unwrap();
    let col = p.report.columns.get(&ColumnId::new("c")).unwrap();
    assert_eq!((col.cells_projected, col.cells_failed), (0, 1));
    assert_eq!(p.values.cells.get(&addr()), None);
    assert_eq!(check(&p.values, &reader, &n), vec![]);

    let both = values(list(&["Oui", "Non"]));
    let p = project(&both, &writer, &reader, &n).unwrap();
    let col = p.report.columns.get(&ColumnId::new("c")).unwrap();
    assert_eq!((col.cells_projected, col.cells_failed), (1, 0));
    assert_eq!(
        p.values.cells.get(&addr()),
        Some(&CellState::Value(CellValue::Many(vec![
            Scalar::Enum(OptionId::new("oui")),
            Scalar::Enum(OptionId::new("non")),
        ])))
    );
    // A reader of one value takes the first, and nothing is repeated.
    let first = single(inline(&[("oui", "Oui")]), Arity::One);
    let p = project(&doubled, &writer, &first, &n).unwrap();
    let col = p.report.columns.get(&ColumnId::new("c")).unwrap();
    assert_eq!((col.cells_projected, col.cells_lossy, col.cells_failed), (1, 1, 0));
    assert_eq!(check(&p.values, &first, &n), vec![]);
}

#[test]
fn projected_lists_conform_on_every_pair_of_types() {
    let n = table();
    let types = types();
    for from in &types {
        let list = CellState::Value(CellValue::Many(values_for(from)));
        let writer = single(from.clone(), Arity::Many);
        assert_eq!(check(&values(list.clone()), &writer, &n), vec![], "{from:?}");
        for to in &types {
            for arity in [Arity::One, Arity::Many] {
                let reader = single(to.clone(), arity);
                let p = project(&values(list.clone()), &writer, &reader, &n).unwrap();
                assert_eq!(check(&p.values, &reader, &n), vec![], "{from:?} to {to:?}");
                let col = p.report.columns.get(&ColumnId::new("c")).unwrap();
                assert_eq!(col.cells_projected == 1, p.values.cells.get(&addr()).is_some());
            }
        }
    }
}
