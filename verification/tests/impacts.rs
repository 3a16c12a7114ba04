//! What a change of schema does to columns, resolvers, rules and records.

use varve::assess::{assess, classify, classify_with_rules, RecordUnderAssessment};
use varve::blocks::Block;
use varve::canonical::{CanonicalValue, Members};
use varve::cast::NomenclatureTable;
use varve::decimal::Decimal;
use varve::impact::{
    broken_rules, BlockChange, BreakKind, ChangeClass, ColumnChange, ConstraintChange,
    ResolverChange, RuleRef, UnitChange,
};
use varve::logic::{Atom, ColumnRef, Const, Expr, Operand};
use varve::schema::{
    Arity, AttachmentConstraints, BlockRef, Cardinality, Column, DepthPolicy, Element, Group,
    Mapping, NomenclatureRef, OptionRow, ResolverDeclaration, ResultField, ScalarType, Schema,
    Unit,
};
use varve::value::{CellAddr, CellState, CellValue, Feature, RecordValues, Scalar};
use varve::{BlockId, ColumnId, GroupId, Key, OptionId, OrderedSet, ResolverId, RowPath};

fn object(pairs: Vec<(&str, CanonicalValue)>) -> CanonicalValue {
    let mut members = Members::new();
    for (key, value) in pairs {
        members.insert(key.to_string(), value);
    }
    CanonicalValue::Object(members)
}

fn point() -> CanonicalValue {
    object(vec![
        ("type", CanonicalValue::String("Feature".into())),
        (
            "geometry",
            object(vec![
                ("type", CanonicalValue::String("Point".into())),
                (
                    "coordinates",
                    CanonicalValue::Array(vec![CanonicalValue::Int(1), CanonicalValue::Int(2)]),
                ),
            ]),
        ),
        ("properties", CanonicalValue::Null),
    ])
}

fn set_of<K: Key>(keys: impl IntoIterator<Item = K>) -> OrderedSet<K> {
    let mut set = OrderedSet::new();
    for key in keys {
        set.insert(key);
    }
    set
}

fn column(id: &str, ty: ScalarType, arity: Arity) -> Element {
    Element::Column(Column {
        id: ColumnId::new(id),
        label: id.to_string(),
        ty,
        arity,
    })
}

fn schema(elements: Vec<Element>) -> Schema {
    Schema {
        root: elements,
        resolvers: vec![],
    }
}

fn options(pairs: &[(&str, &str)]) -> NomenclatureRef {
    NomenclatureRef::Inline(
        pairs
            .iter()
            .map(|(id, label)| OptionRow {
                id: OptionId::new(id),
                label: (*label).to_string(),
                fields: vec![],
            })
            .collect(),
    )
}

fn addr(column: &str) -> CellAddr {
    CellAddr {
        column: ColumnId::new(column),
        path: RowPath::root(),
    }
}

#[test]
fn classification_covers_the_section_3_table() {
    let from = schema(vec![
        column("kept", ScalarType::Text, Arity::One),
        column("gone", ScalarType::Text, Arity::One),
        column("widened", ScalarType::Integer(None), Arity::One),
        column("narrowed", ScalarType::Decimal(None), Arity::One),
        column("truncated", ScalarType::Datetime, Arity::One),
        column(
            "broken",
            ScalarType::Attachment(AttachmentConstraints::default()),
            Arity::Many,
        ),
        column("moved", ScalarType::Text, Arity::One),
    ]);
    let to = schema(vec![
        column("kept", ScalarType::Text, Arity::One),
        column("new", ScalarType::Boolean, Arity::One),
        column("widened", ScalarType::Decimal(None), Arity::One),
        column("narrowed", ScalarType::Integer(None), Arity::One),
        column("truncated", ScalarType::Date, Arity::One),
        column("broken", ScalarType::Integer(None), Arity::One),
        Element::Group(Group {
            included_from: None,
            id: GroupId::new("g"),
            label: "g".into(),
            cardinality: Cardinality::Many,
            children: vec![column("moved", ScalarType::Text, Arity::One)],
        }),
    ]);

    let report = classify(&from, &to, &NomenclatureTable::new()).unwrap();
    let class = |id: &str| report.columns.get(&ColumnId::new(id)).unwrap().class;
    let change = |id: &str| &report.columns.get(&ColumnId::new(id)).unwrap().change;

    assert_eq!(class("kept"), ChangeClass::Safe);
    assert!(matches!(change("kept"), ColumnChange::Identical));
    assert_eq!(class("gone"), ChangeClass::Safe);
    assert!(matches!(change("gone"), ColumnChange::Removed));
    assert_eq!(class("new"), ChangeClass::Safe);
    assert!(matches!(change("new"), ColumnChange::Added));
    assert_eq!(class("widened"), ChangeClass::Safe);
    assert_eq!(class("narrowed"), ChangeClass::Checked);
    assert_eq!(class("truncated"), ChangeClass::Lossy);
    assert_eq!(class("broken"), ChangeClass::Breaking);
    assert!(matches!(change("broken"), ColumnChange::Forbidden));
    assert_eq!(class("moved"), ChangeClass::Breaking);
    assert!(matches!(change("moved"), ColumnChange::ScopeMoved));

    assert_eq!(report.worst(), ChangeClass::Breaking);
}

#[test]
fn enum_option_removal_is_named_precisely() {
    let from = schema(vec![column(
        "c",
        ScalarType::Enum(options(&[("o1", "Oui"), ("o2", "Non")])),
        Arity::One,
    )]);
    let to = schema(vec![column(
        "c",
        ScalarType::Enum(options(&[("o1", "Oui certes")])),
        Arity::One,
    )]);
    let report = classify(&from, &to, &NomenclatureTable::new()).unwrap();
    let impact = report.columns.get(&ColumnId::new("c")).unwrap();
    assert_eq!(impact.class, ChangeClass::Checked);
    assert_eq!(impact.removed_options, vec![OptionId::new("o2")]);

    let relabeled = schema(vec![column(
        "c",
        ScalarType::Enum(options(&[("o1", "Oui certes"), ("o2", "Non")])),
        Arity::One,
    )]);
    let report = classify(&from, &relabeled, &NomenclatureTable::new()).unwrap();
    assert_eq!(report.columns.get(&ColumnId::new("c")).unwrap().class, ChangeClass::Safe);
    assert!(
        report.columns.get(&ColumnId::new("c")).unwrap()
            .removed_options
            .is_empty()
    );
}

#[test]
fn unit_changes_are_named_in_the_report() {
    let int = |u: Option<Unit>| schema(vec![column("n", ScalarType::Integer(u), Arity::One)]);

    let report = classify(&int(None), &int(Some(Unit::Day)), &NomenclatureTable::new()).unwrap();
    let impact = report.columns.get(&ColumnId::new("n")).unwrap();
    assert_eq!(impact.class, ChangeClass::Safe);
    assert_eq!(
        impact.unit_change,
        Some(UnitChange {
            from: None,
            to: Some(Unit::Day)
        })
    );

    let report = classify(&int(Some(Unit::Day)), &int(None), &NomenclatureTable::new()).unwrap();
    let impact = report.columns.get(&ColumnId::new("n")).unwrap();
    assert_eq!(impact.class, ChangeClass::Lossy);
    assert_eq!(
        impact.unit_change,
        Some(UnitChange {
            from: Some(Unit::Day),
            to: None
        })
    );

    let report = classify(
        &int(Some(Unit::Metre)),
        &int(Some(Unit::Kilometre)),
        &NomenclatureTable::new(),
    )
    .unwrap();
    let impact = report.columns.get(&ColumnId::new("n")).unwrap();
    assert_eq!(impact.class, ChangeClass::Checked);
    assert!(impact.unit_change.is_some());

    let report = classify(
        &int(Some(Unit::Day)),
        &int(Some(Unit::Month)),
        &NomenclatureTable::new(),
    )
    .unwrap();
    let impact = report.columns.get(&ColumnId::new("n")).unwrap();
    assert_eq!(impact.class, ChangeClass::Breaking);
    assert!(impact.unit_change.is_some());

    let report = classify(&int(None), &int(None), &NomenclatureTable::new()).unwrap();
    assert_eq!(report.columns.get(&ColumnId::new("n")).unwrap().unit_change, None);
}

#[test]
fn attachment_constraint_changes_are_named() {
    let files = |constraints: AttachmentConstraints| {
        schema(vec![column(
            "piece",
            ScalarType::Attachment(constraints),
            Arity::Many,
        )])
    };
    let open = AttachmentConstraints::default();
    let pdf_only = AttachmentConstraints {
        accept: vec!["application/pdf".into()],
        max_bytes: Some(5_000_000),
    };

    let report = classify(
        &files(open.clone()),
        &files(pdf_only.clone()),
        &NomenclatureTable::new(),
    )
    .unwrap();
    let impact = report.columns.get(&ColumnId::new("piece")).unwrap();
    assert_eq!(impact.class, ChangeClass::Checked);
    assert_eq!(
        impact.constraint_change,
        Some(ConstraintChange {
            from: open.clone(),
            to: pdf_only.clone()
        })
    );

    let report = classify(&files(pdf_only), &files(open.clone()), &NomenclatureTable::new()).unwrap();
    let impact = report.columns.get(&ColumnId::new("piece")).unwrap();
    assert_eq!(impact.class, ChangeClass::Safe);
    assert!(impact.constraint_change.is_some());

    let report = classify(&files(open.clone()), &files(open), &NomenclatureTable::new()).unwrap();
    assert_eq!(
        report.columns.get(&ColumnId::new("piece")).unwrap().constraint_change,
        None
    );
}

#[test]
fn resolver_impact_questions() {
    let decl = |id: &str, version: u32, target: &str| ResolverDeclaration {
        id: ResolverId::new(id),
        version,
        anchor: GroupId::new("g"),
        input: vec![(ColumnId::new("key"), ScalarType::Text)],
        result_type: vec![ResultField {
            name: "value".into(),
            ty: ScalarType::Text,
        }],
        mapping: vec![Mapping {
            result_field: "value".into(),
            target: ColumnId::new(target),
        }],
    };
    let columns = vec![
        column("key", ScalarType::Text, Arity::One),
        column("fed", ScalarType::Text, Arity::One),
        column("other", ScalarType::Text, Arity::One),
    ];
    let mut from = schema(columns.clone());
    from.resolvers = vec![decl("removed", 1, "fed"), decl("remapped", 1, "fed")];
    let mut to = schema(columns.clone());
    to.resolvers = vec![decl("remapped", 1, "other"), decl("brand-new", 1, "fed")];

    let report = classify(&from, &to, &NomenclatureTable::new()).unwrap();
    assert!(report.resolvers.contains(&ResolverChange::Removed {
        anchor: GroupId::new("g"),
        id: ResolverId::new("removed"),
        orphaned_columns: vec![ColumnId::new("fed")],
    }));
    assert!(report.resolvers.contains(&ResolverChange::MappingChanged {
        anchor: GroupId::new("g"),
        id: ResolverId::new("remapped"),
        stale_columns: vec![ColumnId::new("other")],
        orphaned_columns: vec![ColumnId::new("fed")],
    }));
    assert!(report.resolvers.contains(&ResolverChange::Added {
        anchor: GroupId::new("g"),
        id: ResolverId::new("brand-new"),
    }));

    let mut retyped = decl("r", 2, "fed");
    retyped.result_type = vec![ResultField {
        name: "value".into(),
        ty: ScalarType::Integer(None),
    }];
    retyped.input = vec![(ColumnId::new("other"), ScalarType::Text)];
    let mut from = schema(columns.clone());
    from.resolvers = vec![decl("r", 1, "fed")];
    let mut to = schema(columns);
    to.resolvers = vec![retyped];
    let report = classify(&from, &to, &NomenclatureTable::new()).unwrap();
    assert!(
        report
            .resolvers
            .contains(&ResolverChange::ResultTypeChanged {
                anchor: GroupId::new("g"),
                id: ResolverId::new("r"),
                broken_mappings: vec![Mapping {
                    result_field: "value".into(),
                    target: ColumnId::new("fed")
                }],
            })
    );
    assert!(report.resolvers.contains(&ResolverChange::InputChanged {
        anchor: GroupId::new("g"),
        id: ResolverId::new("r"),
    }));
    assert!(report.resolvers.contains(&ResolverChange::VersionChanged {
        anchor: GroupId::new("g"),
        id: ResolverId::new("r"),
        from: 1,
        to: 2,
    }));
    assert!(
        !report
            .resolvers
            .iter()
            .any(|c| matches!(c, ResolverChange::MappingChanged { .. }))
    );
}

#[test]
fn block_bumps_are_named() {
    let rib = |version: u32, iban_ty: ScalarType| Block {
        id: BlockId::new("rib"),
        version,
        group: Group {
            id: GroupId::new("rib"),
            label: "RIB".into(),
            cardinality: Cardinality::One,
            children: vec![column("iban", iban_ty, Arity::One)],
            included_from: None,
        },
        resolvers: vec![],
    };
    let v1 = rib(1, ScalarType::Text);
    let v2 = rib(2, ScalarType::Integer(None));
    assert_eq!(v1.validate(DepthPolicy::default()), vec![]);
    let mut from = schema(vec![]);
    v1.include_into(&mut from);
    let mut to = schema(vec![]);
    v2.include_into(&mut to);

    let report = classify(&from, &to, &NomenclatureTable::new()).unwrap();
    assert_eq!(
        report.blocks,
        vec![BlockChange::Bumped {
            group: GroupId::new("rib"),
            from: BlockRef {
                id: BlockId::new("rib"),
                version: 1
            },
            to: BlockRef {
                id: BlockId::new("rib"),
                version: 2
            },
        }]
    );
    assert_eq!(
        report.columns.get(&ColumnId::new("iban")).unwrap().class,
        ChangeClass::Checked
    );

    let mut detached = to.clone();
    if let Element::Group(g) = &mut detached.root[0] {
        g.included_from = None;
    }
    let report = classify(&to, &detached, &NomenclatureTable::new()).unwrap();
    assert!(matches!(
        report.blocks.as_slice(),
        [BlockChange::Detached { .. }]
    ));
    assert!(
        classify(&schema(vec![]), &schema(vec![]), &NomenclatureTable::new())
            .unwrap()
            .blocks
            .is_empty()
    );
}

#[test]
fn broken_rule_references_follow_the_section_4_1_taxonomy() {
    let yes_no = || options(&[("oui", "Oui"), ("non", "Non")]);
    let from = schema(vec![
        column("gone", ScalarType::Boolean, Arity::One),
        column("retyped", ScalarType::Integer(None), Arity::One),
        column("choice", ScalarType::Enum(yes_no()), Arity::One),
        column("stable", ScalarType::Boolean, Arity::One),
    ]);
    let to = schema(vec![
        column("retyped", ScalarType::Text, Arity::One),
        column(
            "choice",
            ScalarType::Enum(options(&[("oui", "Oui")])),
            Arity::One,
        ),
        column("stable", ScalarType::Boolean, Arity::One),
    ]);
    let source = |id: &str| ColumnRef {
        column: ColumnId::new(id),
        field: None,
    };
    let eq = |id: &str, c: Const| {
        Expr::Atom(Atom::Eq {
            source: source(id),
            right: Operand::Const(c),
        })
    };
    let rule = |name: &str, expr: Expr| RuleRef {
        name: name.into(),
        scope: vec![],
        expr,
    };
    let rules = [
        rule("uses-gone", eq("gone", Const::Boolean(true))),
        rule(
            "uses-retyped",
            Expr::Atom(Atom::Gt {
                source: source("retyped"),
                right: Operand::Const(Const::Number {
                    value: Decimal::from_i64(3),
                    unit: None,
                }),
            }),
        ),
        rule(
            "uses-removed-option",
            eq("choice", Const::Option(OptionId::new("non"))),
        ),
        rule(
            "still-fine",
            Expr::And(vec![
                eq("stable", Const::Boolean(true)),
                eq("choice", Const::Option(OptionId::new("oui"))),
            ]),
        ),
        rule(
            "was-already-broken",
            eq("never-existed", Const::Boolean(true)),
        ),
    ];
    let broken = broken_rules(&rules, &from, &to, &NomenclatureTable::new());
    let by_name = |n: &str| broken.iter().find(|b| b.name == n).unwrap();
    assert_eq!(
        by_name("uses-gone").kinds,
        vec![BreakKind::SourceRemoved(ColumnId::new("gone"))]
    );
    assert!(!by_name("uses-gone").already_broken);
    assert_eq!(
        by_name("uses-retyped").kinds,
        vec![BreakKind::SourceRetyped(ColumnId::new("retyped"))]
    );
    assert_eq!(
        by_name("uses-removed-option").kinds,
        vec![BreakKind::OptionRemoved(
            ColumnId::new("choice"),
            OptionId::new("non")
        )]
    );
    assert!(broken.iter().all(|b| b.name != "still-fine"));
    assert!(by_name("was-already-broken").already_broken);
    assert!(matches!(
        by_name("was-already-broken").kinds.as_slice(),
        [BreakKind::Other(_)]
    ));

    let report = classify_with_rules(&from, &to, &NomenclatureTable::new(), &rules).unwrap();
    assert_eq!(report.rules.len(), 4);
    assert_eq!(report.worst(), ChangeClass::Breaking);
    let report = classify_with_rules(&from, &to, &NomenclatureTable::new(), &rules[4..]).unwrap();
    assert_ne!(report.worst(), ChangeClass::Breaking);
}

#[test]
fn assessment_turns_checked_into_exact_counts() {
    let from = schema(vec![column("d", ScalarType::Decimal(None), Arity::One)]);
    let to = schema(vec![column("d", ScalarType::Integer(None), Arity::One)]);

    let record = |s: &str| {
        let mut v = RecordValues::new();
        v.cells.insert(
            addr("d"),
            CellState::Value(CellValue::One(Scalar::Decimal(Decimal::parse(s).unwrap()))),
        );
        v
    };
    let records = [record("42"), record("1.5"), record("7"), record("0.25")];
    let none: OrderedSet<(GroupId, ResolverId)> = OrderedSet::new();
    let under: Vec<RecordUnderAssessment> = records
        .iter()
        .map(|v| RecordUnderAssessment {
            values: v,
            pending: &none,
        })
        .collect();

    let report = assess(&from, &to, &NomenclatureTable::new(), &[], &under).unwrap();
    let assessment = report.records.as_ref().unwrap();
    assert_eq!(assessment.records, 4);
    assert_eq!(assessment.records_with_failures, 2);
    assert_eq!(assessment.cells_failed, 2);
    assert_eq!(*assessment.failed_by_column.get(&ColumnId::new("d")).unwrap(), 2);
    assert_eq!(report.worst(), ChangeClass::Checked);
}

#[test]
fn assessment_counts_uncastable_cells_and_pending_on_removed_resolvers() {
    let decl = ResolverDeclaration {
        id: ResolverId::new("insee"),
        version: 1,
        anchor: GroupId::new("g"),
        input: vec![(ColumnId::new("siret"), ScalarType::Text)],
        result_type: vec![ResultField {
            name: "name".into(),
            ty: ScalarType::Text,
        }],
        mapping: vec![Mapping {
            result_field: "name".into(),
            target: ColumnId::new("name"),
        }],
    };
    let mut from = schema(vec![
        column("siret", ScalarType::Text, Arity::One),
        column("name", ScalarType::Text, Arity::One),
        column("g", ScalarType::Geometry, Arity::One),
    ]);
    from.resolvers = vec![decl];
    let to = schema(vec![
        column("siret", ScalarType::Text, Arity::One),
        column("name", ScalarType::Text, Arity::One),
        column("g", ScalarType::Integer(None), Arity::One),
    ]);
    let feature = Feature::from_canonical(&point()).unwrap();
    let with_geometry = {
        let mut v = RecordValues::new();
        v.cells.insert(
            addr("g"),
            CellState::Value(CellValue::One(Scalar::Geometry(Box::new(feature)))),
        );
        v
    };
    let without = RecordValues::new();
    let pending_insee: OrderedSet<(GroupId, ResolverId)> = set_of([(GroupId::new("g"), ResolverId::new("insee"))]);
    let none: OrderedSet<(GroupId, ResolverId)> = OrderedSet::new();
    let records = [
        RecordUnderAssessment {
            values: &with_geometry,
            pending: &pending_insee,
        },
        RecordUnderAssessment {
            values: &without,
            pending: &pending_insee,
        },
        RecordUnderAssessment {
            values: &with_geometry,
            pending: &none,
        },
    ];
    let report = assess(&from, &to, &NomenclatureTable::new(), &[], &records).unwrap();
    assert_eq!(
        report.columns.get(&ColumnId::new("g")).unwrap().change,
        ColumnChange::Forbidden
    );
    let a = report.records.as_ref().unwrap();
    assert_eq!(a.cells_failed, 0);
    assert_eq!(a.records_with_uncastable, 2);
    assert_eq!(*a.uncastable_by_column.get(&ColumnId::new("g")).unwrap(), 2);
    assert_eq!(
        *a.pending_on_removed_resolvers.get(&(GroupId::new("g"), ResolverId::new("insee"))).unwrap(),
        2
    );
    assert_eq!(report.worst(), ChangeClass::Breaking);
}
