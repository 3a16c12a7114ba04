//! Revisions: identity, publication, merging and the aggregate.

use varve::aggregate::{aggregate, AggregatePolicy};
use varve::blocks::{Block, BlockRegistry, PublishBlockError};
use varve::cast::NomenclatureTable;
use varve::merge::{merge, MergeConflict};
use varve::nomenclatures::{NomenclatureRegistry, PublishNomenclatureError};
use varve::revision::RevisionDag;
use varve::schema::{
    Arity, AttachmentConstraints, Cardinality, Column, DepthPolicy, Element, Group, OptionRow,
    ResolverDeclaration, ScalarType, Schema, Unit,
};
use varve::schema_form::revision_id;
use varve::{BlockId, ColumnId, GroupId, NomenclatureId, OptionId, ResolverId, RevisionId};

fn column(id: &str, ty: ScalarType) -> Element {
    Element::Column(Column {
        id: ColumnId::new(id),
        label: id.to_string(),
        ty,
        arity: Arity::One,
    })
}

fn schema(elements: Vec<Element>) -> Schema {
    Schema { root: elements, resolvers: vec![] }
}

fn row(id: &str, label: &str) -> OptionRow {
    OptionRow { id: OptionId::new(id), label: label.into(), fields: vec![] }
}

#[test]
fn revision_ids_converge_and_diverge() {
    let a = schema(vec![column("name", ScalarType::Text)]);
    let b = schema(vec![column("name", ScalarType::Text)]);
    assert_eq!(revision_id(&a), revision_id(&b));
    let mut c = schema(vec![column("name", ScalarType::Text)]);
    if let Element::Column(col) = &mut c.root[0] {
        col.label = "Nom".into();
    }
    assert_ne!(revision_id(&a), revision_id(&c));
    let d = schema(vec![column("name", ScalarType::Integer(Some(Unit::Day)))]);
    let e = schema(vec![column("name", ScalarType::Integer(None))]);
    assert_ne!(revision_id(&d), revision_id(&e));
}

#[test]
fn dag_publishes_and_deduplicates() {
    let mut dag = RevisionDag::new();
    let r1 = dag.publish(schema(vec![column("a", ScalarType::Text)]), vec![]).unwrap();
    let r2 = dag
        .publish(
            schema(vec![column("a", ScalarType::Text), column("b", ScalarType::Boolean)]),
            vec![r1.clone()],
        )
        .unwrap();
    assert_eq!(dag.get(&r2).unwrap().parents, vec![r1.clone()]);
    assert_eq!(dag.latest(), Some(&r2));
    let again = dag.publish(schema(vec![column("a", ScalarType::Text)]), vec![]).unwrap();
    assert_eq!(again, r1);
    assert_eq!(dag.history().len(), 2);
    assert!(dag
        .publish(schema(vec![]), vec![RevisionId::new("nope")])
        .is_err());
}

#[test]
fn nomenclature_publication_is_append_only() {
    let mut registry = NomenclatureRegistry::new();
    let id = NomenclatureId::new("statut");
    let v1 = registry
        .publish(id.clone(), vec![row("o1", "En cours"), row("o2", "Clos")])
        .unwrap();
    assert_eq!(v1, 1);
    let v2 = registry
        .publish(
            id.clone(),
            vec![
                row("o1", "En cours d'instruction"),
                row("o2", "Clos"),
                row("o3", "Suspendu"),
            ],
        )
        .unwrap();
    assert_eq!(v2, 2);
    let removal = registry.publish(id.clone(), vec![row("o1", "En cours")]);
    assert!(matches!(
        removal,
        Err(PublishNomenclatureError::RemovesIds { removed, .. })
            if removed == vec![OptionId::new("o2"), OptionId::new("o3")]
    ));
    assert_eq!(registry.rows(&id, 1).unwrap().len(), 2);
    assert_eq!(registry.table().get(&id, 2).unwrap().len(), 3);
}

#[test]
fn three_way_merge_combines_disjoint_edits() {
    let base = schema(vec![
        column("a", ScalarType::Text),
        column("b", ScalarType::Integer(None)),
    ]);
    let left = schema(vec![
        column("a", ScalarType::Text),
        column("b", ScalarType::Decimal(None)),
    ]);
    let right = schema(vec![
        column("a", ScalarType::Text),
        column("b", ScalarType::Integer(None)),
        column("c", ScalarType::Boolean),
    ]);
    let merged = merge(&base, &left, &right).unwrap();
    let ids: Vec<&str> = merged
        .root
        .iter()
        .map(|e| match e {
            Element::Column(c) => c.id.as_str(),
            Element::Group(g) => g.id.as_str(),
        })
        .collect();
    assert_eq!(ids, vec!["a", "b", "c"]);
    let Element::Column(b) = &merged.root[1] else { panic!() };
    assert_eq!(b.ty, ScalarType::Decimal(None));

    let right2 = schema(vec![
        column("a", ScalarType::Text),
        column("b", ScalarType::Text),
    ]);
    let conflicts = merge(&base, &left, &right2).unwrap_err();
    assert_eq!(conflicts, vec![MergeConflict::Column(ColumnId::new("b"))]);

    let removed = schema(vec![column("a", ScalarType::Text)]);
    assert!(merge(&base, &left, &removed).is_err());
}

#[test]
fn merge_recurses_into_groups() {
    let group = |children: Vec<Element>| {
        Element::Group(Group {
            id: GroupId::new("g"),
            label: "g".into(),
            cardinality: Cardinality::Many,
            children,
            included_from: None,
        })
    };
    let base = schema(vec![group(vec![column("x", ScalarType::Text)])]);
    let left = schema(vec![group(vec![
        column("x", ScalarType::Text),
        column("y", ScalarType::Boolean),
    ])]);
    let right = schema(vec![group(vec![column("x", ScalarType::Decimal(None))])]);
    let merged = merge(&base, &left, &right).unwrap();
    let Element::Group(g) = &merged.root[0] else { panic!() };
    assert_eq!(g.children.len(), 2);
    let Element::Column(x) = &g.children[0] else { panic!() };
    assert_eq!(x.ty, ScalarType::Decimal(None));
}

#[test]
fn aggregate_joins_history_and_reports() {
    let noms = NomenclatureTable::new();
    let r = |n: u32| RevisionId::new(&format!("r{n}"));
    let rev1 = schema(vec![
        column("b", ScalarType::Integer(None)),
        column("dropped", ScalarType::Text),
        column("clash", ScalarType::Boolean),
        column("broken", ScalarType::Attachment(AttachmentConstraints::default())),
    ]);
    let rev2 = schema(vec![
        column("clash", ScalarType::Date),
        column("b", ScalarType::Decimal(None)),
        column("broken", ScalarType::Integer(None)),
    ]);
    let history = [(r(1), &rev1), (r(2), &rev2)];
    let (agg, report) = aggregate(&history, &noms).unwrap();

    let ids: Vec<&str> = agg.columns.iter().map(|c| c.column.as_str()).collect();
    assert_eq!(ids, vec!["clash", "b", "dropped"]);

    let by_id = |id: &str| agg.columns.iter().find(|c| c.column.as_str() == id).unwrap();
    assert_eq!(by_id("b").ty, ScalarType::Decimal(None));
    assert_eq!(by_id("b").deprecated_since, None);
    assert_eq!(by_id("clash").ty, ScalarType::Text);
    assert_eq!(by_id("dropped").deprecated_since, Some(r(2)));

    assert!(report.entries.contains(&(ColumnId::new("clash"), AggregatePolicy::ViaText)));
    assert!(report.entries.contains(&(ColumnId::new("broken"), AggregatePolicy::Omitted)));
    assert!(!agg.columns.iter().any(|c| c.column.as_str() == "broken"));
}

fn resolver(id: &str, version: u32) -> ResolverDeclaration {
    ResolverDeclaration {
        id: ResolverId::new(id),
        version,
        anchor: GroupId::new("g"),
        input: vec![],
        result_type: vec![],
        mapping: vec![],
    }
}

#[test]
fn duplicate_ids_are_refused() {
    let id = NomenclatureId::new("n");
    let mut registry = NomenclatureRegistry::new();
    assert_eq!(
        registry.publish(id.clone(), vec![row("o1", "A"), row("o1", "B")]),
        Err(PublishNomenclatureError::DuplicateId { id: id.clone(), option: OptionId::new("o1") })
    );
    assert!(registry.rows(&id, 1).is_none());
    assert!(registry.table().is_empty());
}

#[test]
fn resolvers_merge_three_way() {
    let with = |decls: Vec<ResolverDeclaration>| Schema {
        root: vec![],
        resolvers: decls,
    };
    let base = with(vec![resolver("r", 1)]);
    assert_eq!(
        merge(
            &base,
            &with(vec![resolver("r", 2)]),
            &with(vec![resolver("r", 3)])
        ),
        Err(vec![MergeConflict::Resolver(ResolverId::new("r"))])
    );
    assert_eq!(
        merge(&base, &with(vec![resolver("r", 2)]), &base),
        Ok(with(vec![resolver("r", 2)]))
    );
    assert_eq!(
        merge(&base, &base, &with(vec![resolver("r", 2)])),
        Ok(with(vec![resolver("r", 2)]))
    );
    assert_eq!(
        merge(
            &base,
            &with(vec![resolver("r", 2)]),
            &with(vec![resolver("r", 2)])
        ),
        Ok(with(vec![resolver("r", 2)]))
    );
    assert_eq!(merge(&base, &with(vec![]), &base), Ok(with(vec![])));
    assert_eq!(
        merge(&base, &with(vec![]), &with(vec![resolver("r", 2)])),
        Err(vec![MergeConflict::Resolver(ResolverId::new("r"))])
    );
    assert_eq!(
        merge(
            &base,
            &with(vec![resolver("r", 1), resolver("s", 1)]),
            &with(vec![resolver("r", 1), resolver("t", 1)])
        ),
        Ok(with(vec![
            resolver("r", 1),
            resolver("s", 1),
            resolver("t", 1)
        ]))
    );
}

#[test]
fn merging_is_symmetric_and_keeps_what_did_not_move() {
    let base = schema(vec![column("a", ScalarType::Text), column("b", ScalarType::Boolean)]);
    let left = schema(vec![column("a", ScalarType::Integer(None)), column("b", ScalarType::Boolean)]);
    assert_eq!(merge(&base, &left, &base), Ok(left.clone()));
    assert_eq!(merge(&base, &base, &left), Ok(left.clone()));
    assert_eq!(merge(&base, &base, &base), Ok(base.clone()));
    let right = schema(vec![column("a", ScalarType::Text), column("b", ScalarType::Date)]);
    let (one, other) = (merge(&base, &left, &right), merge(&base, &right, &left));
    assert_eq!(one, other);
    assert!(one.is_ok());
}

#[test]
fn an_element_under_a_deleted_group_is_orphaned() {
    let group = |children: Vec<Element>| {
        Element::Group(Group {
            id: GroupId::new("g"),
            label: "g".into(),
            cardinality: Cardinality::One,
            children,
            included_from: None,
        })
    };
    let base = schema(vec![group(vec![])]);
    let left = schema(vec![]);
    let right = schema(vec![group(vec![column("x", ScalarType::Text)])]);
    assert_eq!(
        merge(&base, &left, &right),
        Err(vec![MergeConflict::OrphanedByDeletedGroup {
            group: GroupId::new("g"),
            element: "x".to_string(),
        }])
    );
}

#[test]
fn published_blocks_keep_their_shell_and_count_up() {
    let rib = |version: u32, group: &str| Block {
        id: BlockId::new("rib"),
        version,
        group: Group {
            id: GroupId::new(group),
            label: "RIB".into(),
            cardinality: Cardinality::One,
            children: vec![column("iban", ScalarType::Text)],
            included_from: None,
        },
        resolvers: vec![],
    };
    let mut registry = BlockRegistry::new();
    assert_eq!(registry.publish(rib(1, "rib"), DepthPolicy::default()), Ok(1));
    assert_eq!(
        registry.publish(rib(3, "rib"), DepthPolicy::default()),
        Err(PublishBlockError::VersionMismatch { id: BlockId::new("rib"), expected: 3, next: 2 })
    );
    assert_eq!(
        registry.publish(rib(2, "other"), DepthPolicy::default()),
        Err(PublishBlockError::ShellIdChanged { id: BlockId::new("rib") })
    );
    assert_eq!(registry.publish(rib(2, "rib"), DepthPolicy::default()), Ok(2));
    assert_eq!(registry.latest(&BlockId::new("rib")).unwrap().version, 2);
    assert_eq!(registry.get(&BlockId::new("rib"), 1).unwrap().version, 1);
    assert_eq!(registry.all().len(), 2);
    let mut twice = rib(3, "rib");
    twice.group.children.push(column("iban", ScalarType::Text));
    assert!(matches!(
        registry.publish(twice, DepthPolicy::default()),
        Err(PublishBlockError::Invalid { .. })
    ));
}

fn group(id: &str, children: Vec<Element>) -> Element {
    Element::Group(Group {
        id: GroupId::new(id),
        label: id.into(),
        cardinality: Cardinality::One,
        children,
        included_from: None,
    })
}

#[test]
fn crossed_moves_are_a_conflict() {
    let base = schema(vec![
        group("a", vec![column("x", ScalarType::Text)]),
        group("b", vec![column("y", ScalarType::Text)]),
    ]);
    let left = schema(vec![group(
        "b",
        vec![column("y", ScalarType::Text), group("a", vec![column("x", ScalarType::Text)])],
    )]);
    let right = schema(vec![group(
        "a",
        vec![column("x", ScalarType::Text), group("b", vec![column("y", ScalarType::Text)])],
    )]);
    let crossed = Err(vec![
        MergeConflict::Group(GroupId::new("a")),
        MergeConflict::Group(GroupId::new("b")),
    ]);
    assert_eq!(merge(&base, &left, &right), crossed);
    assert_eq!(merge(&base, &right, &left), crossed);
    // One move alone is no circle.
    assert_eq!(merge(&base, &left, &base), Ok(left.clone()));
    assert_eq!(merge(&base, &base, &right), Ok(right.clone()));
}

#[test]
fn a_merge_holds_what_the_sides_hold_and_nothing_else() {
    let base = schema(vec![column("a", ScalarType::Text)]);
    let left = schema(vec![column("a", ScalarType::Text), group("g", vec![column("b", ScalarType::Boolean)])]);
    let right = schema(vec![column("a", ScalarType::Date), column("c", ScalarType::Text)]);
    let merged = merge(&base, &left, &right).unwrap();
    // The other way round the elements are the same; the left side's own
    // come first.
    let other = merge(&base, &right, &left).unwrap();
    assert_eq!(other.root.len(), merged.root.len());
    for element in &merged.root {
        assert!(other.root.contains(element));
    }
    let mut ids: Vec<String> = Vec::new();
    for element in &merged.root {
        match element {
            Element::Column(c) => ids.push(c.id.as_str().to_string()),
            Element::Group(g) => {
                ids.push(g.id.as_str().to_string());
                assert_eq!(g.children, vec![column("b", ScalarType::Boolean)]);
            }
        }
    }
    ids.sort();
    assert_eq!(ids, ["a", "c", "g"]);
    assert!(merged.root.contains(&column("a", ScalarType::Date)));
}
