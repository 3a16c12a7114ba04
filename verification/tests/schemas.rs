//! Schemas, casts between column types and joins.

use varve::cast::{
    arity_cast, arity_join, column_cast, scalar_cast, scalar_join, CastClass, CastError,
    JoinConflict, JoinPath, NomenclatureTable,
};
use varve::schema::{
    conversion, validate, Arity, AttachmentConstraints, Cardinality, Column, DepthPolicy, Element,
    Group, Mapping, NomenclatureRef, OptionRow, ResolverDeclaration, ResultField, ScalarType,
    Schema, SchemaError, Unit,
};
use varve::{ColumnId, GroupId, NomenclatureId, OptionId, ResolverId};

fn inline(pairs: &[(&str, &str)]) -> NomenclatureRef {
    NomenclatureRef::Inline(
        pairs
            .iter()
            .map(|(id, label)| OptionRow {
                id: OptionId::new(id),
                label: (*label).to_string(),
                fields: vec![],
            })
            .collect(),
    )
}

fn no_noms() -> NomenclatureTable {
    NomenclatureTable::new()
}

fn integer() -> ScalarType {
    ScalarType::Integer(None)
}

fn decimal() -> ScalarType {
    ScalarType::Decimal(None)
}

fn attachment() -> ScalarType {
    ScalarType::Attachment(AttachmentConstraints::default())
}

fn col(id: &str, ty: ScalarType) -> Element {
    Element::Column(Column {
        id: ColumnId::new(id),
        label: id.to_string(),
        ty,
        arity: Arity::One,
    })
}

fn many_group(id: &str, children: Vec<Element>) -> Element {
    Element::Group(Group {
        id: GroupId::new(id),
        label: id.to_string(),
        cardinality: Cardinality::Many,
        children,
        included_from: None,
    })
}

#[test]
fn cast_table_rows() {
    let n = no_noms();
    let cast = |a: &ScalarType, b: &ScalarType| scalar_cast(a, b, &n).unwrap();
    assert_eq!(cast(&ScalarType::Text, &ScalarType::Text).class(), CastClass::Identity);
    assert_eq!(cast(&integer(), &decimal()).class(), CastClass::Widening);
    assert_eq!(cast(&decimal(), &integer()).class(), CastClass::Checked);
    assert_eq!(cast(&ScalarType::Date, &ScalarType::Datetime).class(), CastClass::Widening);
    assert_eq!(cast(&ScalarType::Datetime, &ScalarType::Date).class(), CastClass::Lossy);
    assert_eq!(cast(&integer(), &ScalarType::Text).class(), CastClass::Widening);
    assert_eq!(cast(&ScalarType::Text, &integer()).class(), CastClass::Checked);
    assert_eq!(cast(&attachment(), &ScalarType::Text).class(), CastClass::Forbidden);
    assert_eq!(cast(&ScalarType::Geometry, &attachment()).class(), CastClass::Forbidden);

    let e = ScalarType::Enum(inline(&[("o1", "Oui")]));
    let to_text = cast(&e, &ScalarType::Text);
    assert_eq!(to_text.class(), CastClass::Widening);
    assert!(to_text.needs_lens);
    let from_text = cast(&ScalarType::Text, &e);
    assert_eq!(from_text.class(), CastClass::Checked);
    assert!(from_text.needs_lens);
}

#[test]
fn enum_cast_is_id_set_comparison() {
    let n = no_noms();
    let small = ScalarType::Enum(inline(&[("o1", "Oui")]));
    let big = ScalarType::Enum(inline(&[("o1", "Oui"), ("o2", "Non")]));
    assert!(scalar_cast(&small, &big, &n).unwrap().is_widening());
    assert_eq!(scalar_cast(&big, &small, &n).unwrap().class(), CastClass::Checked);
    let relabeled = ScalarType::Enum(inline(&[("o1", "Oui bien sûr")]));
    assert!(scalar_cast(&small, &relabeled, &n).unwrap().is_widening());
}

#[test]
fn unknown_published_nomenclature_errors() {
    let published = ScalarType::Enum(NomenclatureRef::Published {
        id: NomenclatureId::new("insee-pays"),
        version: 1,
    });
    let other = ScalarType::Enum(inline(&[("o1", "x")]));
    assert!(matches!(
        scalar_cast(&published, &other, &no_noms()),
        Err(CastError::UnknownNomenclature(..))
    ));
}

#[test]
fn arity_and_column_composition() {
    let n = no_noms();
    assert!(arity_cast(Arity::One, Arity::Many).is_widening());
    assert_eq!(arity_cast(Arity::Many, Arity::One).class(), CastClass::Lossy);
    let (from, to) = (decimal(), integer());
    let cast = column_cast((&from, Arity::Many), (&to, Arity::One), &n).unwrap();
    assert!(cast.lossy && cast.checked);
    assert_eq!(cast.class(), CastClass::Checked);
}

#[test]
fn joins() {
    let n = no_noms();
    let join = |a: &ScalarType, b: &ScalarType| scalar_join(a, b, &n).unwrap();
    assert_eq!(join(&integer(), &decimal()), (decimal(), JoinPath::Direct));
    assert_eq!(
        join(&ScalarType::Date, &ScalarType::Datetime),
        (ScalarType::Datetime, JoinPath::Direct)
    );
    assert_eq!(join(&integer(), &ScalarType::Text), (ScalarType::Text, JoinPath::Direct));
    assert_eq!(join(&integer(), &ScalarType::Date), (ScalarType::Text, JoinPath::ViaText));
    assert_eq!(join(&ScalarType::Boolean, &integer()), (ScalarType::Text, JoinPath::ViaText));
    assert_eq!(
        scalar_join(&attachment(), &integer(), &n),
        Err(JoinConflict::Incompatible)
    );
    assert_eq!(arity_join(Arity::One, Arity::Many), Arity::Many);
}

#[test]
fn enum_joins() {
    let n = no_noms();
    let a = ScalarType::Enum(inline(&[("o1", "Oui")]));
    let b = ScalarType::Enum(inline(&[("o1", "Oui"), ("o2", "Non")]));
    let (joined, path) = scalar_join(&a, &b, &n).unwrap();
    assert_eq!(path, JoinPath::Direct);
    assert_eq!(joined, b);
    let c = ScalarType::Enum(inline(&[("o1", "Rouge")]));
    assert_eq!(scalar_join(&a, &c, &n).unwrap(), (ScalarType::Text, JoinPath::ViaText));
    let v1 = ScalarType::Enum(NomenclatureRef::Published {
        id: NomenclatureId::new("cog"),
        version: 1,
    });
    let v3 = ScalarType::Enum(NomenclatureRef::Published {
        id: NomenclatureId::new("cog"),
        version: 3,
    });
    assert_eq!(scalar_join(&v1, &v3, &n).unwrap(), (v3, JoinPath::Direct));
}

#[test]
fn join_is_an_upper_bound_in_the_widening_order() {
    let n = no_noms();
    let samples = [
        ScalarType::Text,
        ScalarType::Boolean,
        integer(),
        decimal(),
        ScalarType::Date,
        ScalarType::Datetime,
        ScalarType::Enum(inline(&[("o1", "Oui"), ("o2", "Non")])),
        attachment(),
        ScalarType::Geometry,
    ];
    for a in &samples {
        for b in &samples {
            let Ok((joined, _)) = scalar_join(a, b, &n) else {
                continue;
            };
            for side in [a, b] {
                let cast = scalar_cast(side, &joined, &n).unwrap();
                assert!(
                    cast.is_widening() || cast.class() == CastClass::Identity,
                    "join({a:?}, {b:?}) = {joined:?} is not reachable from {side:?} by pure widening"
                );
            }
        }
    }
}

#[test]
fn depth_one_is_fine() {
    let schema = Schema {
        root: vec![many_group("g1", vec![col("c1", ScalarType::Text)])],
        resolvers: vec![],
    };
    assert!(validate(&schema, DepthPolicy::default()).is_empty());
}

#[test]
fn nested_many_violates_depth_policy() {
    let schema = Schema {
        root: vec![many_group(
            "g1",
            vec![many_group("g2", vec![col("c1", ScalarType::Text)])],
        )],
        resolvers: vec![],
    };
    let errors = validate(&schema, DepthPolicy::default());
    assert!(matches!(
        errors.as_slice(),
        [SchemaError::DepthExceeded { depth: 2, max: 1, .. }]
    ));
    assert_eq!(
        errors[0].to_string(),
        "group 'g2' nests `many` groups to depth 2, policy allows 1"
    );
}

#[test]
fn one_groups_do_not_count_toward_depth() {
    let one_group = Element::Group(Group {
        id: GroupId::new("wrapper"),
        label: "wrapper".into(),
        cardinality: Cardinality::One,
        children: vec![many_group("g1", vec![col("c1", ScalarType::Text)])],
        included_from: None,
    });
    let schema = Schema { root: vec![one_group], resolvers: vec![] };
    assert!(validate(&schema, DepthPolicy::default()).is_empty());
}

fn insee(ty: ScalarType, field: &str, target: &str, input: &str) -> Schema {
    Schema {
        root: vec![col("siret", ScalarType::Text), col("name", ScalarType::Text)],
        resolvers: vec![ResolverDeclaration {
            id: ResolverId::new("insee"),
            version: 1,
            anchor: GroupId::new("entreprise"),
            input: vec![(ColumnId::new(input), ScalarType::Text)],
            result_type: vec![ResultField { name: "raison_sociale".into(), ty }],
            mapping: vec![Mapping { result_field: field.into(), target: ColumnId::new(target) }],
        }],
    }
}

#[test]
fn mapping_typecheck() {
    // Wrong on purpose: a date into a text column.
    let schema = insee(ScalarType::Date, "raison_sociale", "name", "siret");
    let errors = validate(&schema, DepthPolicy::default());
    assert!(matches!(
        errors.as_slice(),
        [SchemaError::MappingTypeMismatch { .. }]
    ));
}

#[test]
fn every_schema_error_is_named() {
    let text = |schema: &Schema| {
        validate(schema, DepthPolicy::default())
            .iter()
            .map(|e| e.to_string())
            .collect::<Vec<String>>()
    };
    assert_eq!(
        text(&insee(ScalarType::Date, "raison_sociale", "name", "siret")),
        vec![
            "resolver 'insee': result field 'raison_sociale' does not typecheck against column 'name'"
        ]
    );
    assert_eq!(
        text(&insee(ScalarType::Text, "nom", "name", "siret")),
        vec!["resolver 'insee' maps result field 'nom' absent from its declared result type"]
    );
    assert_eq!(
        text(&insee(ScalarType::Text, "raison_sociale", "autre", "siret")),
        vec!["resolver 'insee' maps into unknown column 'autre'"]
    );
    assert_eq!(
        text(&insee(ScalarType::Text, "raison_sociale", "name", "siren")),
        vec!["resolver 'insee' reads unknown column 'siren'"]
    );
    assert!(text(&insee(ScalarType::Text, "raison_sociale", "name", "siret")).is_empty());
    let twice = Schema {
        root: vec![
            col("a", ScalarType::Text),
            col("a", ScalarType::Text),
            many_group("g", vec![]),
            many_group("g", vec![]),
        ],
        resolvers: vec![],
    };
    assert_eq!(
        text(&twice),
        vec!["duplicate column id 'a'", "duplicate group id 'g'"]
    );
}

#[test]
fn units_convert_within_a_dimension() {
    assert_eq!(conversion(Unit::Hour, Unit::Minute), Some((60, 1)));
    assert_eq!(conversion(Unit::Month, Unit::Day), None);
    for name in ["millimetre", "percent", "square_kilometre"] {
        assert_eq!(Unit::parse(name).unwrap().name(), name);
    }
    assert_eq!(Unit::parse("furlong"), None);
}

#[test]
fn a_wider_constraint_covers_a_narrower_one() {
    let images = AttachmentConstraints {
        accept: vec!["image/*".to_string()],
        max_bytes: Some(1_000),
    };
    let small_png = AttachmentConstraints {
        accept: vec!["image/png".to_string()],
        max_bytes: Some(500),
    };
    assert!(images.covers(&small_png));
    assert!(!small_png.covers(&images));
    assert!(images.accepts("image/png") && !images.accepts("application/pdf"));
    assert!(images.admits_size(1_000) && !images.admits_size(1_001));
    assert!(AttachmentConstraints::default().covers(&images));
    assert!(images.equivalent(&images) && !images.equivalent(&small_png));
}
