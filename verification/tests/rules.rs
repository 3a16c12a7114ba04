//! Conditions over a record: their meaning, their types, their order.

use varve::canonical::{CanonicalValue, Members};
use varve::cast::NomenclatureTable;
use varve::conformance::SchemaIndex;
use varve::decimal::Decimal;
use varve::eval::{eval, EvalContext};
use varve::expr_codec::{from_canonical, to_canonical};
use varve::logic::{
    pending_sources, sources, Atom, ColumnRef, Const, Expr, Operand, MAX_DEPTH,
};
use varve::rules::check_acyclic;
use varve::schema::{
    Arity, Cardinality, Column, Element, Group, NomenclatureRef, OptionRow, ScalarType, Schema,
    Unit,
};
use varve::typecheck::{typecheck, TypeError};
use varve::value::{CellAddr, CellState, CellValue, RecordValues, Scalar};
use varve::{
    ColumnId, GroupId, ItemId, Key, OptionId, OrderedMap, OrderedSet, PathSeg, RowPath,
};

fn set_of<K: Key>(keys: impl IntoIterator<Item = K>) -> OrderedSet<K> {
    let mut set = OrderedSet::new();
    for key in keys {
        set.insert(key);
    }
    set
}

fn column(id: &str, ty: ScalarType, arity: Arity) -> Element {
    Element::Column(Column {
        id: ColumnId::new(id),
        label: id.to_string(),
        ty,
        arity,
    })
}

fn communes() -> NomenclatureRef {
    NomenclatureRef::Inline(vec![
        OptionRow {
            id: OptionId::new("01053"),
            label: "Bourg-en-Bresse".into(),
            fields: vec![("departement".into(), "01".into())],
        },
        OptionRow {
            id: OptionId::new("75056"),
            label: "Paris".into(),
            fields: vec![("departement".into(), "75".into())],
        },
    ])
}

fn yes_no() -> NomenclatureRef {
    NomenclatureRef::Inline(vec![
        OptionRow { id: OptionId::new("oui"), label: "Oui".into(), fields: vec![] },
        OptionRow { id: OptionId::new("non"), label: "Non".into(), fields: vec![] },
    ])
}

fn schema() -> Schema {
    Schema {
        root: vec![
            column("situation", ScalarType::Enum(yes_no()), Arity::One),
            column(
                "duree",
                ScalarType::Integer(Some(Unit::Month)),
                Arity::One,
            ),
            column("commune", ScalarType::Enum(communes()), Arity::One),
            column("tags", ScalarType::Enum(yes_no()), Arity::Many),
            column("note", ScalarType::Text, Arity::One),
            Element::Group(Group {
                id: GroupId::new("contacts"),
                label: "contacts".into(),
                cardinality: Cardinality::Many,
                children: vec![column("role", ScalarType::Enum(yes_no()), Arity::One)],
                included_from: None,
            }),
        ],
        resolvers: vec![],
    }
}

fn source(id: &str) -> ColumnRef {
    ColumnRef { column: ColumnId::new(id), field: None }
}

fn eq(id: &str, c: Const) -> Expr {
    Expr::Atom(Atom::Eq { source: source(id), right: Operand::Const(c) })
}

fn months(n: &str) -> Const {
    Const::Number { value: Decimal::parse(n).unwrap(), unit: Some(Unit::Month) }
}

fn years(n: &str) -> Const {
    Const::Number { value: Decimal::parse(n).unwrap(), unit: Some(Unit::Year) }
}

struct Fixture {
    index: SchemaIndex,
    noms: NomenclatureTable,
    values: RecordValues,
}

impl Fixture {
    fn new() -> Self {
        Self {
            index: SchemaIndex::build(&schema()),
            noms: NomenclatureTable::new(),
            values: RecordValues::new(),
        }
    }

    fn set(&mut self, id: &str, scalar: Scalar) -> &mut Self {
        self.values.cells.insert(
            CellAddr { column: ColumnId::new(id), path: RowPath::root() },
            CellState::Value(CellValue::One(scalar)),
        );
        self
    }

    fn ctx(&self) -> EvalContext<'_> {
        EvalContext {
            index: &self.index,
            nomenclatures: &self.noms,
            values: &self.values,
            item: RowPath::root(),
            hidden: OrderedSet::new(),
            pending: OrderedSet::new(),
        }
    }
}

#[test]
fn absence_always_loses_even_for_negatives() {
    let f = Fixture::new();
    let ctx = f.ctx();
    assert!(!eval(&eq("situation", Const::Option(OptionId::new("oui"))), &ctx));
    assert!(!eval(
        &Expr::Atom(Atom::NotEq {
            source: source("situation"),
            right: Operand::Const(Const::Option(OptionId::new("oui"))),
        }),
        &ctx
    ));
    assert!(eval(&Expr::Atom(Atom::IsEmpty { source: source("situation") }), &ctx));
    let unless_no = Expr::Or(vec![
        Expr::Atom(Atom::IsEmpty { source: source("situation") }),
        Expr::Atom(Atom::NotEq {
            source: source("situation"),
            right: Operand::Const(Const::Option(OptionId::new("non"))),
        }),
    ]);
    assert!(eval(&unless_no, &f.ctx()));
}

#[test]
fn hidden_sources_read_as_absent() {
    let mut f = Fixture::new();
    f.set("situation", Scalar::Enum(OptionId::new("oui")));
    let expr = eq("situation", Const::Option(OptionId::new("oui")));
    assert!(eval(&expr, &f.ctx()));
    let mut ctx = f.ctx();
    ctx.hidden.insert(ColumnId::new("situation"));
    assert!(!eval(&expr, &ctx));
}

#[test]
fn unit_aware_comparison_is_exact() {
    let mut f = Fixture::new();
    f.set("duree", Scalar::Integer(18));
    assert!(eval(&eq("duree", years("1.5")), &f.ctx()));
    assert!(eval(
        &Expr::Atom(Atom::Gt {
            source: source("duree"),
            right: Operand::Const(years("1")),
        }),
        &f.ctx()
    ));
    assert!(!eval(&eq("duree", months("17")), &f.ctx()));
}

#[test]
fn field_projection_dissolves_geo_operators() {
    let mut f = Fixture::new();
    f.set("commune", Scalar::Enum(OptionId::new("01053")));
    let in_dept = |code: &str| {
        Expr::Atom(Atom::Eq {
            source: ColumnRef {
                column: ColumnId::new("commune"),
                field: Some("departement".into()),
            },
            right: Operand::Const(Const::Text(code.into())),
        })
    };
    assert!(eval(&in_dept("01"), &f.ctx()));
    assert!(!eval(&in_dept("75"), &f.ctx()));
}

#[test]
fn item_scope_reads_own_item_and_record() {
    let mut f = Fixture::new();
    f.set("situation", Scalar::Enum(OptionId::new("oui")));
    let item = RowPath::root().child(PathSeg {
        group: GroupId::new("contacts"),
        item: ItemId::new("i1"),
    });
    f.values.cells.insert(
        CellAddr { column: ColumnId::new("role"), path: item.clone() },
        CellState::Value(CellValue::One(Scalar::Enum(OptionId::new("non")))),
    );
    let both = Expr::And(vec![
        eq("situation", Const::Option(OptionId::new("oui"))),
        eq("role", Const::Option(OptionId::new("non"))),
    ]);
    let mut ctx = f.ctx();
    ctx.item = item;
    assert!(eval(&both, &ctx));
    assert!(!eval(&eq("role", Const::Option(OptionId::new("non"))), &f.ctx()));
}

#[test]
fn typechecker_enforces_the_matrix_and_scopes() {
    let s = schema();
    let noms = NomenclatureTable::new();
    let record: &[GroupId] = &[];
    let contacts = &[GroupId::new("contacts")];

    let text_eq = eq("note", Const::Text("x".into()));
    assert!(matches!(
        typecheck(&text_eq, &s, &noms, record).as_slice(),
        [TypeError::AtomNotAllowed(_)]
    ));
    let present = Expr::Atom(Atom::IsFilled { source: source("note") });
    assert_eq!(typecheck(&present, &s, &noms, record), vec![]);

    let bad = eq("role", Const::Option(OptionId::new("oui")));
    assert!(matches!(
        typecheck(&bad, &s, &noms, record).as_slice(),
        [TypeError::ScopeViolation(_)]
    ));
    assert_eq!(typecheck(&bad, &s, &noms, contacts), vec![]);
    let record_from_item = eq("situation", Const::Option(OptionId::new("oui")));
    assert_eq!(typecheck(&record_from_item, &s, &noms, contacts), vec![]);

    let bad_option = eq("situation", Const::Option(OptionId::new("peut-etre")));
    assert!(matches!(
        typecheck(&bad_option, &s, &noms, record).as_slice(),
        [TypeError::UnknownOption(..)]
    ));

    let bad_unit = eq(
        "duree",
        Const::Number { value: Decimal::parse("1").unwrap(), unit: Some(Unit::Metre) },
    );
    assert!(matches!(
        typecheck(&bad_unit, &s, &noms, record).as_slice(),
        [TypeError::UnitMismatch(_)]
    ));

    let col_col = Expr::Atom(Atom::Eq {
        source: source("duree"),
        right: Operand::Column(source("duree")),
    });
    assert!(
        typecheck(&col_col, &s, &noms, record)
            .contains(&TypeError::ColumnComparisonNotEnabled)
    );

    let pending = Expr::Atom(Atom::Pending { group: GroupId::new("insee") });
    assert!(matches!(
        typecheck(&pending, &s, &noms, record).as_slice(),
        [TypeError::NoResolverAnchored(_)]
    ));

    let bad_field = Expr::Atom(Atom::Eq {
        source: ColumnRef {
            column: ColumnId::new("commune"),
            field: Some("region".into()),
        },
        right: Operand::Const(Const::Text("84".into())),
    });
    assert!(matches!(
        typecheck(&bad_field, &s, &noms, record).as_slice(),
        [TypeError::UnknownField(..)]
    ));
}

#[test]
fn contains_and_pending() {
    let mut f = Fixture::new();
    f.values.cells.insert(
        CellAddr { column: ColumnId::new("tags"), path: RowPath::root() },
        CellState::Value(CellValue::Many(vec![Scalar::Enum(OptionId::new("oui"))])),
    );
    let contains = |o: &str| {
        Expr::Atom(Atom::Contains { source: source("tags"), option: OptionId::new(o) })
    };
    assert!(eval(&contains("oui"), &f.ctx()));
    assert!(!eval(&contains("non"), &f.ctx()));
    let excludes = Expr::Atom(Atom::Excludes {
        source: source("tags"),
        option: OptionId::new("non"),
    });
    assert!(eval(&excludes, &f.ctx()));

    let mut ctx = f.ctx();
    ctx.pending.insert((RowPath::root(), GroupId::new("entreprise")));
    let pending = Expr::Atom(Atom::Pending { group: GroupId::new("entreprise") });
    assert!(eval(&pending, &ctx));
    assert!(!eval(&pending, &f.ctx()));
}

#[test]
fn acyclicity_check_orders_and_detects() {
    let rule = |on: &str| eq(on, Const::Option(OptionId::new("oui")));
    let mut rules = OrderedMap::new();
    rules.insert(ColumnId::new("b"), rule("a"));
    rules.insert(ColumnId::new("c"), rule("b"));
    let order = check_acyclic(&rules).unwrap();
    let position = |id: &str| order.iter().position(|c| c.as_str() == id).unwrap();
    assert!(position("b") < position("c"));

    rules.insert(ColumnId::new("a"), rule("b"));
    let cycle = check_acyclic(&rules).unwrap_err();
    assert!(cycle.cycle.len() >= 3);
    assert_eq!(cycle.cycle.first(), cycle.cycle.last());

    assert_eq!(
        sources(&rule("a")),
        set_of([ColumnId::new("a")])
    );
}

#[test]
fn malformed_inputs_error_cleanly() {
    let obj = |pairs: &[(&str, CanonicalValue)]| {
        let mut members = Members::new();
        for (k, v) in pairs {
            members.insert(k.to_string(), v.clone());
        }
        CanonicalValue::Object(members)
    };
    let s = |t: &str| CanonicalValue::String(t.into());
    let arr = CanonicalValue::Array(vec![]);
    let bad = [
        CanonicalValue::Null,
        s("eq"),
        obj(&[]),
        obj(&[("and", arr.clone()), ("or", arr.clone())]),
        obj(&[("and", arr.clone()), ("junk", CanonicalValue::Null)]),
        obj(&[("op", s("is_empty")), ("source", obj(&[("column", s("a"))])), ("right", obj(&[]))]),
        obj(&[
            ("op", s("eq")),
            ("source", obj(&[("column", s("a"))])),
            ("right", obj(&[("const", obj(&[("boolean", CanonicalValue::Bool(true)), ("text", s("x"))]))])),
        ]),
        obj(&[
            ("op", s("eq")),
            ("source", obj(&[("column", s("a")), ("extra", s("x"))])),
            ("right", obj(&[("const", obj(&[("text", s("x"))]))])),
        ]),
        obj(&[
            ("op", s("eq")),
            ("source", obj(&[("column", s("a"))])),
            ("right", obj(&[("const", obj(&[("text", s("x"))])), ("column_ref", obj(&[("column", s("b"))]))])),
        ]),
    ];
    for value in &bad {
        assert!(from_canonical(value).is_err(), "{value:?} should be refused");
    }
    let nest = |depth: usize| {
        let mut e = obj(&[("or", arr.clone())]);
        for _ in 0..depth {
            e = obj(&[("and", CanonicalValue::Array(vec![e]))]);
        }
        e
    };
    let deep_ok = from_canonical(&nest(MAX_DEPTH)).unwrap();
    assert_eq!(deep_ok.depth(), MAX_DEPTH);
    assert!(from_canonical(&nest(MAX_DEPTH + 1)).is_err());
    let mut too_deep = Expr::Or(vec![]);
    for _ in 0..=MAX_DEPTH {
        too_deep = Expr::And(vec![too_deep]);
    }
    let schema = Schema::default();
    assert!(matches!(
        typecheck(&too_deep, &schema, &NomenclatureTable::new(), &[]).as_slice(),
        [TypeError::TooDeep(_)]
    ));
    let mut huge = Expr::Or(vec![]);
    for _ in 0..5000 {
        huge = Expr::And(vec![huge]);
    }
    assert_eq!(huge.depth(), 5000);
    assert!(matches!(
        typecheck(&huge, &schema, &NomenclatureTable::new(), &[]).as_slice(),
        [TypeError::TooDeep(_)]
    ));
    drop(huge);
}

fn depth_of_text(text: &str) -> Expr {
    eq("note", Const::Text(text.into()))
}

#[test]
fn expressions_read_back_from_their_form() {
    let item = Expr::Or(vec![
        Expr::And(vec![depth_of_text("x"), eq("duree", months("1.5"))]),
        Expr::Atom(Atom::Pending { group: GroupId::new("entreprise") }),
        Expr::Atom(Atom::Le {
            source: ColumnRef { column: ColumnId::new("commune"), field: Some("departement".into()) },
            right: Operand::Column(source("note")),
        }),
        Expr::Atom(Atom::Contains { source: source("tags"), option: OptionId::new("oui") }),
        Expr::Atom(Atom::IsFilled { source: source("note") }),
    ]);
    assert_eq!(from_canonical(&to_canonical(&item)), Ok(item.clone()));
    assert_eq!(
        pending_sources(&item),
        set_of([GroupId::new("entreprise")])
    );
}

#[test]
fn a_rule_that_reads_itself_is_a_cycle() {
    let mut rules = OrderedMap::new();
    rules.insert(ColumnId::new("a"), eq("a", Const::Boolean(true)));
    let cycle = check_acyclic(&rules).unwrap_err();
    assert_eq!(cycle.cycle, vec![ColumnId::new("a"), ColumnId::new("a")]);
    assert!(cycle.to_string().contains("a"));
}

#[test]
fn numbers_of_a_dimension_always_compare() {
    let mut f = Fixture::new();
    f.set("duree", Scalar::Integer(18));
    let most = "170141183460469231731687303715884105727";
    let less = |c: Const| {
        Expr::Atom(Atom::Lt { source: source("duree"), right: Operand::Const(c) })
    };
    // Twelve times the constant has no room in a decimal.
    assert!(eval(&less(years(most)), &f.ctx()));
    assert!(!eval(&less(years(&format!("-{most}"))), &f.ctx()));
    assert!(!eval(&eq("duree", years(most)), &f.ctx()));
}
