//! Which rules a schema refuses, and why.

use vstd::prelude::*;
use crate::cast;
use crate::cast_laws;
use crate::conformance;
use crate::logic;
use crate::schema_laws;
use crate::typecheck;
use crate::conformance::{ColumnInfoModel, SchemaIndexModel};
use crate::logic::{Atom, AtomModel, ColumnRefModel, Const, ConstModel, ExprModel, OperandModel};
use crate::schema::{
    Arity, Column, NomenclatureRefModel, OptionRowModel, ResolverDeclarationModel, ScalarTypeModel,
    SchemaModel, Unit,
};
use crate::typecheck::{TypeErrorModel, typecheck};

verus! {

/// The column that an atom reads on its left.
pub open spec fn left_of(a: AtomModel) -> Option<ColumnRefModel> {
    match a {
        AtomModel::Eq { source, .. } => Some(source),
        AtomModel::NotEq { source, .. } => Some(source),
        AtomModel::Lt { source, .. } => Some(source),
        AtomModel::Le { source, .. } => Some(source),
        AtomModel::Gt { source, .. } => Some(source),
        AtomModel::Ge { source, .. } => Some(source),
        AtomModel::IsEmpty { source } => Some(source),
        AtomModel::IsFilled { source } => Some(source),
        AtomModel::Contains { source, .. } => Some(source),
        AtomModel::Excludes { source, .. } => Some(source),
        AtomModel::Pending { .. } => None,
        AtomModel::NotPending { .. } => None,
    }
}

/// What a comparison stands against, and whether it asks for an order.
pub open spec fn right_of(a: AtomModel) -> Option<(OperandModel, bool)> {
    match a {
        AtomModel::Eq { right, .. } => Some((right, false)),
        AtomModel::NotEq { right, .. } => Some((right, false)),
        AtomModel::Lt { right, .. } => Some((right, true)),
        AtomModel::Le { right, .. } => Some((right, true)),
        AtomModel::Gt { right, .. } => Some((right, true)),
        AtomModel::Ge { right, .. } => Some((right, true)),
        _ => None,
    }
}

/// The option that an atom looks for in a list.
pub open spec fn member_of(a: AtomModel) -> Option<Seq<char>> {
    match a {
        AtomModel::Contains { option, .. } => Some(option),
        AtomModel::Excludes { option, .. } => Some(option),
        _ => None,
    }
}

/// Whether a rule at a scope can read a column of another: the column's
/// groups are the first of the rule's own.
pub open spec fn is_in_reach(groups: Seq<Seq<char>>, scope: Seq<Seq<char>>) -> bool {
    groups.len() <= scope.len() && forall|i: int|
        0 <= i < groups.len() ==> #[trigger] groups[i] == scope[i]
}

/// Whether a constant cannot stand against a type at all.
pub open spec fn atom_does_not_fit(ty: ScalarTypeModel, c: ConstModel, ordered: bool) -> bool {
    match ty {
        ScalarTypeModel::Boolean => ordered || !(c is Boolean),
        ScalarTypeModel::Enum(_) => ordered || !(c is Option),
        ScalarTypeModel::Text | ScalarTypeModel::Attachment(_) | ScalarTypeModel::Geometry => true,
        _ => false,
    }
}

/// Whether a constant is of another type.
pub open spec fn constant_does_not_fit(ty: ScalarTypeModel, c: ConstModel) -> bool {
    match ty {
        ScalarTypeModel::Integer(_) | ScalarTypeModel::Decimal(_) => !(c is Number),
        ScalarTypeModel::Date => !(c is Date),
        ScalarTypeModel::Datetime => !(c is Datetime),
        _ => false,
    }
}

/// Whether numbers in two units can be compared: both have none, or both
/// measure one thing.
pub open spec fn are_commensurable(a: Option<Unit>, b: Option<Unit>) -> bool {
    match (a, b) {
        (None, None) => true,
        (Some(x), Some(y)) => cast_laws::measure(x).0 == cast_laws::measure(y).0,
        _ => false,
    }
}

/// Whether the rows of an enum type are not at hand.
pub open spec fn rows_are_missing(
    ty: ScalarTypeModel,
    noms: Map<(Seq<char>, u32), Seq<OptionRowModel>>,
) -> bool {
    ty matches ScalarTypeModel::Enum(NomenclatureRefModel::Published { id, version })
        && !noms.dom().contains((id, version))
}

/// Whether the rows of an enum type are at hand and none is such.
pub open spec fn no_row_is(
    ty: ScalarTypeModel,
    noms: Map<(Seq<char>, u32), Seq<OptionRowModel>>,
    p: spec_fn(OptionRowModel) -> bool,
) -> bool {
    ty is Enum && exists|rows: Seq<OptionRowModel>| #[trigger]
        cast_laws::rows_at_hand(ty->Enum_0, noms, rows) && forall|i: int|
            0 <= i < rows.len() ==> !p(#[trigger] rows[i])
}

/// The option that an atom names of a column: one it looks for in a list,
/// or one it is equal to or not.
pub open spec fn option_named(a: AtomModel, info: ColumnInfoModel) -> Option<Seq<char>> {
    match (member_of(a), right_of(a), left_of(a)) {
        (Some(o), _, _) => if info.ty is Enum && info.arity is Many {
            Some(o)
        } else {
            None
        },
        (None, Some((OperandModel::Const(ConstModel::Option(o)), false)), Some(source)) => if info.ty is Enum
            && source.field is None {
            Some(o)
        } else {
            None
        },
        _ => None,
    }
}

/// The extra field that an atom reads of an enum column.
pub open spec fn field_named(a: AtomModel, info: ColumnInfoModel) -> Option<Seq<char>> {
    match (right_of(a), left_of(a)) {
        (Some((OperandModel::Const(_), _)), Some(source)) => if info.ty is Enum {
            source.field
        } else {
            None
        },
        _ => None,
    }
}

/// Whether an atom is refused for this reason.
pub open spec fn is_refused(
    a: AtomModel,
    schema: SchemaModel,
    noms: Map<(Seq<char>, u32), Seq<OptionRowModel>>,
    scope: Seq<Seq<char>>,
    e: TypeErrorModel,
) -> bool {
    let columns = conformance::schema_index(schema).columns;
    let on = |c: Seq<char>| left_of(a) matches Some(s) && s.column == c;
    match e {
        TypeErrorModel::UnknownColumn(c) => on(c) && !columns.dom().contains(c),
        TypeErrorModel::ScopeViolation(c) => on(c) && columns.dom().contains(c) && !is_in_reach(
            columns[c].scope,
            scope,
        ),
        TypeErrorModel::NoResolverAnchored(g) => (a == (AtomModel::Pending { group: g }) || a == (
        AtomModel::NotPending { group: g })) && forall|i: int|
            0 <= i < schema.resolvers.len() ==> (#[trigger] schema.resolvers[i]).anchor != g,
        TypeErrorModel::ColumnComparisonNotEnabled => (right_of(a) matches Some((r, _))
            && r is Column) && (left_of(a) matches Some(s) && columns.dom().contains(s.column)),
        TypeErrorModel::AtomNotAllowed(c) => on(c) && columns.dom().contains(c) && {
            let info = columns[c];
            ||| member_of(a) is Some && !(info.ty is Enum && info.arity is Many)
            ||| right_of(a) matches Some((OperandModel::Const(k), ordered)) && if (left_of(
                a,
            )->0).field is Some {
                !(info.ty is Enum) || ordered || !(k is Text)
            } else {
                atom_does_not_fit(info.ty, k, ordered)
            }
        },
        TypeErrorModel::TypeMismatch(c) => on(c) && columns.dom().contains(c) && (left_of(
            a,
        )->0).field is None && (right_of(a) matches Some((OperandModel::Const(k), _))
            && constant_does_not_fit(columns[c].ty, k)),
        TypeErrorModel::UnitMismatch(c) => on(c) && columns.dom().contains(c) && (left_of(
            a,
        )->0).field is None && (right_of(a) matches Some(
            (OperandModel::Const(ConstModel::Number { unit, .. }), _),
        ) && match columns[c].ty {
            ScalarTypeModel::Integer(u) => !are_commensurable(u, unit),
            ScalarTypeModel::Decimal(u) => !are_commensurable(u, unit),
            _ => false,
        }),
        TypeErrorModel::UnknownOption(c, o) => on(c) && columns.dom().contains(c)
            && option_named(a, columns[c]) == Some(o) && no_row_is(
            columns[c].ty,
            noms,
            |r: OptionRowModel| r.id == o,
        ),
        TypeErrorModel::UnknownField(c, f) => on(c) && columns.dom().contains(c) && field_named(
            a,
            columns[c],
        ) == Some(f) && no_row_is(
            columns[c].ty,
            noms,
            |r: OptionRowModel|
                exists|i: int| 0 <= i < r.fields.len() && (#[trigger] r.fields[i]).0 == f,
        ),
        TypeErrorModel::UnknownNomenclature(c) => on(c) && columns.dom().contains(c) && (
        option_named(a, columns[c]) is Some || field_named(a, columns[c]) is Some)
            && rows_are_missing(columns[c].ty, noms),
        TypeErrorModel::TooDeep(_) => false,
    }
}

proof fn one_contains(x: TypeErrorModel, e: TypeErrorModel)
    ensures
        seq![x].contains(e) == (e == x),
        !Seq::<TypeErrorModel>::empty().contains(e),
{
    assert(seq![x][0] == x);
}

proof fn rows_agree(
    nref: NomenclatureRefModel,
    noms: Map<(Seq<char>, u32), Seq<OptionRowModel>>,
)
    ensures
        cast::rows_of(nref, noms) matches Ok(rows) ==> cast_laws::rows_at_hand(nref, noms, rows) && forall|
            other: Seq<OptionRowModel>,
        | #[trigger]
            cast_laws::rows_at_hand(nref, noms, other) ==> other == rows,
        cast::rows_of(nref, noms) is Err ==> (forall|other: Seq<OptionRowModel>|
            !#[trigger] cast_laws::rows_at_hand(nref, noms, other)) && rows_are_missing(
            ScalarTypeModel::Enum(nref),
            noms,
        ),
        cast::rows_of(nref, noms) is Ok ==> !rows_are_missing(ScalarTypeModel::Enum(nref), noms),
{
}

proof fn option_faults(
    column: Seq<char>,
    nref: NomenclatureRefModel,
    option: Seq<char>,
    noms: Map<(Seq<char>, u32), Seq<OptionRowModel>>,
    e: TypeErrorModel,
)
    ensures
        typecheck::option_errors(column, nref, option, noms).contains(e) <==> {
            ||| e == TypeErrorModel::UnknownNomenclature(column) && rows_are_missing(
                ScalarTypeModel::Enum(nref),
                noms,
            )
            ||| e == TypeErrorModel::UnknownOption(column, option) && no_row_is(
                ScalarTypeModel::Enum(nref),
                noms,
                |r: OptionRowModel| r.id == option,
            )
        },
{
    rows_agree(nref, noms);
    one_contains(TypeErrorModel::UnknownNomenclature(column), e);
    one_contains(TypeErrorModel::UnknownOption(column, option), e);
    if let Ok(rows) = cast::rows_of(nref, noms) {
        if !cast::has_option(rows, option) {
            assert(cast_laws::rows_at_hand(ScalarTypeModel::Enum(nref)->Enum_0, noms, rows));
        }
    }
}

proof fn field_faults(
    column: Seq<char>,
    field: Seq<char>,
    ty: ScalarTypeModel,
    c: ConstModel,
    noms: Map<(Seq<char>, u32), Seq<OptionRowModel>>,
    ordered: bool,
    e: TypeErrorModel,
)
    ensures
        typecheck::field_errors(column, field, ty, c, noms, ordered).contains(e) <==> {
            ||| e == TypeErrorModel::AtomNotAllowed(column) && (!(ty is Enum) || ordered || !(
            c is Text))
            ||| e == TypeErrorModel::UnknownNomenclature(column) && rows_are_missing(ty, noms)
            ||| e == TypeErrorModel::UnknownField(column, field) && no_row_is(
                ty,
                noms,
                |r: OptionRowModel|
                    exists|i: int| 0 <= i < r.fields.len() && (#[trigger] r.fields[i]).0 == field,
            )
        },
{
    one_contains(TypeErrorModel::UnknownNomenclature(column), e);
    one_contains(TypeErrorModel::UnknownField(column, field), e);
    one_contains(TypeErrorModel::AtomNotAllowed(column), e);
    if let ScalarTypeModel::Enum(nref) = ty {
        rows_agree(nref, noms);
        let first = if ordered || !(c is Text) {
            seq![TypeErrorModel::AtomNotAllowed(column)]
        } else {
            Seq::empty()
        };
        let second = match cast::rows_of(nref, noms) {
            Err(_) => seq![TypeErrorModel::UnknownNomenclature(column)],
            Ok(rows) => if typecheck::some_row_has(rows, field) {
                Seq::empty()
            } else {
                seq![TypeErrorModel::UnknownField(column, field)]
            },
        };
        schema_laws::join_contains(first, second, e);
        if let Ok(rows) = cast::rows_of(nref, noms) {
            if !typecheck::some_row_has(rows, field) {
                assert(cast_laws::rows_at_hand(ty->Enum_0, noms, rows));
            } else {
                let i = choose|i: int| 0 <= i < rows.len() && typecheck::row_has(#[trigger] rows[i], field);
                let k = choose|k: int|
                    0 <= k < rows[i].fields.len() && (#[trigger] rows[i].fields[k]).0 == field;
                assert(rows[i].fields[k].0 == field);
            }
        }
    }
}

proof fn constant_faults(
    column: Seq<char>,
    ty: ScalarTypeModel,
    c: ConstModel,
    noms: Map<(Seq<char>, u32), Seq<OptionRowModel>>,
    ordered: bool,
    e: TypeErrorModel,
)
    ensures
        typecheck::constant_errors(column, ty, c, noms, ordered).contains(e) <==> {
            ||| e == TypeErrorModel::AtomNotAllowed(column) && atom_does_not_fit(ty, c, ordered)
            ||| e == TypeErrorModel::TypeMismatch(column) && constant_does_not_fit(ty, c)
            ||| e == TypeErrorModel::UnitMismatch(column) && (c matches ConstModel::Number {
                unit,
                ..
            } && match ty {
                ScalarTypeModel::Integer(u) => !are_commensurable(u, unit),
                ScalarTypeModel::Decimal(u) => !are_commensurable(u, unit),
                _ => false,
            })
            ||| e == TypeErrorModel::UnknownNomenclature(column) && c is Option && !ordered
                && rows_are_missing(ty, noms)
            ||| e == TypeErrorModel::UnknownOption(column, c->Option_0) && c is Option && !ordered
                && no_row_is(ty, noms, |r: OptionRowModel| r.id == c->Option_0)
        },
{
    one_contains(TypeErrorModel::AtomNotAllowed(column), e);
    one_contains(TypeErrorModel::TypeMismatch(column), e);
    one_contains(TypeErrorModel::UnitMismatch(column), e);
    if let ConstModel::Number { unit, .. } = c {
        match ty {
            ScalarTypeModel::Integer(u) => {
                commensurable_units_compare(u, unit);
            },
            ScalarTypeModel::Decimal(u) => {
                commensurable_units_compare(u, unit);
            },
            _ => {},
        }
    }
    if let (ScalarTypeModel::Enum(nref), ConstModel::Option(o)) = (ty, c) {
        option_faults(column, nref, o, noms, e);
    }
}

proof fn commensurable_units_compare(a: Option<Unit>, b: Option<Unit>)
    ensures
        typecheck::units_compare(a, b) == are_commensurable(a, b),
{
    if let (Some(x), Some(y)) = (a, b) {
        cast_laws::units_are_worth_their_measure(x);
        cast_laws::units_are_worth_their_measure(y);
    }
}

/// An atom is refused for exactly the reasons that it gives: an unknown
/// column or one out of reach, a group without a resolver, a comparison
/// with another column, a column that does not allow it, a constant of
/// another type or unit, and an option, a field or a nomenclature that is
/// not known.
pub proof fn atoms_are_refused_for_cause(
    a: AtomModel,
    schema: SchemaModel,
    noms: Map<(Seq<char>, u32), Seq<OptionRowModel>>,
    scope: Seq<Seq<char>>,
    e: TypeErrorModel,
)
    ensures
        typecheck::rule_errors(ExprModel::Atom(a), schema, noms, scope).contains(e) <==> is_refused(
            a,
            schema,
            noms,
            scope,
            e,
        ),
{
    let index = conformance::schema_index(schema);
    let out = typecheck::atom_errors(a, schema.resolvers, index, noms, scope);
    assert(typecheck::rule_errors(ExprModel::Atom(a), schema, noms, scope) == out);
    if let Some(group) = a.awaited() {
        one_contains(TypeErrorModel::NoResolverAnchored(group), e);
    } else {
        let source = left_of(a)->0;
        let c = source.column;
        assert(a.source() == left_of(a));
        one_contains(TypeErrorModel::UnknownColumn(c), e);
        if index.columns.dom().contains(c) {
            let info = index.columns[c];
            let first = if info.scope.is_prefix_of(scope) {
                Seq::empty()
            } else {
                seq![TypeErrorModel::ScopeViolation(c)]
            };
            one_contains(TypeErrorModel::ScopeViolation(c), e);
            reach_is_a_front(info.scope, scope);
            let rest = if a.right() matches Some(OperandModel::Column(_)) {
                seq![TypeErrorModel::ColumnComparisonNotEnabled]
            } else {
                typecheck::use_errors(a, info, noms)
            };
            one_contains(TypeErrorModel::ColumnComparisonNotEnabled, e);
            one_contains(TypeErrorModel::AtomNotAllowed(c), e);
            assert(out =~= first + rest);
            schema_laws::join_contains(first, rest, e);
            if !(a.right() matches Some(OperandModel::Column(_))) {
                uses_are_refused(a, info, noms, e);
            }
        }
    }
}

proof fn reach_is_a_front(groups: Seq<Seq<char>>, scope: Seq<Seq<char>>)
    ensures
        groups.is_prefix_of(scope) == is_in_reach(groups, scope),
{
    if is_in_reach(groups, scope) {
        assert(groups =~= scope.subrange(0, groups.len() as int));
    }
    if groups.is_prefix_of(scope) {
        assert forall|i: int| 0 <= i < groups.len() implies #[trigger] groups[i] == scope[i] by {
            assert(scope.subrange(0, groups.len() as int)[i] == scope[i]);
        }
    }
}

proof fn uses_are_refused(
    a: AtomModel,
    info: ColumnInfoModel,
    noms: Map<(Seq<char>, u32), Seq<OptionRowModel>>,
    e: TypeErrorModel,
)
    requires
        a.awaited() is None,
        !(a.right() matches Some(OperandModel::Column(_))),
    ensures
        typecheck::use_errors(a, info, noms).contains(e) <==> {
            let c = (left_of(a)->0).column;
            match e {
                TypeErrorModel::AtomNotAllowed(x) => x == c && {
                    ||| member_of(a) is Some && !(info.ty is Enum && info.arity is Many)
                    ||| right_of(a) matches Some((OperandModel::Const(k), ordered)) && if (left_of(
                        a,
                    )->0).field is Some {
                        !(info.ty is Enum) || ordered || !(k is Text)
                    } else {
                        atom_does_not_fit(info.ty, k, ordered)
                    }
                },
                TypeErrorModel::TypeMismatch(x) => x == c && (left_of(a)->0).field is None && (
                right_of(a) matches Some((OperandModel::Const(k), _)) && constant_does_not_fit(
                    info.ty,
                    k,
                )),
                TypeErrorModel::UnitMismatch(x) => x == c && (left_of(a)->0).field is None && (
                right_of(a) matches Some(
                    (OperandModel::Const(ConstModel::Number { unit, .. }), _),
                ) && match info.ty {
                    ScalarTypeModel::Integer(u) => !are_commensurable(u, unit),
                    ScalarTypeModel::Decimal(u) => !are_commensurable(u, unit),
                    _ => false,
                }),
                TypeErrorModel::UnknownOption(x, o) => x == c && option_named(a, info) == Some(o)
                    && no_row_is(info.ty, noms, |r: OptionRowModel| r.id == o),
                TypeErrorModel::UnknownField(x, f) => x == c && field_named(a, info) == Some(f)
                    && no_row_is(
                    info.ty,
                    noms,
                    |r: OptionRowModel|
                        exists|i: int| 0 <= i < r.fields.len() && (#[trigger] r.fields[i]).0 == f,
                ),
                TypeErrorModel::UnknownNomenclature(x) => x == c && (option_named(a, info) is Some
                    || field_named(a, info) is Some) && rows_are_missing(info.ty, noms),
                _ => false,
            }
        },
{
    let source = left_of(a)->0;
    let c = source.column;
    one_contains(TypeErrorModel::AtomNotAllowed(c), e);
    if let Some(o) = member_of(a) {
        if let (ScalarTypeModel::Enum(nref), Arity::Many) = (info.ty, info.arity) {
            option_faults(c, nref, o, noms, e);
        }
    } else if let Some((OperandModel::Const(k), ordered)) = right_of(a) {
        match source.field {
            Some(f) => {
                field_faults(c, f, info.ty, k, noms, ordered, e);
            },
            None => {
                constant_faults(c, info.ty, k, noms, ordered, e);
            },
        }
    }
}

proof fn parts_are_refused(
    s: Seq<ExprModel>,
    resolvers: Seq<ResolverDeclarationModel>,
    index: SchemaIndexModel,
    noms: Map<(Seq<char>, u32), Seq<OptionRowModel>>,
    scope: Seq<Seq<char>>,
    e: TypeErrorModel,
)
    ensures
        typecheck::all_errors(s, resolvers, index, noms, scope).contains(e) <==> exists|i: int|
            0 <= i < s.len() && typecheck::expr_errors(#[trigger] s[i], resolvers, index, noms, scope).contains(
                e,
            ),
    decreases s.len(),
{
    if s.len() > 0 {
        let rest = s.drop_last();
        let n = s.len() - 1;
        parts_are_refused(rest, resolvers, index, noms, scope, e);
        assert(s[n] == s.last());
        let before = typecheck::all_errors(rest, resolvers, index, noms, scope);
        let own = typecheck::expr_errors(s.last(), resolvers, index, noms, scope);
        schema_laws::join_contains(before, own, e);
        assert(typecheck::all_errors(s, resolvers, index, noms, scope) == before + own);
        if before.contains(e) {
            let i = choose|i: int|
                0 <= i < rest.len() && typecheck::expr_errors(
                    #[trigger] rest[i],
                    resolvers,
                    index,
                    noms,
                    scope,
                ).contains(e);
            assert(s[i] == rest[i]);
        }
        assert forall|i: int|
            0 <= i < s.len() && typecheck::expr_errors(
                #[trigger] s[i],
                resolvers,
                index,
                noms,
                scope,
            ).contains(e) implies typecheck::all_errors(s, resolvers, index, noms, scope).contains(e) by {
            if i < n {
                assert(rest[i] == s[i]);
            }
        }
    }
}

proof fn parts_are_less_deep(s: Seq<ExprModel>, i: int)
    requires
        0 <= i < s.len(),
    ensures
        logic::depth_of(s[i]) < logic::depth_below(s),
    decreases s.len(),
{
    if i < s.len() - 1 {
        parts_are_less_deep(s.drop_last(), i);
        assert(s.drop_last()[i] == s[i]);
    } else {
        assert(s.last() == s[i]);
    }
    assert(logic::depth_below(s) == logic::larger(logic::depth_below(s.drop_last()), 1 + logic::depth_of(s.last())));
}

/// A combination that is not too deep is refused for exactly what its
/// parts are refused for, whichever combination it is.
pub proof fn combinations_are_refused_for_their_parts(
    s: Seq<ExprModel>,
    schema: SchemaModel,
    noms: Map<(Seq<char>, u32), Seq<OptionRowModel>>,
    scope: Seq<Seq<char>>,
    e: TypeErrorModel,
)
    requires
        logic::depth_of(ExprModel::And(s)) <= 64,
    ensures
        typecheck::rule_errors(ExprModel::And(s), schema, noms, scope).contains(e) <==> exists|i: int|
            0 <= i < s.len() && typecheck::rule_errors(#[trigger] s[i], schema, noms, scope).contains(e),
        typecheck::rule_errors(ExprModel::Or(s), schema, noms, scope) == typecheck::rule_errors(
            ExprModel::And(s),
            schema,
            noms,
            scope,
        ),
{
    reveal_with_fuel(logic::depth_of, 2);
    reveal_with_fuel(typecheck::expr_errors, 2);
    let index = conformance::schema_index(schema);
    parts_are_refused(s, schema.resolvers, index, noms, scope, e);
    assert(logic::depth_of(ExprModel::And(s)) == logic::depth_below(s));
    assert(logic::depth_of(ExprModel::Or(s)) == logic::depth_below(s));
    assert forall|i: int| 0 <= i < s.len() implies typecheck::rule_errors(#[trigger] s[i], schema, noms, scope)
        == typecheck::expr_errors(s[i], schema.resolvers, index, noms, scope) by {
        parts_are_less_deep(s, i);
    }
}

/// A rule that nests deeper than is allowed is refused for that alone.
pub proof fn deep_rules_are_refused(
    e: ExprModel,
    schema: SchemaModel,
    noms: Map<(Seq<char>, u32), Seq<OptionRowModel>>,
    scope: Seq<Seq<char>>,
)
    ensures
        64 < logic::depth_of(e) <= usize::MAX ==> typecheck::rule_errors(e, schema, noms, scope) == seq![
            TypeErrorModel::TooDeep(logic::depth_of(e) as usize),
        ],
{
}

/// An atom is as deep as the root; a combination is one deeper than the
/// deepest of its parts.
pub proof fn depth_is_that_of_the_deepest(s: Seq<ExprModel>, a: AtomModel)
    ensures
        logic::depth_of(ExprModel::Atom(a)) == 0,
        logic::depth_of(ExprModel::And(s)) == logic::depth_of(ExprModel::Or(s)),
        forall|i: int|
            0 <= i < s.len() ==> logic::depth_of(#[trigger] s[i]) + 1 <= logic::depth_of(ExprModel::And(s)),
        s.len() == 0 ==> logic::depth_of(ExprModel::And(s)) == 0,
        s.len() > 0 ==> exists|i: int|
            0 <= i < s.len() && logic::depth_of(#[trigger] s[i]) + 1 == logic::depth_of(ExprModel::And(s)),
{
    reveal_with_fuel(logic::depth_of, 2);
    assert(logic::depth_of(ExprModel::And(s)) == logic::depth_below(s));
    assert(logic::depth_of(ExprModel::Or(s)) == logic::depth_below(s));
    assert forall|i: int| 0 <= i < s.len() implies logic::depth_of(#[trigger] s[i]) + 1 <= logic::depth_of(
        ExprModel::And(s),
    ) by {
        parts_are_less_deep(s, i);
    }
    if s.len() > 0 {
        some_part_is_deepest(s);
    }
}

proof fn some_part_is_deepest(s: Seq<ExprModel>)
    requires
        s.len() > 0,
    ensures
        exists|i: int| 0 <= i < s.len() && logic::depth_of(#[trigger] s[i]) + 1 == logic::depth_below(s),
    decreases s.len(),
{
    let rest = s.drop_last();
    assert(logic::depth_below(s) == logic::larger(logic::depth_below(rest), 1 + logic::depth_of(s.last())));
    assert(s[s.len() - 1] == s.last());
    if logic::depth_below(s) != 1 + logic::depth_of(s.last()) {
        assert(rest.len() > 0);
        some_part_is_deepest(rest);
        let i = choose|i: int|
            0 <= i < rest.len() && logic::depth_of(#[trigger] rest[i]) + 1 == logic::depth_below(rest);
        assert(s[i] == rest[i]);
    }
}

proof fn parts_read(s: Seq<ExprModel>, c: Seq<char>)
    ensures
        logic::all_read(s).contains(c) <==> exists|i: int|
            0 <= i < s.len() && logic::reads(#[trigger] s[i]).contains(c),
        logic::all_await(s).contains(c) <==> exists|i: int|
            0 <= i < s.len() && logic::awaits(#[trigger] s[i]).contains(c),
    decreases s.len(),
{
    if s.len() > 0 {
        let rest = s.drop_last();
        let n = s.len() - 1;
        parts_read(rest, c);
        assert(s[n] == s.last());
        assert(logic::all_read(s) == logic::all_read(rest).union(logic::reads(s.last())));
        assert(logic::all_await(s) == logic::all_await(rest).union(logic::awaits(s.last())));
        if logic::all_read(rest).contains(c) {
            let i = choose|i: int| 0 <= i < rest.len() && logic::reads(#[trigger] rest[i]).contains(c);
            assert(s[i] == rest[i]);
        }
        if logic::all_await(rest).contains(c) {
            let i = choose|i: int| 0 <= i < rest.len() && logic::awaits(#[trigger] rest[i]).contains(c);
            assert(s[i] == rest[i]);
        }
        if exists|i: int| 0 <= i < s.len() && logic::reads(#[trigger] s[i]).contains(c) {
            let i = choose|i: int| 0 <= i < s.len() && logic::reads(#[trigger] s[i]).contains(c);
            if i < n {
                assert(rest[i] == s[i]);
            }
        }
        if exists|i: int| 0 <= i < s.len() && logic::awaits(#[trigger] s[i]).contains(c) {
            let i = choose|i: int| 0 <= i < s.len() && logic::awaits(#[trigger] s[i]).contains(c);
            if i < n {
                assert(rest[i] == s[i]);
            }
        }
    }
}

/// A rule reads the columns that its atoms name, on either side, and
/// waits for the groups that they name; a combination reads and waits for
/// what its parts do.
pub proof fn rules_read_what_their_atoms_name(s: Seq<ExprModel>, a: AtomModel, x: Seq<char>)
    ensures
        logic::reads(ExprModel::Atom(a)).contains(x) <==> (left_of(a) matches Some(l) && l.column == x) || (
        right_of(a) matches Some((OperandModel::Column(r), _)) && r.column == x),
        logic::awaits(ExprModel::Atom(a)).contains(x) <==> a == (AtomModel::Pending { group: x }) || a == (
        AtomModel::NotPending { group: x }),
        logic::reads(ExprModel::And(s)).contains(x) <==> exists|i: int|
            0 <= i < s.len() && logic::reads(#[trigger] s[i]).contains(x),
        logic::reads(ExprModel::Or(s)) == logic::reads(ExprModel::And(s)),
        logic::awaits(ExprModel::And(s)).contains(x) <==> exists|i: int|
            0 <= i < s.len() && logic::awaits(#[trigger] s[i]).contains(x),
        logic::awaits(ExprModel::Or(s)) == logic::awaits(ExprModel::And(s)),
{
    reveal_with_fuel(logic::reads, 2);
    reveal_with_fuel(logic::awaits, 2);
    parts_read(s, x);
    assert(logic::reads(ExprModel::And(s)) == logic::all_read(s));
    assert(logic::reads(ExprModel::Or(s)) == logic::all_read(s));
    assert(logic::awaits(ExprModel::And(s)) == logic::all_await(s));
    assert(logic::awaits(ExprModel::Or(s)) == logic::all_await(s));
}

} // verus!
