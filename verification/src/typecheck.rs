//! Static checking of rules against a schema: which atoms a column's
//! type allows, what a rule may read from where it stands, option
//! membership and unit dimensions.

use vstd::prelude::*;
use crate::cast;
use crate::conformance;
use crate::logic;
use crate::order;
use crate::canonical::same_text;
use crate::cast::{NomenclatureTable, nomenclature_rows, row_has_option};
use crate::conformance::{ColumnInfo, ColumnInfoModel, SchemaIndex, SchemaIndexModel};
use crate::ids::{ColumnId, GroupId, OptionId};
use crate::logic::{
    Atom, AtomModel, ColumnRef, ColumnRefModel, Const, ConstModel, Expr, ExprModel, MAX_DEPTH,
    Operand, OperandModel,
};
use crate::order::Modeled;
use crate::schema::{
    Arity, Column, NomenclatureRef, NomenclatureRefModel, OptionRow, OptionRowModel,
    ResolverDeclaration, ResolverDeclarationModel, ScalarType, ScalarTypeModel, Schema,
    SchemaModel, Unit,
};

verus! {

/// Why a rule is refused.
#[derive(Clone, Debug, PartialEq, Eq)]
pub enum TypeError {
    UnknownColumn(ColumnId),
    /// A rule on an item reads its own item and what encloses it; a rule
    /// on the record reads the record's columns only.
    ScopeViolation(ColumnId),
    /// The column's type does not allow this atom.
    AtomNotAllowed(ColumnId),
    /// The constant is not of the column's type.
    TypeMismatch(ColumnId),
    UnknownOption(ColumnId, OptionId),
    /// No row of the column's nomenclature has this field.
    UnknownField(ColumnId, String),
    /// The units measure different things.
    UnitMismatch(ColumnId),
    /// No resolver is anchored on the group.
    NoResolverAnchored(GroupId),
    /// Columns cannot be compared with each other yet.
    ColumnComparisonNotEnabled,
    /// A published nomenclature is not in the table at hand.
    UnknownNomenclature(ColumnId),
    /// The expression nests deeper than is allowed.
    TooDeep(usize),
}

/// The model of [`TypeError`].
#[verifier::ext_equal]
pub enum TypeErrorModel {
    UnknownColumn(Seq<char>),
    ScopeViolation(Seq<char>),
    AtomNotAllowed(Seq<char>),
    TypeMismatch(Seq<char>),
    UnknownOption(Seq<char>, Seq<char>),
    UnknownField(Seq<char>, Seq<char>),
    UnitMismatch(Seq<char>),
    NoResolverAnchored(Seq<char>),
    ColumnComparisonNotEnabled,
    UnknownNomenclature(Seq<char>),
    TooDeep(usize),
}

impl DeepView for TypeError {
    type V = TypeErrorModel;

    open spec fn deep_view(&self) -> TypeErrorModel {
        match self {
            TypeError::UnknownColumn(x) => TypeErrorModel::UnknownColumn(x.deep_view()),
            TypeError::ScopeViolation(x) => TypeErrorModel::ScopeViolation(x.deep_view()),
            TypeError::AtomNotAllowed(x) => TypeErrorModel::AtomNotAllowed(x.deep_view()),
            TypeError::TypeMismatch(x) => TypeErrorModel::TypeMismatch(x.deep_view()),
            TypeError::UnknownOption(x0, x1) => TypeErrorModel::UnknownOption(x0.deep_view(), x1.deep_view()),
            TypeError::UnknownField(x0, x1) => TypeErrorModel::UnknownField(x0.deep_view(), x1.deep_view()),
            TypeError::UnitMismatch(x) => TypeErrorModel::UnitMismatch(x.deep_view()),
            TypeError::NoResolverAnchored(x) => TypeErrorModel::NoResolverAnchored(x.deep_view()),
            TypeError::ColumnComparisonNotEnabled => TypeErrorModel::ColumnComparisonNotEnabled,
            TypeError::UnknownNomenclature(x) => TypeErrorModel::UnknownNomenclature(x.deep_view()),
            TypeError::TooDeep(x) => TypeErrorModel::TooDeep(*x),
        }
    }
}

impl View for TypeError {
    type V = TypeErrorModel;

    open spec fn view(&self) -> TypeErrorModel {
        self.deep_view()
    }
}

impl Modeled for TypeError {
    fn dup(&self) -> (r: Self) {
        match self {
            TypeError::UnknownColumn(x) => TypeError::UnknownColumn(x.dup()),
            TypeError::ScopeViolation(x) => TypeError::ScopeViolation(x.dup()),
            TypeError::AtomNotAllowed(x) => TypeError::AtomNotAllowed(x.dup()),
            TypeError::TypeMismatch(x) => TypeError::TypeMismatch(x.dup()),
            TypeError::UnknownOption(x0, x1) => TypeError::UnknownOption(x0.dup(), x1.dup()),
            TypeError::UnknownField(x0, x1) => TypeError::UnknownField(x0.dup(), x1.dup()),
            TypeError::UnitMismatch(x) => TypeError::UnitMismatch(x.dup()),
            TypeError::NoResolverAnchored(x) => TypeError::NoResolverAnchored(x.dup()),
            TypeError::ColumnComparisonNotEnabled => TypeError::ColumnComparisonNotEnabled,
            TypeError::UnknownNomenclature(x) => TypeError::UnknownNomenclature(x.dup()),
            TypeError::TooDeep(x) => TypeError::TooDeep(*x),
        }
    }

    fn same(&self, other: &Self) -> (b: bool) {
        match (self, other) {
            (TypeError::UnknownColumn(x), TypeError::UnknownColumn(y)) => x.same(y),
            (TypeError::ScopeViolation(x), TypeError::ScopeViolation(y)) => x.same(y),
            (TypeError::AtomNotAllowed(x), TypeError::AtomNotAllowed(y)) => x.same(y),
            (TypeError::TypeMismatch(x), TypeError::TypeMismatch(y)) => x.same(y),
            (TypeError::UnknownOption(x0, x1), TypeError::UnknownOption(y0, y1)) => x0.same(y0) && x1.same(y1),
            (TypeError::UnknownField(x0, x1), TypeError::UnknownField(y0, y1)) => x0.same(y0) && x1.same(y1),
            (TypeError::UnitMismatch(x), TypeError::UnitMismatch(y)) => x.same(y),
            (TypeError::NoResolverAnchored(x), TypeError::NoResolverAnchored(y)) => x.same(y),
            (TypeError::ColumnComparisonNotEnabled, TypeError::ColumnComparisonNotEnabled) => true,
            (TypeError::UnknownNomenclature(x), TypeError::UnknownNomenclature(y)) => x.same(y),
            (TypeError::TooDeep(x), TypeError::TooDeep(y)) => *x == *y,
            _ => false,
        }
    }
}

/// Whether some resolver is anchored on a group.
pub open spec fn is_anchor(resolvers: Seq<ResolverDeclarationModel>, group: Seq<char>) -> bool {
    exists|i: int| 0 <= i < resolvers.len() && (#[trigger] resolvers[i]).anchor == group
}

/// Whether some row has an extra field of a name.
pub open spec fn some_row_has(rows: Seq<OptionRowModel>, field: Seq<char>) -> bool {
    exists|i: int| 0 <= i < rows.len() && row_has(#[trigger] rows[i], field)
}

/// Whether a row has an extra field of a name.
pub open spec fn row_has(row: OptionRowModel, field: Seq<char>) -> bool {
    exists|i: int| 0 <= i < row.fields.len() && (#[trigger] row.fields[i]).0 == field
}

/// Whether a number in one unit can be compared with one in another.
pub open spec fn units_compare(a: Option<Unit>, b: Option<Unit>) -> bool {
    match (a, b) {
        (None, None) => true,
        (Some(x), Some(y)) => x.spec_dimension() == y.spec_dimension(),
        _ => false,
    }
}

/// The errors of an option against a column's nomenclature.
pub open spec fn option_errors(
    column: Seq<char>,
    nref: NomenclatureRefModel,
    option: Seq<char>,
    noms: Map<(Seq<char>, u32), Seq<OptionRowModel>>,
) -> Seq<TypeErrorModel> {
    match cast::rows_of(nref, noms) {
        Err(_) => seq![TypeErrorModel::UnknownNomenclature(column)],
        Ok(rows) => if cast::has_option(rows, option) {
            Seq::empty()
        } else {
            seq![TypeErrorModel::UnknownOption(column, option)]
        },
    }
}

/// The errors of a comparison of an extra field with a constant.
pub open spec fn field_errors(
    column: Seq<char>,
    field: Seq<char>,
    ty: ScalarTypeModel,
    c: ConstModel,
    noms: Map<(Seq<char>, u32), Seq<OptionRowModel>>,
    ordered: bool,
) -> Seq<TypeErrorModel> {
    match ty {
        ScalarTypeModel::Enum(nref) => {
            let first = if ordered || !(c is Text) {
                seq![TypeErrorModel::AtomNotAllowed(column)]
            } else {
                Seq::empty()
            };
            first + match cast::rows_of(nref, noms) {
                Err(_) => seq![TypeErrorModel::UnknownNomenclature(column)],
                Ok(rows) => if some_row_has(rows, field) {
                    Seq::empty()
                } else {
                    seq![TypeErrorModel::UnknownField(column, field)]
                },
            }
        },
        _ => seq![TypeErrorModel::AtomNotAllowed(column)],
    }
}

/// The errors of a comparison of a column with a constant.
pub open spec fn constant_errors(
    column: Seq<char>,
    ty: ScalarTypeModel,
    c: ConstModel,
    noms: Map<(Seq<char>, u32), Seq<OptionRowModel>>,
    ordered: bool,
) -> Seq<TypeErrorModel> {
    match ty {
        ScalarTypeModel::Boolean => if c is Boolean && !ordered {
            Seq::empty()
        } else {
            seq![TypeErrorModel::AtomNotAllowed(column)]
        },
        ScalarTypeModel::Integer(u) => number_errors(column, u, c),
        ScalarTypeModel::Decimal(u) => number_errors(column, u, c),
        ScalarTypeModel::Date => if c is Date {
            Seq::empty()
        } else {
            seq![TypeErrorModel::TypeMismatch(column)]
        },
        ScalarTypeModel::Datetime => if c is Datetime {
            Seq::empty()
        } else {
            seq![TypeErrorModel::TypeMismatch(column)]
        },
        ScalarTypeModel::Enum(nref) => match c {
            ConstModel::Option(option) if !ordered => option_errors(column, nref, option, noms),
            _ => seq![TypeErrorModel::AtomNotAllowed(column)],
        },
        _ => seq![TypeErrorModel::AtomNotAllowed(column)],
    }
}

/// The errors of a comparison of a number column with a constant.
pub open spec fn number_errors(column: Seq<char>, u: Option<Unit>, c: ConstModel) -> Seq<
    TypeErrorModel,
> {
    match c {
        ConstModel::Number { unit, .. } => if units_compare(u, unit) {
            Seq::empty()
        } else {
            seq![TypeErrorModel::UnitMismatch(column)]
        },
        _ => seq![TypeErrorModel::TypeMismatch(column)],
    }
}

/// The errors that depend on the column's type.
pub open spec fn use_errors(
    a: AtomModel,
    info: ColumnInfoModel,
    noms: Map<(Seq<char>, u32), Seq<OptionRowModel>>,
) -> Seq<TypeErrorModel> {
    match a {
        AtomModel::Contains { source, option } => membership_errors(
            source.column,
            info,
            option,
            noms,
        ),
        AtomModel::Excludes { source, option } => membership_errors(
            source.column,
            info,
            option,
            noms,
        ),
        AtomModel::Eq { source, right } => comparison_errors(source, info, right, noms, false),
        AtomModel::NotEq { source, right } => comparison_errors(source, info, right, noms, false),
        AtomModel::Lt { source, right } => comparison_errors(source, info, right, noms, true),
        AtomModel::Le { source, right } => comparison_errors(source, info, right, noms, true),
        AtomModel::Gt { source, right } => comparison_errors(source, info, right, noms, true),
        AtomModel::Ge { source, right } => comparison_errors(source, info, right, noms, true),
        _ => Seq::empty(),
    }
}

/// The errors of a membership atom.
pub open spec fn membership_errors(
    column: Seq<char>,
    info: ColumnInfoModel,
    option: Seq<char>,
    noms: Map<(Seq<char>, u32), Seq<OptionRowModel>>,
) -> Seq<TypeErrorModel> {
    match (info.ty, info.arity) {
        (ScalarTypeModel::Enum(nref), Arity::Many) => option_errors(column, nref, option, noms),
        _ => seq![TypeErrorModel::AtomNotAllowed(column)],
    }
}

/// The errors of a comparison with a constant.
pub open spec fn comparison_errors(
    source: ColumnRefModel,
    info: ColumnInfoModel,
    right: OperandModel,
    noms: Map<(Seq<char>, u32), Seq<OptionRowModel>>,
    ordered: bool,
) -> Seq<TypeErrorModel> {
    match (right, source.field) {
        (OperandModel::Column(_), _) => Seq::empty(),
        (OperandModel::Const(c), Some(field)) => field_errors(
            source.column,
            field,
            info.ty,
            c,
            noms,
            ordered,
        ),
        (OperandModel::Const(c), None) => constant_errors(
            source.column,
            info.ty,
            c,
            noms,
            ordered,
        ),
    }
}

/// The errors of one atom.
pub open spec fn atom_errors(
    a: AtomModel,
    resolvers: Seq<ResolverDeclarationModel>,
    index: SchemaIndexModel,
    noms: Map<(Seq<char>, u32), Seq<OptionRowModel>>,
    scope: Seq<Seq<char>>,
) -> Seq<TypeErrorModel> {
    match (a.awaited(), a.source()) {
        (Some(group), _) => if is_anchor(resolvers, group) {
            Seq::empty()
        } else {
            seq![TypeErrorModel::NoResolverAnchored(group)]
        },
        (None, Some(source)) => if !index.columns.dom().contains(source.column) {
            seq![TypeErrorModel::UnknownColumn(source.column)]
        } else {
            let info = index.columns[source.column];
            let first = if info.scope.is_prefix_of(scope) {
                Seq::empty()
            } else {
                seq![TypeErrorModel::ScopeViolation(source.column)]
            };
            if a.right() matches Some(OperandModel::Column(_)) {
                first.push(TypeErrorModel::ColumnComparisonNotEnabled)
            } else {
                first + use_errors(a, info, noms)
            }
        },
        (None, None) => Seq::empty(),
    }
}

/// The errors of an expression, atom by atom.
pub open spec fn expr_errors(
    e: ExprModel,
    resolvers: Seq<ResolverDeclarationModel>,
    index: SchemaIndexModel,
    noms: Map<(Seq<char>, u32), Seq<OptionRowModel>>,
    scope: Seq<Seq<char>>,
) -> Seq<TypeErrorModel>
    decreases e,
{
    match e {
        ExprModel::And(s) => all_errors(s, resolvers, index, noms, scope),
        ExprModel::Or(s) => all_errors(s, resolvers, index, noms, scope),
        ExprModel::Atom(a) => atom_errors(a, resolvers, index, noms, scope),
    }
}

/// The errors of some expressions, in order.
pub open spec fn all_errors(
    s: Seq<ExprModel>,
    resolvers: Seq<ResolverDeclarationModel>,
    index: SchemaIndexModel,
    noms: Map<(Seq<char>, u32), Seq<OptionRowModel>>,
    scope: Seq<Seq<char>>,
) -> Seq<TypeErrorModel>
    decreases s,
{
    if s.len() == 0 {
        Seq::empty()
    } else {
        all_errors(s.drop_last(), resolvers, index, noms, scope) + expr_errors(
            s.last(),
            resolvers,
            index,
            noms,
            scope,
        )
    }
}

/// The errors of a rule that stands at a scope. One that nests too deep
/// is refused for that alone.
pub open spec fn rule_errors(
    e: ExprModel,
    schema: SchemaModel,
    noms: Map<(Seq<char>, u32), Seq<OptionRowModel>>,
    scope: Seq<Seq<char>>,
) -> Seq<TypeErrorModel> {
    if logic::depth_of(e) > MAX_DEPTH {
        seq![TypeErrorModel::TooDeep(logic::in_word(logic::depth_of(e)) as usize)]
    } else {
        expr_errors(e, schema.resolvers, conformance::schema_index(schema), noms, scope)
    }
}

fn has_anchor(resolvers: &Vec<ResolverDeclaration>, group: &GroupId) -> (r: bool)
    ensures
        r == is_anchor(resolvers.deep_view(), group@),
{
    let mut i: usize = 0;
    while i < resolvers.len()
        invariant
            i <= resolvers@.len(),
            forall|j: int|
                0 <= j < i ==> (#[trigger] resolvers.deep_view()[j]).anchor != group@,
        decreases resolvers@.len() - i,
    {
        assert(resolvers.deep_view()[i as int] == resolvers@[i as int]@);
        if resolvers[i].anchor.same(group) {
            return true;
        }
        i += 1;
    }
    false
}

fn row_has_field(row: &OptionRow, field: &str) -> (r: bool)
    ensures
        r == row_has(row@, field@),
{
    let mut i: usize = 0;
    while i < row.fields.len()
        invariant
            i <= row.fields@.len(),
            forall|j: int| 0 <= j < i ==> (#[trigger] row@.fields[j]).0 != field@,
        decreases row.fields@.len() - i,
    {
        assert(row@.fields[i as int].0 == row.fields@[i as int].0@);
        if same_text(row.fields[i].0.as_str(), field) {
            return true;
        }
        i += 1;
    }
    false
}

fn some_row_has_field(rows: &Vec<OptionRow>, field: &str) -> (r: bool)
    ensures
        r == some_row_has(rows.deep_view(), field@),
{
    let mut i: usize = 0;
    while i < rows.len()
        invariant
            i <= rows@.len(),
            forall|j: int| 0 <= j < i ==> !row_has(#[trigger] rows.deep_view()[j], field@),
        decreases rows@.len() - i,
    {
        assert(rows.deep_view()[i as int] == rows@[i as int]@);
        if row_has_field(&rows[i], field) {
            return true;
        }
        i += 1;
    }
    false
}

fn units_compatible(column: Option<Unit>, constant: Option<Unit>) -> (r: bool)
    ensures
        r == units_compare(column, constant),
{
    match (column, constant) {
        (None, None) => true,
        (Some(a), Some(b)) => a.dimension() == b.dimension(),
        _ => false,
    }
}

fn check_option(
    column: &ColumnId,
    nref: &NomenclatureRef,
    option: &OptionId,
    nomenclatures: &NomenclatureTable,
    errors: &mut Vec<TypeError>,
)
    ensures
        final(errors).deep_view() == old(errors).deep_view() + option_errors(
            column@,
            nref@,
            option@,
            nomenclatures@,
        ),
{
    let ghost had = errors.deep_view();
    match nomenclature_rows(nref, nomenclatures) {
        Err(_) => {
            errors.push(TypeError::UnknownNomenclature(column.dup()));
            assert(errors.deep_view() =~= had + seq![TypeErrorModel::UnknownNomenclature(column@)]);
        },
        Ok(rows) => {
            if !row_has_option(rows, option) {
                errors.push(TypeError::UnknownOption(column.dup(), option.dup()));
                assert(errors.deep_view() =~= had + seq![
                    TypeErrorModel::UnknownOption(column@, option@),
                ]);
            } else {
                assert(had =~= had + Seq::<TypeErrorModel>::empty());
            }
        },
    }
}

fn not_allowed(column: &ColumnId, errors: &mut Vec<TypeError>)
    ensures
        final(errors).deep_view() == old(errors).deep_view() + seq![
            TypeErrorModel::AtomNotAllowed(column@),
        ],
{
    let ghost had = errors.deep_view();
    errors.push(TypeError::AtomNotAllowed(column.dup()));
    assert(errors.deep_view() =~= had + seq![TypeErrorModel::AtomNotAllowed(column@)]);
}

fn mismatch(column: &ColumnId, errors: &mut Vec<TypeError>)
    ensures
        final(errors).deep_view() == old(errors).deep_view() + seq![
            TypeErrorModel::TypeMismatch(column@),
        ],
{
    let ghost had = errors.deep_view();
    errors.push(TypeError::TypeMismatch(column.dup()));
    assert(errors.deep_view() =~= had + seq![TypeErrorModel::TypeMismatch(column@)]);
}

fn check_field(
    column: &ColumnId,
    field: &String,
    ty: &ScalarType,
    constant: &Const,
    nomenclatures: &NomenclatureTable,
    ordered: bool,
    errors: &mut Vec<TypeError>,
)
    ensures
        final(errors).deep_view() == old(errors).deep_view() + field_errors(
            column@,
            field@,
            ty@,
            constant@,
            nomenclatures@,
            ordered,
        ),
{
    let nref = match ty {
        ScalarType::Enum(n) => n,
        _ => {
            not_allowed(column, errors);
            return;
        },
    };
    let is_text = match constant {
        Const::Text(_) => true,
        _ => false,
    };
    let ghost start = errors.deep_view();
    if ordered || !is_text {
        not_allowed(column, errors);
    }
    let ghost had = errors.deep_view();
    let ghost first = if ordered || !is_text {
        seq![TypeErrorModel::AtomNotAllowed(column@)]
    } else {
        Seq::empty()
    };
    assert(had =~= start + first);
    match nomenclature_rows(nref, nomenclatures) {
        Err(_) => {
            errors.push(TypeError::UnknownNomenclature(column.dup()));
            assert(errors.deep_view() =~= had.push(TypeErrorModel::UnknownNomenclature(column@)));
            assert(errors.deep_view() =~= start + (first + seq![
                TypeErrorModel::UnknownNomenclature(column@),
            ]));
        },
        Ok(rows) => {
            if !some_row_has_field(rows, field.as_str()) {
                errors.push(TypeError::UnknownField(column.dup(), field.dup()));
                assert(errors.deep_view() =~= had.push(
                    TypeErrorModel::UnknownField(column@, field@),
                ));
                assert(errors.deep_view() =~= start + (first + seq![
                    TypeErrorModel::UnknownField(column@, field@),
                ]));
            } else {
                assert(first + Seq::<TypeErrorModel>::empty() =~= first);
            }
        },
    }
}

fn check_number(
    column: &ColumnId,
    unit: Option<Unit>,
    constant: &Const,
    errors: &mut Vec<TypeError>,
)
    ensures
        final(errors).deep_view() == old(errors).deep_view() + number_errors(
            column@,
            unit,
            constant@,
        ),
{
    let ghost had = errors.deep_view();
    match constant {
        Const::Number { value: _, unit: u } => {
            if !units_compatible(unit, *u) {
                errors.push(TypeError::UnitMismatch(column.dup()));
                assert(errors.deep_view() =~= had + seq![TypeErrorModel::UnitMismatch(column@)]);
            } else {
                assert(had =~= had + Seq::<TypeErrorModel>::empty());
            }
        },
        _ => mismatch(column, errors),
    }
}

fn check_constant(
    column: &ColumnId,
    ty: &ScalarType,
    constant: &Const,
    nomenclatures: &NomenclatureTable,
    ordered: bool,
    errors: &mut Vec<TypeError>,
)
    ensures
        final(errors).deep_view() == old(errors).deep_view() + constant_errors(
            column@,
            ty@,
            constant@,
            nomenclatures@,
            ordered,
        ),
{
    let ghost had = errors.deep_view();
    assert(had =~= had + Seq::<TypeErrorModel>::empty());
    match ty {
        ScalarType::Boolean => {
            let fits = match constant {
                Const::Boolean(_) => true,
                _ => false,
            };
            if ordered || !fits {
                not_allowed(column, errors);
            }
        },
        ScalarType::Integer(u) => check_number(column, *u, constant, errors),
        ScalarType::Decimal(u) => check_number(column, *u, constant, errors),
        ScalarType::Date => match constant {
            Const::Date(_) => {},
            _ => mismatch(column, errors),
        },
        ScalarType::Datetime => match constant {
            Const::Datetime(_) => {},
            _ => mismatch(column, errors),
        },
        ScalarType::Enum(nref) => {
            if ordered {
                not_allowed(column, errors);
            } else {
                match constant {
                    Const::Option(option) => check_option(
                        column,
                        nref,
                        option,
                        nomenclatures,
                        errors,
                    ),
                    _ => not_allowed(column, errors),
                }
            }
        },
        _ => not_allowed(column, errors),
    }
}

fn check_comparison(
    source: &ColumnRef,
    info: &ColumnInfo,
    right: &Operand,
    nomenclatures: &NomenclatureTable,
    ordered: bool,
    errors: &mut Vec<TypeError>,
)
    ensures
        final(errors).deep_view() == old(errors).deep_view() + comparison_errors(
            source@,
            info@,
            right@,
            nomenclatures@,
            ordered,
        ),
{
    match right {
        Operand::Column(_) => {
            assert(errors.deep_view() =~= errors.deep_view() + Seq::<TypeErrorModel>::empty());
        },
        Operand::Const(c) => match &source.field {
            Some(field) => check_field(
                &source.column,
                field,
                &info.ty,
                c,
                nomenclatures,
                ordered,
                errors,
            ),
            None => check_constant(&source.column, &info.ty, c, nomenclatures, ordered, errors),
        },
    }
}

fn check_membership(
    column: &ColumnId,
    info: &ColumnInfo,
    option: &OptionId,
    nomenclatures: &NomenclatureTable,
    errors: &mut Vec<TypeError>,
)
    ensures
        final(errors).deep_view() == old(errors).deep_view() + membership_errors(
            column@,
            info@,
            option@,
            nomenclatures@,
        ),
{
    match (&info.ty, info.arity) {
        (ScalarType::Enum(nref), Arity::Many) => check_option(
            column,
            nref,
            option,
            nomenclatures,
            errors,
        ),
        _ => not_allowed(column, errors),
    }
}

fn check_use(
    atom: &Atom,
    info: &ColumnInfo,
    nomenclatures: &NomenclatureTable,
    errors: &mut Vec<TypeError>,
)
    ensures
        final(errors).deep_view() == old(errors).deep_view() + use_errors(
            atom@,
            info@,
            nomenclatures@,
        ),
{
    assert(errors.deep_view() =~= errors.deep_view() + Seq::<TypeErrorModel>::empty());
    match atom {
        Atom::Contains { source, option } => check_membership(
            &source.column,
            info,
            option,
            nomenclatures,
            errors,
        ),
        Atom::Excludes { source, option } => check_membership(
            &source.column,
            info,
            option,
            nomenclatures,
            errors,
        ),
        Atom::Eq { source, right } => check_comparison(
            source,
            info,
            right,
            nomenclatures,
            false,
            errors,
        ),
        Atom::NotEq { source, right } => check_comparison(
            source,
            info,
            right,
            nomenclatures,
            false,
            errors,
        ),
        Atom::Lt { source, right } => check_comparison(
            source,
            info,
            right,
            nomenclatures,
            true,
            errors,
        ),
        Atom::Le { source, right } => check_comparison(
            source,
            info,
            right,
            nomenclatures,
            true,
            errors,
        ),
        Atom::Gt { source, right } => check_comparison(
            source,
            info,
            right,
            nomenclatures,
            true,
            errors,
        ),
        Atom::Ge { source, right } => check_comparison(
            source,
            info,
            right,
            nomenclatures,
            true,
            errors,
        ),
        _ => {},
    }
}

/// Whether a scope lies within another.
fn scope_covers(outer: &Vec<GroupId>, scope: &[GroupId]) -> (r: bool)
    ensures
        r == outer.deep_view().is_prefix_of(order::models(scope@)),
{
    let n = outer.len();
    if n > scope.len() {
        return false;
    }
    let mut i: usize = 0;
    while i < n
        invariant
            i <= n == outer@.len(),
            n <= scope@.len(),
            forall|j: int|
                0 <= j < i ==> (#[trigger] outer.deep_view()[j]) == order::models(scope@)[j],
        decreases n - i,
    {
        assert(outer.deep_view()[i as int] == outer@[i as int]@);
        assert(order::models(scope@)[i as int] == scope@[i as int].deep_view());
        if !outer[i].same(&scope[i]) {
            assert(outer.deep_view()[i as int] != order::models(scope@)[i as int]);
            assert(order::models(scope@).subrange(0, n as int)[i as int] == order::models(scope@)[i as int]);
            return false;
        }
        i += 1;
    }
    assert(outer.deep_view() =~= order::models(scope@).subrange(0, n as int));
    true
}

fn check_atom(
    atom: &Atom,
    resolvers: &Vec<ResolverDeclaration>,
    index: &SchemaIndex,
    nomenclatures: &NomenclatureTable,
    scope: &[GroupId],
    errors: &mut Vec<TypeError>,
)
    ensures
        final(errors).deep_view() == old(errors).deep_view() + atom_errors(
            atom@,
            resolvers.deep_view(),
            index@,
            nomenclatures@,
            order::models(scope@),
        ),
{
    let ghost start = errors.deep_view();
    assert(start =~= start + Seq::<TypeErrorModel>::empty());
    let awaited = match atom {
        Atom::Pending { group } => Some(group),
        Atom::NotPending { group } => Some(group),
        _ => None,
    };
    if let Some(group) = awaited {
        if !has_anchor(resolvers, group) {
            errors.push(TypeError::NoResolverAnchored(group.dup()));
            assert(errors.deep_view() =~= start + seq![
                TypeErrorModel::NoResolverAnchored(group@),
            ]);
        }
        return;
    }
    let source = match atom.source() {
        Some(s) => s,
        None => {
            return;
        },
    };
    let info = match index.columns.get(&source.column) {
        Some(i) => i,
        None => {
            errors.push(TypeError::UnknownColumn(source.column.dup()));
            assert(errors.deep_view() =~= start + seq![
                TypeErrorModel::UnknownColumn(source.column@),
            ]);
            return;
        },
    };
    let visible = scope_covers(&info.scope, scope);
    let ghost first = if visible {
        Seq::empty()
    } else {
        seq![TypeErrorModel::ScopeViolation(source.column@)]
    };
    if !visible {
        errors.push(TypeError::ScopeViolation(source.column.dup()));
    }
    assert(errors.deep_view() =~= start + first);
    let ghost had = errors.deep_view();
    if atom.right_column().is_some() {
        errors.push(TypeError::ColumnComparisonNotEnabled);
        assert(errors.deep_view() =~= start + first.push(
            TypeErrorModel::ColumnComparisonNotEnabled,
        ));
        return;
    }
    check_use(atom, info, nomenclatures, errors);
    assert(errors.deep_view() =~= start + (first + use_errors(atom@, info@, nomenclatures@)));
}

fn walk_all(
    v: &Vec<Expr>,
    resolvers: &Vec<ResolverDeclaration>,
    index: &SchemaIndex,
    nomenclatures: &NomenclatureTable,
    scope: &[GroupId],
    errors: &mut Vec<TypeError>,
)
    ensures
        final(errors).deep_view() == old(errors).deep_view() + all_errors(
            logic::exprs_model(v@),
            resolvers.deep_view(),
            index@,
            nomenclatures@,
            order::models(scope@),
        ),
    decreases v,
{
    let ghost m = logic::exprs_model(v@);
    let ghost start = errors.deep_view();
    let mut i: usize = 0;
    assert(m.take(0) =~= Seq::<ExprModel>::empty());
    assert(start =~= start + Seq::<TypeErrorModel>::empty());
    while i < v.len()
        invariant
            i <= v@.len(),
            m == logic::exprs_model(v@),
            start == old(errors).deep_view(),
            errors.deep_view() == start + all_errors(
                m.take(i as int),
                resolvers.deep_view(),
                index@,
                nomenclatures@,
                order::models(scope@),
            ),
        decreases v@.len() - i,
    {
        let ghost so_far = all_errors(
            m.take(i as int),
            resolvers.deep_view(),
            index@,
            nomenclatures@,
            order::models(scope@),
        );
        walk(&v[i], resolvers, index, nomenclatures, scope, errors);
        proof {
            assert(m.take(i + 1).drop_last() =~= m.take(i as int));
            assert(m.take(i + 1).last() == v@[i as int]@);
            let here = expr_errors(
                m[i as int],
                resolvers.deep_view(),
                index@,
                nomenclatures@,
                order::models(scope@),
            );
            assert(start + so_far + here =~= start + (so_far + here));
        }
        i += 1;
    }
    assert(m.take(m.len() as int) =~= m);
}

fn walk(
    expr: &Expr,
    resolvers: &Vec<ResolverDeclaration>,
    index: &SchemaIndex,
    nomenclatures: &NomenclatureTable,
    scope: &[GroupId],
    errors: &mut Vec<TypeError>,
)
    ensures
        final(errors).deep_view() == old(errors).deep_view() + expr_errors(
            expr@,
            resolvers.deep_view(),
            index@,
            nomenclatures@,
            order::models(scope@),
        ),
    decreases expr,
{
    match expr {
        Expr::And(v) => walk_all(v, resolvers, index, nomenclatures, scope, errors),
        Expr::Or(v) => walk_all(v, resolvers, index, nomenclatures, scope, errors),
        Expr::Atom(a) => check_atom(a, resolvers, index, nomenclatures, scope, errors),
    }
}

/// Checks a rule that stands at `scope` (the chain of `many` groups;
/// none for the record itself) against a schema.
pub fn typecheck(
    expr: &Expr,
    schema: &Schema,
    nomenclatures: &NomenclatureTable,
    scope: &[GroupId],
) -> (r: Vec<TypeError>)
    ensures
        r.deep_view() == rule_errors(expr@, schema@, nomenclatures@, order::models(scope@)),
{
    let mut errors: Vec<TypeError> = Vec::new();
    let depth = expr.depth();
    if depth > MAX_DEPTH {
        errors.push(TypeError::TooDeep(depth));
        assert(errors.deep_view() =~= seq![TypeErrorModel::TooDeep(depth)]);
        return errors;
    }
    let index = SchemaIndex::build(schema);
    walk(expr, &schema.resolvers, &index, nomenclatures, scope, &mut errors);
    assert(errors.deep_view() =~= rule_errors(expr@, schema@, nomenclatures@, order::models(scope@)));
    errors
}

/// Whether a column is one that a rule at a scope may read.
pub open spec fn is_readable(
    column: Seq<char>,
    index: SchemaIndexModel,
    scope: Seq<Seq<char>>,
) -> bool {
    index.columns.dom().contains(column) && index.columns[column].scope.is_prefix_of(scope)
}

proof fn all_accepted_read_in_scope(
    s: Seq<ExprModel>,
    resolvers: Seq<ResolverDeclarationModel>,
    index: SchemaIndexModel,
    noms: Map<(Seq<char>, u32), Seq<OptionRowModel>>,
    scope: Seq<Seq<char>>,
    column: Seq<char>,
)
    requires
        all_errors(s, resolvers, index, noms, scope).len() == 0,
        logic::all_read(s).contains(column),
    ensures
        is_readable(column, index, scope),
    decreases s,
{
    if s.len() > 0 {
        if logic::reads(s.last()).contains(column) {
            accepted_read_in_scope(s.last(), resolvers, index, noms, scope, column);
        } else {
            all_accepted_read_in_scope(s.drop_last(), resolvers, index, noms, scope, column);
        }
    }
}

proof fn accepted_read_in_scope(
    e: ExprModel,
    resolvers: Seq<ResolverDeclarationModel>,
    index: SchemaIndexModel,
    noms: Map<(Seq<char>, u32), Seq<OptionRowModel>>,
    scope: Seq<Seq<char>>,
    column: Seq<char>,
)
    requires
        expr_errors(e, resolvers, index, noms, scope).len() == 0,
        logic::reads(e).contains(column),
    ensures
        is_readable(column, index, scope),
    decreases e,
{
    match e {
        ExprModel::And(s) => all_accepted_read_in_scope(s, resolvers, index, noms, scope, column),
        ExprModel::Or(s) => all_accepted_read_in_scope(s, resolvers, index, noms, scope, column),
        ExprModel::Atom(a) => {},
    }
}

/// An accepted rule reads only columns that the schema has and that are
/// in scope where the rule stands.
pub proof fn accepted_rules_read_in_scope(
    e: ExprModel,
    schema: SchemaModel,
    noms: Map<(Seq<char>, u32), Seq<OptionRowModel>>,
    scope: Seq<Seq<char>>,
    column: Seq<char>,
)
    requires
        rule_errors(e, schema, noms, scope).len() == 0,
        logic::reads(e).contains(column),
    ensures
        is_readable(column, conformance::schema_index(schema), scope),
{
    accepted_read_in_scope(e, schema.resolvers, conformance::schema_index(schema), noms, scope, column);
}

proof fn all_accepted_await_resolvers(
    s: Seq<ExprModel>,
    resolvers: Seq<ResolverDeclarationModel>,
    index: SchemaIndexModel,
    noms: Map<(Seq<char>, u32), Seq<OptionRowModel>>,
    scope: Seq<Seq<char>>,
    group: Seq<char>,
)
    requires
        all_errors(s, resolvers, index, noms, scope).len() == 0,
        logic::all_await(s).contains(group),
    ensures
        is_anchor(resolvers, group),
    decreases s,
{
    if s.len() > 0 {
        if logic::awaits(s.last()).contains(group) {
            accepted_await_resolvers(s.last(), resolvers, index, noms, scope, group);
        } else {
            all_accepted_await_resolvers(s.drop_last(), resolvers, index, noms, scope, group);
        }
    }
}

proof fn accepted_await_resolvers(
    e: ExprModel,
    resolvers: Seq<ResolverDeclarationModel>,
    index: SchemaIndexModel,
    noms: Map<(Seq<char>, u32), Seq<OptionRowModel>>,
    scope: Seq<Seq<char>>,
    group: Seq<char>,
)
    requires
        expr_errors(e, resolvers, index, noms, scope).len() == 0,
        logic::awaits(e).contains(group),
    ensures
        is_anchor(resolvers, group),
    decreases e,
{
    match e {
        ExprModel::And(s) => all_accepted_await_resolvers(
            s,
            resolvers,
            index,
            noms,
            scope,
            group,
        ),
        ExprModel::Or(s) => all_accepted_await_resolvers(
            s,
            resolvers,
            index,
            noms,
            scope,
            group,
        ),
        ExprModel::Atom(a) => {},
    }
}

/// An accepted rule waits only for groups that a resolver is anchored at.
pub proof fn accepted_rules_await_resolvers(
    e: ExprModel,
    schema: SchemaModel,
    noms: Map<(Seq<char>, u32), Seq<OptionRowModel>>,
    scope: Seq<Seq<char>>,
    group: Seq<char>,
)
    requires
        rule_errors(e, schema, noms, scope).len() == 0,
        logic::awaits(e).contains(group),
    ensures
        is_anchor(schema.resolvers, group),
{
    accepted_await_resolvers(e, schema.resolvers, conformance::schema_index(schema), noms, scope, group);
}

} // verus!
