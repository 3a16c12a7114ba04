//! The evaluator of rules: total and two-valued.
//!
//! A negative atom is an atom of its own, not a negation: on an absent
//! source `not_eq` is as false as `eq`.

use vstd::prelude::*;
use crate::cast;
use crate::collections;
use crate::decimal;
use crate::logic;
use crate::order;
use crate::table;
use crate::time;
use crate::canonical::same_text;
use crate::cast::{NomenclatureTable, find_row, nomenclature_rows};
use crate::collections::OrderedSet;
use crate::conformance::{ColumnInfo, SchemaIndex, SchemaIndexModel};
use crate::decimal::{Decimal, DecimalModel};
use crate::ids::{ColumnId, GroupId, OptionId, PathSegModel, RowPath};
use crate::logic::{
    Atom, AtomModel, ColumnRef, ColumnRefModel, Const, ConstModel, Expr, ExprModel, Operand,
    OperandModel,
};
use crate::order::{Key, Modeled, Order, compare_text, contains_model};
use crate::schema::{Column, OptionRowModel, ScalarType, ScalarTypeModel, Unit};
use crate::table::scope_prefix;
use crate::time::Date;
use crate::value::{
    CellAddr, CellAddrModel, CellState, CellStateModel, CellValue, CellValueModel, RecordValues,
    RecordValuesModel, Scalar, ScalarModel,
};

verus! {

/// Pending resolutions as pairs of row path and anchor group.
pub type PendingSet = OrderedSet<(RowPath, GroupId)>;

/// What an expression is evaluated against.
pub struct EvalContext<'a> {
    pub index: &'a SchemaIndex,
    pub nomenclatures: &'a NomenclatureTable,
    pub values: &'a RecordValues,
    /// The item at hand; the root path for the record itself.
    pub item: RowPath,
    /// Columns hidden by other rules: they read as absent.
    pub hidden: OrderedSet<ColumnId>,
    /// An item sees its own pending resolutions and those of what
    /// encloses it, never a sibling's.
    pub pending: PendingSet,
}

/// The model of [`EvalContext`].
#[verifier::ext_equal]
pub struct EvalContextModel {
    pub index: SchemaIndexModel,
    pub nomenclatures: Map<(Seq<char>, u32), Seq<OptionRowModel>>,
    pub values: RecordValuesModel,
    pub item: Seq<PathSegModel>,
    pub hidden: Set<Seq<char>>,
    pub pending: Set<(Seq<PathSegModel>, Seq<char>)>,
}

impl<'a> View for EvalContext<'a> {
    type V = EvalContextModel;

    open spec fn view(&self) -> EvalContextModel {
        EvalContextModel {
            index: self.index@,
            nomenclatures: self.nomenclatures@,
            values: self.values@,
            item: self.item@,
            hidden: self.hidden@,
            pending: self.pending@,
        }
    }
}

/// Whether a resolution that feeds a group is pending at the item or at
/// what encloses it.
pub open spec fn awaited_here(ctx: EvalContextModel, group: Seq<char>) -> bool {
    exists|scope: Seq<PathSegModel>| #[trigger]
        ctx.pending.contains((scope, group)) && scope.is_prefix_of(ctx.item)
}

fn is_pending(ctx: &EvalContext, group: &GroupId) -> (r: bool)
    ensures
        r == awaited_here(ctx@, group@),
{
    let n = ctx.pending.len();
    let ghost items = ctx.pending.items();
    let mut i: usize = 0;
    while i < n
        invariant
            i <= n == items.len(),
            items == ctx.pending.items(),
            collections::lists::<(RowPath, GroupId)>(items, ctx@.pending),
            forall|j: int|
                0 <= j < i ==> !((#[trigger] items[j]).1 == group@ && items[j].0.is_prefix_of(
                    ctx@.item,
                )),
        decreases n - i,
    {
        let p = ctx.pending.at(i);
        if p.1.same(group) && ctx.item.starts_with(&p.0) {
            assert(ctx@.pending.contains((p.0@, group@)));
            return true;
        }
        i += 1;
    }
    proof {
        assert forall|scope: Seq<PathSegModel>| #[trigger]
            ctx@.pending.contains((scope, group@)) implies !scope.is_prefix_of(ctx@.item) by {
            assert(items.contains((scope, group@)));
            let j = choose|j: int| 0 <= j < items.len() && items[j] == (scope, group@);
            assert(items[j].1 == group@);
        }
    }
    false
}

/// The value that a column shows at the item: nothing where it is
/// hidden, unknown, out of scope, absent, empty or an empty list.
pub open spec fn value_read(ctx: EvalContextModel, column: Seq<char>) -> Option<CellValueModel> {
    if ctx.hidden.contains(column) || !ctx.index.columns.dom().contains(column) {
        None
    } else {
        let scope = ctx.index.columns[column].scope;
        let addr = CellAddrModel { column, path: ctx.item.take(scope.len() as int) };
        if !table::is_below(scope, ctx.item) || !ctx.values.cells.dom().contains(addr) {
            None
        } else {
            match ctx.values.cells[addr] {
                CellStateModel::Empty => None,
                CellStateModel::Value(CellValueModel::Many(l)) if l.len() == 0 => None,
                CellStateModel::Value(v) => Some(v),
            }
        }
    }
}

fn read<'a>(source: &ColumnRef, ctx: &EvalContext<'a>) -> (r: Option<&'a CellValue>)
    ensures
        match r {
            Some(v) => value_read(ctx@, source@.column) == Some(v@),
            None => value_read(ctx@, source@.column) is None,
        },
{
    if ctx.hidden.contains(&source.column) {
        return None;
    }
    let info = match ctx.index.columns.get(&source.column) {
        Some(i) => i,
        None => {
            return None;
        },
    };
    let path = match scope_prefix(&info.scope, &ctx.item) {
        Some(p) => p,
        None => {
            return None;
        },
    };
    let addr = CellAddr { column: source.column.dup(), path };
    match ctx.values.cells.get(&addr) {
        None => None,
        Some(CellState::Empty) => None,
        Some(CellState::Value(v)) => {
            if let CellValue::Many(l) = v {
                if l.len() == 0 {
                    return None;
                }
            }
            Some(v)
        },
    }
}

/// Two numbers compared, both brought to the base unit of their
/// dimension: exactly, whatever their size.
pub open spec fn numbers_compared(
    a: DecimalModel,
    a_unit: Option<Unit>,
    b: DecimalModel,
    b_unit: Option<Unit>,
) -> Option<Order> {
    match (a_unit, b_unit) {
        (None, None) => Some(decimal::decimal_order(a, b)),
        (Some(ua), Some(ub)) => if ua.spec_dimension() == ub.spec_dimension() {
            Some(
                decimal::decimal_order(
                    decimal::times(a, ua.spec_factor() as nat),
                    decimal::times(b, ub.spec_factor() as nat),
                ),
            )
        } else {
            None
        },
        _ => None,
    }
}

fn compare_numbers(a: &Decimal, a_unit: Option<Unit>, b: &Decimal, b_unit: Option<Unit>) -> (r:
    Option<Order>)
    ensures
        r == numbers_compared(a@, a_unit, b@, b_unit),
{
    match (a_unit, b_unit) {
        (None, None) => Some(a.compare(b)),
        (Some(ua), Some(ub)) => {
            if ua.dimension() == ub.dimension() {
                Some(a.compare_times(ua.factor(), b, ub.factor()))
            } else {
                None
            }
        },
        _ => None,
    }
}

/// The value of a row's extra field: that of the first pair with its
/// name.
pub open spec fn field_value(fields: Seq<(Seq<char>, Seq<char>)>, name: Seq<char>) -> Option<
    Seq<char>,
>
    decreases fields.len(),
{
    if fields.len() == 0 {
        None
    } else if fields[0].0 == name {
        Some(fields[0].1)
    } else {
        field_value(fields.drop_first(), name)
    }
}

fn find_extra<'a>(fields: &'a Vec<(String, String)>, name: &str) -> (r: Option<&'a String>)
    ensures
        match r {
            Some(v) => field_value(fields.deep_view(), name@) == Some(v@),
            None => field_value(fields.deep_view(), name@) is None,
        },
{
    let ghost s = fields.deep_view();
    let mut i: usize = 0;
    assert(s.skip(0) =~= s);
    while i < fields.len()
        invariant
            i <= fields@.len(),
            s == fields.deep_view(),
            field_value(s, name@) == field_value(s.skip(i as int), name@),
        decreases fields@.len() - i,
    {
        let f = &fields[i];
        proof {
            assert(s.skip(i as int)[0] == f.deep_view());
            assert(s.skip(i as int).drop_first() =~= s.skip(i + 1));
        }
        if same_text(f.0.as_str(), name) {
            return Some(&f.1);
        }
        i += 1;
    }
    None
}

/// An option's extra field compared with a text.
pub open spec fn field_compared(
    ctx: EvalContextModel,
    column: Seq<char>,
    field: Seq<char>,
    s: ScalarModel,
    c: ConstModel,
) -> Option<Order> {
    match (s, ctx.index.columns[column].ty, c) {
        (
            ScalarModel::Enum(id),
            ScalarTypeModel::Enum(nref),
            ConstModel::Text(expected),
        ) => match cast::rows_of(nref, ctx.nomenclatures) {
            Ok(rows) => match cast::row_of(rows, id) {
                Some(row) => match field_value(row.fields, field) {
                    Some(v) => Some(order::text_order(v, expected)),
                    None => None,
                },
                None => None,
            },
            Err(_) => None,
        },
        _ => None,
    }
}

/// The unit of a number column.
pub open spec fn column_unit(ty: ScalarTypeModel) -> Option<Option<Unit>> {
    match ty {
        ScalarTypeModel::Integer(u) => Some(u),
        ScalarTypeModel::Decimal(u) => Some(u),
        _ => None,
    }
}

/// A scalar compared with a constant of its kind.
pub open spec fn scalar_compared(ty: ScalarTypeModel, s: ScalarModel, c: ConstModel) -> Option<
    Order,
> {
    match (s, c) {
        (ScalarModel::Boolean(a), ConstModel::Boolean(b)) => Some(bool_order(a, b)),
        (ScalarModel::Integer(a), ConstModel::Number { value, unit }) => match column_unit(ty) {
            Some(u) => numbers_compared(
                DecimalModel { mantissa: a as int, scale: 0 },
                u,
                value,
                unit,
            ),
            None => None,
        },
        (ScalarModel::Decimal(a), ConstModel::Number { value, unit }) => match column_unit(ty) {
            Some(u) => numbers_compared(a, u, value, unit),
            None => None,
        },
        (ScalarModel::Date(a), ConstModel::Date(b)) => Some(time::date_order(a, b)),
        (ScalarModel::Datetime(a), ConstModel::Datetime(b)) => Some(time::number_order(a, b)),
        (ScalarModel::Enum(a), ConstModel::Option(b)) => Some(order::text_order(a, b)),
        _ => None,
    }
}

/// The order of truth values: false before true.
pub open spec fn bool_order(a: bool, b: bool) -> Order {
    if a == b {
        Order::Equal
    } else if b {
        Order::Less
    } else {
        Order::Greater
    }
}

/// How a source stands to the right side of a comparison; nothing where
/// the two cannot be compared.
pub open spec fn compared(
    ctx: EvalContextModel,
    source: ColumnRefModel,
    right: OperandModel,
) -> Option<Order> {
    match (right, value_read(ctx, source.column)) {
        (OperandModel::Const(c), Some(CellValueModel::One(s))) => match source.field {
            Some(field) => field_compared(ctx, source.column, field, s, c),
            None => scalar_compared(ctx.index.columns[source.column].ty, s, c),
        },
        _ => None,
    }
}

fn compare_field(
    ctx: &EvalContext,
    info: &ColumnInfo,
    field: &String,
    s: &Scalar,
    c: &Const,
) -> (r: Option<Order>)
    ensures
        forall|column: Seq<char>|
            ctx@.index.columns.dom().contains(column) && #[trigger] ctx@.index.columns[column]
                == info@ ==> r == field_compared(ctx@, column, field@, s@, c@),
{
    let id = match s {
        Scalar::Enum(id) => id,
        _ => {
            return None;
        },
    };
    let nref = match &info.ty {
        ScalarType::Enum(n) => n,
        _ => {
            return None;
        },
    };
    let expected = match c {
        Const::Text(t) => t,
        _ => {
            return None;
        },
    };
    let rows = match nomenclature_rows(nref, ctx.nomenclatures) {
        Ok(rows) => rows,
        Err(_) => {
            return None;
        },
    };
    let row = match find_row(rows, id) {
        Some(row) => row,
        None => {
            return None;
        },
    };
    match find_extra(&row.fields, field.as_str()) {
        Some(v) => Some(compare_text(v.as_str(), expected.as_str())),
        None => None,
    }
}

fn compare_scalar(ty: &ScalarType, s: &Scalar, c: &Const) -> (r: Option<Order>)
    ensures
        r == scalar_compared(ty@, s@, c@),
{
    let unit = match ty {
        ScalarType::Integer(u) => Some(*u),
        ScalarType::Decimal(u) => Some(*u),
        _ => None,
    };
    match (s, c) {
        (Scalar::Boolean(a), Const::Boolean(b)) => Some(
            if *a == *b {
                Order::Equal
            } else if *b {
                Order::Less
            } else {
                Order::Greater
            },
        ),
        (Scalar::Integer(a), Const::Number { value, unit: v }) => match unit {
            Some(u) => compare_numbers(&Decimal::from_i64(*a), u, value, *v),
            None => None,
        },
        (Scalar::Decimal(a), Const::Number { value, unit: v }) => match unit {
            Some(u) => compare_numbers(a, u, value, *v),
            None => None,
        },
        (Scalar::Date(a), Const::Date(b)) => Some(a.compare(b)),
        (Scalar::Datetime(a), Const::Datetime(b)) => Some(a.compare(b)),
        (Scalar::Enum(a), Const::Option(b)) => Some(compare_text(a.as_str(), b.as_str())),
        _ => None,
    }
}

/// Compares a source with the right side of a comparison.
pub fn compare_source(source: &ColumnRef, right: &Operand, ctx: &EvalContext) -> (r: Option<Order>)
    ensures
        r == compared(ctx@, source@, right@),
{
    let constant = match right {
        Operand::Const(c) => c,
        Operand::Column(_) => {
            return None;
        },
    };
    let scalar = match read(source, ctx) {
        Some(CellValue::One(s)) => s,
        _ => {
            return None;
        },
    };
    let info = match ctx.index.columns.get(&source.column) {
        Some(i) => i,
        None => {
            return None;
        },
    };
    match &source.field {
        Some(field) => {
            assert(ctx@.index.columns[source@.column] == info@);
            compare_field(ctx, info, field, scalar, constant)
        },
        None => compare_scalar(&info.ty, scalar, constant),
    }
}

/// Whether a list holds an option.
pub open spec fn holds_option(l: Seq<ScalarModel>, option: Seq<char>) -> bool {
    l.contains(ScalarModel::Enum(option))
}

fn list_holds(l: &Vec<Scalar>, option: &OptionId) -> (r: bool)
    ensures
        r == holds_option(l.deep_view(), option@),
{
    let o = Scalar::Enum(option.dup());
    contains_model(l, &o)
}

/// Whether an atom holds.
pub open spec fn atom_holds(a: AtomModel, ctx: EvalContextModel) -> bool {
    match a {
        AtomModel::Pending { group } => awaited_here(ctx, group),
        AtomModel::NotPending { group } => !awaited_here(ctx, group),
        AtomModel::IsEmpty { source } => value_read(ctx, source.column) is None,
        AtomModel::IsFilled { source } => value_read(ctx, source.column) is Some,
        AtomModel::Contains { source, option } => value_read(ctx, source.column) matches Some(
            CellValueModel::Many(l),
        ) && holds_option(l, option),
        AtomModel::Excludes { source, option } => value_read(ctx, source.column) matches Some(
            CellValueModel::Many(l),
        ) && !holds_option(l, option),
        AtomModel::Eq { source, right } => compared(ctx, source, right) == Some(Order::Equal),
        AtomModel::NotEq { source, right } => compared(ctx, source, right) matches Some(o) && o
            != Order::Equal,
        AtomModel::Lt { source, right } => compared(ctx, source, right) == Some(Order::Less),
        AtomModel::Le { source, right } => compared(ctx, source, right) matches Some(o) && o
            != Order::Greater,
        AtomModel::Gt { source, right } => compared(ctx, source, right) == Some(Order::Greater),
        AtomModel::Ge { source, right } => compared(ctx, source, right) matches Some(o) && o
            != Order::Less,
    }
}

/// Whether an expression holds.
pub open spec fn holds(e: ExprModel, ctx: EvalContextModel) -> bool
    decreases e,
{
    match e {
        ExprModel::And(s) => each_holds(s, ctx),
        ExprModel::Or(s) => some_holds(s, ctx),
        ExprModel::Atom(a) => atom_holds(a, ctx),
    }
}

/// Whether every one of some expressions holds.
pub open spec fn each_holds(s: Seq<ExprModel>, ctx: EvalContextModel) -> bool
    decreases s,
{
    forall|i: int| 0 <= i < s.len() ==> holds(#[trigger] s[i], ctx)
}

/// Whether one of some expressions holds.
pub open spec fn some_holds(s: Seq<ExprModel>, ctx: EvalContextModel) -> bool
    decreases s,
{
    exists|i: int| 0 <= i < s.len() && holds(#[trigger] s[i], ctx)
}

/// `and` is all of its operands, `or` is any of them; the empty `and`
/// holds and the empty `or` does not.
pub proof fn combinators_are_all_and_any(s: Seq<ExprModel>, ctx: EvalContextModel)
    ensures
        holds(ExprModel::And(s), ctx) <==> forall|i: int|
            0 <= i < s.len() ==> holds(#[trigger] s[i], ctx),
        holds(ExprModel::Or(s), ctx) <==> exists|i: int|
            0 <= i < s.len() && holds(#[trigger] s[i], ctx),
        s.len() == 0 ==> holds(ExprModel::And(s), ctx) && !holds(ExprModel::Or(s), ctx),
{
    reveal_with_fuel(holds, 2);
    reveal_with_fuel(each_holds, 2);
    reveal_with_fuel(some_holds, 2);
}

fn eval_atom(atom: &Atom, ctx: &EvalContext) -> (r: bool)
    ensures
        r == atom_holds(atom@, ctx@),
{
    match atom {
        Atom::Pending { group } => is_pending(ctx, group),
        Atom::NotPending { group } => !is_pending(ctx, group),
        Atom::IsEmpty { source } => read(source, ctx).is_none(),
        Atom::IsFilled { source } => read(source, ctx).is_some(),
        Atom::Contains { source, option } => match read(source, ctx) {
            Some(CellValue::Many(l)) => list_holds(l, option),
            _ => false,
        },
        Atom::Excludes { source, option } => match read(source, ctx) {
            Some(CellValue::Many(l)) => !list_holds(l, option),
            _ => false,
        },
        Atom::Eq { source, right } => match compare_source(source, right, ctx) {
            Some(o) => o == Order::Equal,
            None => false,
        },
        Atom::NotEq { source, right } => match compare_source(source, right, ctx) {
            Some(o) => o != Order::Equal,
            None => false,
        },
        Atom::Lt { source, right } => match compare_source(source, right, ctx) {
            Some(o) => o == Order::Less,
            None => false,
        },
        Atom::Le { source, right } => match compare_source(source, right, ctx) {
            Some(o) => o != Order::Greater,
            None => false,
        },
        Atom::Gt { source, right } => match compare_source(source, right, ctx) {
            Some(o) => o == Order::Greater,
            None => false,
        },
        Atom::Ge { source, right } => match compare_source(source, right, ctx) {
            Some(o) => o != Order::Less,
            None => false,
        },
    }
}

fn all_hold(v: &Vec<Expr>, ctx: &EvalContext) -> (r: bool)
    ensures
        r == each_holds(logic::exprs_model(v@), ctx@),
    decreases v,
{
    let ghost m = logic::exprs_model(v@);
    let mut i: usize = 0;
    while i < v.len()
        invariant
            i <= v@.len(),
            m == logic::exprs_model(v@),
            forall|j: int| 0 <= j < i ==> holds(#[trigger] m[j], ctx@),
        decreases v@.len() - i,
    {
        assert(m[i as int] == v@[i as int]@);
        if !eval(&v[i], ctx) {
            return false;
        }
        i += 1;
    }
    true
}

fn any_holds(v: &Vec<Expr>, ctx: &EvalContext) -> (r: bool)
    ensures
        r == some_holds(logic::exprs_model(v@), ctx@),
    decreases v,
{
    let ghost m = logic::exprs_model(v@);
    let mut i: usize = 0;
    while i < v.len()
        invariant
            i <= v@.len(),
            m == logic::exprs_model(v@),
            forall|j: int| 0 <= j < i ==> !holds(#[trigger] m[j], ctx@),
        decreases v@.len() - i,
    {
        assert(m[i as int] == v@[i as int]@);
        if eval(&v[i], ctx) {
            return true;
        }
        i += 1;
    }
    false
}

/// Evaluates an expression on a record: every expression is true or
/// false on every record.
pub fn eval(expr: &Expr, ctx: &EvalContext) -> (r: bool)
    ensures
        r == holds(expr@, ctx@),
    decreases expr,
{
    match expr {
        Expr::And(v) => all_hold(v, ctx),
        Expr::Or(v) => any_holds(v, ctx),
        Expr::Atom(a) => eval_atom(a, ctx),
    }
}

/// Absence always loses: where the source reads as nothing, every
/// comparison and membership atom is false, `is_empty` holds and
/// `is_filled` does not.
pub proof fn absence_loses(a: AtomModel, ctx: EvalContextModel)
    requires
        a.source() matches Some(s) && value_read(ctx, s.column) is None,
    ensures
        a is IsEmpty <==> atom_holds(a, ctx),
{
}

/// A hidden column reads as nothing, whatever is stored.
pub proof fn hidden_reads_absent(ctx: EvalContextModel, column: Seq<char>)
    requires
        ctx.hidden.contains(column),
    ensures
        value_read(ctx, column) is None,
{
}

/// The comparison atoms partition the comparable cases: `not_eq` is `lt`
/// or `gt`, `le` is `lt` or `eq`, `ge` is `gt` or `eq`, no two of `lt`,
/// `eq` and `gt` hold at once, and a comparable source is filled.
pub proof fn comparisons_partition(
    source: ColumnRefModel,
    right: OperandModel,
    ctx: EvalContextModel,
)
    ensures
        ({
            let eq = atom_holds(AtomModel::Eq { source, right }, ctx);
            let ne = atom_holds(AtomModel::NotEq { source, right }, ctx);
            let lt = atom_holds(AtomModel::Lt { source, right }, ctx);
            let le = atom_holds(AtomModel::Le { source, right }, ctx);
            let gt = atom_holds(AtomModel::Gt { source, right }, ctx);
            let ge = atom_holds(AtomModel::Ge { source, right }, ctx);
            &&& !(eq && ne) && !(lt && ge) && !(gt && le)
            &&& (lt || ge) == (eq || ne)
            &&& (gt || le) == (eq || ne)
            &&& le == (lt || eq)
            &&& ge == (gt || eq)
            &&& ne == (lt || gt)
            &&& (eq || ne) ==> atom_holds(AtomModel::IsFilled { source }, ctx)
        }),
{
}

/// `pending` and `not_pending` are complementary, and so are `is_empty`
/// and `is_filled`. `contains` and `excludes` are complementary on a
/// list and both false on anything else.
pub proof fn pairs_are_complementary(
    group: Seq<char>,
    source: ColumnRefModel,
    option: Seq<char>,
    ctx: EvalContextModel,
)
    ensures
        atom_holds(AtomModel::Pending { group }, ctx) != atom_holds(
            AtomModel::NotPending { group },
            ctx,
        ),
        atom_holds(AtomModel::IsEmpty { source }, ctx) != atom_holds(
            AtomModel::IsFilled { source },
            ctx,
        ),
        ({
            let contains = atom_holds(AtomModel::Contains { source, option }, ctx);
            let excludes = atom_holds(AtomModel::Excludes { source, option }, ctx);
            if value_read(ctx, source.column) matches Some(CellValueModel::Many(_)) {
                contains != excludes
            } else {
                !contains && !excludes
            }
        }),
{
}

} // verus!
