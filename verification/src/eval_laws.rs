//! What a rule says of a record: how each kind of value compares, which
//! value a column shows to an item, and what the other atoms mean.

use vstd::prelude::*;
use crate::cast_laws;
use crate::decimal;
use crate::eval;
use crate::order;
use crate::decimal::{Decimal, DecimalModel};
use crate::eval::{EvalContextModel, eval};
use crate::ids::PathSegModel;
use crate::logic::{Atom, AtomModel, ColumnRefModel, Const, ConstModel, ExprModel, OperandModel};
use crate::order::Order;
use crate::schema::{Column, NomenclatureRefModel, OptionRowModel, ScalarTypeModel, Unit};
use crate::time::{Date, DateModel};
use crate::value::{CellAddrModel, CellStateModel, CellValueModel, ScalarModel};

verus! {

/// Whether the item at hand sees a state in a column: the column is
/// known and not hidden, the item lies in its groups or is enclosed by
/// them, and the state is that of the item's own ancestor there.
pub open spec fn sees(ctx: EvalContextModel, column: Seq<char>, state: CellStateModel) -> bool {
    let scope = ctx.index.columns[column].scope;
    let addr = CellAddrModel { column, path: ctx.item.take(scope.len() as int) };
    &&& !ctx.hidden.contains(column)
    &&& ctx.index.columns.dom().contains(column)
    &&& scope.len() <= ctx.item.len()
    &&& forall|i: int| 0 <= i < scope.len() ==> (#[trigger] ctx.item[i]).group == scope[i]
    &&& ctx.values.cells.dom().contains(addr)
    &&& ctx.values.cells[addr] == state
}

/// Whether the comparison atoms say that the left side comes before the
/// right one, is the same, or comes after it.
pub open spec fn stands_so(
    ctx: EvalContextModel,
    source: ColumnRefModel,
    right: OperandModel,
    before: bool,
    same: bool,
) -> bool {
    let after = !before && !same;
    &&& eval::holds(ExprModel::Atom(AtomModel::Lt { source, right }), ctx) == before
    &&& eval::holds(ExprModel::Atom(AtomModel::Eq { source, right }), ctx) == same
    &&& eval::holds(ExprModel::Atom(AtomModel::Gt { source, right }), ctx) == after
    &&& eval::holds(ExprModel::Atom(AtomModel::Le { source, right }), ctx) == (before || same)
    &&& eval::holds(ExprModel::Atom(AtomModel::Ge { source, right }), ctx) == (after || same)
    &&& eval::holds(ExprModel::Atom(AtomModel::NotEq { source, right }), ctx) == (before || after)
}

/// Whether no comparison atom holds.
pub open spec fn compares_not(
    ctx: EvalContextModel,
    source: ColumnRefModel,
    right: OperandModel,
) -> bool {
    &&& !eval::holds(ExprModel::Atom(AtomModel::Lt { source, right }), ctx)
    &&& !eval::holds(ExprModel::Atom(AtomModel::Eq { source, right }), ctx)
    &&& !eval::holds(ExprModel::Atom(AtomModel::Gt { source, right }), ctx)
    &&& !eval::holds(ExprModel::Atom(AtomModel::Le { source, right }), ctx)
    &&& !eval::holds(ExprModel::Atom(AtomModel::Ge { source, right }), ctx)
    &&& !eval::holds(ExprModel::Atom(AtomModel::NotEq { source, right }), ctx)
}

proof fn what_is_seen_is_read(ctx: EvalContextModel, column: Seq<char>, v: CellValueModel)
    requires
        sees(ctx, column, CellStateModel::Value(v)),
        v matches CellValueModel::Many(l) ==> l.len() > 0,
    ensures
        eval::value_read(ctx, column) == Some(v),
{
    let scope = ctx.index.columns[column].scope;
    let groups = crate::conformance::path_groups(ctx.item);
    assert(scope =~= groups.take(scope.len() as int));
    assert(scope.is_prefix_of(groups));
}

proof fn what_is_read_is_seen(ctx: EvalContextModel, column: Seq<char>)
    ensures
        eval::value_read(ctx, column) matches Some(v) ==> sees(ctx, column, CellStateModel::Value(v)) && (
        v matches CellValueModel::Many(l) ==> l.len() > 0),
{
    if let Some(v) = eval::value_read(ctx, column) {
        let scope = ctx.index.columns[column].scope;
        let groups = crate::conformance::path_groups(ctx.item);
        assert(scope.is_prefix_of(groups));
        assert forall|i: int| 0 <= i < scope.len() implies (#[trigger] ctx.item[i]).group
            == scope[i] by {
            assert(groups[i] == ctx.item[i].group);
        }
    }
}

/// Whether a day comes before another: by year, then by month, then by
/// day.
pub open spec fn is_earlier(a: DateModel, b: DateModel) -> bool {
    a.year < b.year || (a.year == b.year && (a.month < b.month || (a.month == b.month && a.day
        < b.day)))
}

/// Dates compare as days of the calendar.
pub proof fn dates_compare_as_days(
    ctx: EvalContextModel,
    source: ColumnRefModel,
    a: DateModel,
    b: DateModel,
)
    requires
        source.field is None,
        sees(ctx, source.column, CellStateModel::Value(CellValueModel::One(ScalarModel::Date(a)))),
    ensures
        stands_so(
            ctx,
            source,
            OperandModel::Const(ConstModel::Date(b)),
            is_earlier(a, b),
            a == b,
        ),
{
    what_is_seen_is_read(ctx, source.column, CellValueModel::One(ScalarModel::Date(a)));
}

/// Instants compare as points in time.
pub proof fn instants_compare_as_points(
    ctx: EvalContextModel,
    source: ColumnRefModel,
    a: int,
    b: int,
)
    requires
        source.field is None,
        sees(
            ctx,
            source.column,
            CellStateModel::Value(CellValueModel::One(ScalarModel::Datetime(a))),
        ),
    ensures
        stands_so(ctx, source, OperandModel::Const(ConstModel::Datetime(b)), a < b, a == b),
{
    what_is_seen_is_read(ctx, source.column, CellValueModel::One(ScalarModel::Datetime(a)));
}

/// False comes before true.
pub proof fn truth_comes_last(
    ctx: EvalContextModel,
    source: ColumnRefModel,
    a: bool,
    b: bool,
)
    requires
        source.field is None,
        sees(
            ctx,
            source.column,
            CellStateModel::Value(CellValueModel::One(ScalarModel::Boolean(a))),
        ),
    ensures
        stands_so(ctx, source, OperandModel::Const(ConstModel::Boolean(b)), !a && b, a == b),
{
    what_is_seen_is_read(ctx, source.column, CellValueModel::One(ScalarModel::Boolean(a)));
}

/// Whether bytes come before others: at the first place where the two
/// differ, or where the first ends.
pub open spec fn bytes_before(a: Seq<u8>, b: Seq<u8>) -> bool {
    exists|n: int|
        {
            &&& 0 <= n <= a.len() && n < b.len()
            &&& #[trigger] a.take(n) == b.take(n)
            &&& n < a.len() ==> a[n] < b[n]
        }
}

proof fn order_is_by_bytes(a: Seq<u8>, b: Seq<u8>)
    ensures
        order::seq_order::<u8>(a, b) == Order::Less <==> bytes_before(a, b),
        order::seq_order::<u8>(a, b) == Order::Equal <==> a == b,
    decreases a.len(),
{
    order::seq_order_equal::<u8>(a, b);
    if a.len() == 0 {
        if b.len() > 0 {
            assert(a.take(0) =~= b.take(0));
        }
    } else if b.len() > 0 {
        let x = a.drop_first();
        let y = b.drop_first();
        order_is_by_bytes(x, y);
        if a[0] < b[0] {
            assert(a.take(0) =~= b.take(0));
        }
        if a[0] == b[0] && bytes_before(x, y) {
            let n = choose|n: int|
                {
                    &&& 0 <= n <= x.len() && n < y.len()
                    &&& #[trigger] x.take(n) == y.take(n)
                    &&& n < x.len() ==> x[n] < y[n]
                };
            assert(a.take(n + 1) =~= seq![a[0]] + x.take(n));
            assert(b.take(n + 1) =~= seq![b[0]] + y.take(n));
            assert(bytes_before(a, b));
        }
        if bytes_before(a, b) {
            let n = choose|n: int|
                {
                    &&& 0 <= n <= a.len() && n < b.len()
                    &&& #[trigger] a.take(n) == b.take(n)
                    &&& n < a.len() ==> a[n] < b[n]
                };
            if n > 0 {
                assert(a.take(n)[0] == b.take(n)[0]);
                assert(x.take(n - 1) =~= a.take(n).drop_first());
                assert(y.take(n - 1) =~= b.take(n).drop_first());
                assert(bytes_before(x, y));
            }
        }
    }
}

proof fn texts_are_their_bytes(a: Seq<char>, b: Seq<char>)
    ensures
        order::text_order(a, b) == Order::Less <==> bytes_before(
            vstd::utf8::encode_utf8(a),
            vstd::utf8::encode_utf8(b),
        ),
        order::text_order(a, b) == Order::Equal <==> a == b,
{
    order_is_by_bytes(vstd::utf8::encode_utf8(a), vstd::utf8::encode_utf8(b));
    vstd::utf8::encode_utf8_decode_utf8(a);
    vstd::utf8::encode_utf8_decode_utf8(b);
}

/// Options compare by the bytes of their ids; only an option itself is
/// equal to it.
pub proof fn options_compare_by_id(
    ctx: EvalContextModel,
    source: ColumnRefModel,
    a: Seq<char>,
    b: Seq<char>,
)
    requires
        source.field is None,
        sees(ctx, source.column, CellStateModel::Value(CellValueModel::One(ScalarModel::Enum(a)))),
    ensures
        stands_so(
            ctx,
            source,
            OperandModel::Const(ConstModel::Option(b)),
            bytes_before(vstd::utf8::encode_utf8(a), vstd::utf8::encode_utf8(b)),
            a == b,
        ),
{
    what_is_seen_is_read(ctx, source.column, CellValueModel::One(ScalarModel::Enum(a)));
    texts_are_their_bytes(a, b);
}

/// An option seen through an extra field compares as the text that its
/// row has there, the first of that name.
pub proof fn fields_compare_as_texts(
    ctx: EvalContextModel,
    source: ColumnRefModel,
    nref: NomenclatureRefModel,
    rows: Seq<OptionRowModel>,
    i: int,
    k: int,
    b: Seq<char>,
)
    requires
        ctx.index.columns[source.column].ty == ScalarTypeModel::Enum(nref),
        cast_laws::rows_at_hand(nref, ctx.nomenclatures, rows),
        0 <= i < rows.len(),
        forall|j: int| 0 <= j < i ==> (#[trigger] rows[j]).id != rows[i].id,
        0 <= k < rows[i].fields.len(),
        source.field == Some(rows[i].fields[k].0),
        forall|j: int| 0 <= j < k ==> (#[trigger] rows[i].fields[j]).0 != rows[i].fields[k].0,
        sees(
            ctx,
            source.column,
            CellStateModel::Value(CellValueModel::One(ScalarModel::Enum(rows[i].id))),
        ),
    ensures
        stands_so(
            ctx,
            source,
            OperandModel::Const(ConstModel::Text(b)),
            bytes_before(
                vstd::utf8::encode_utf8(rows[i].fields[k].1),
                vstd::utf8::encode_utf8(b),
            ),
            rows[i].fields[k].1 == b,
        ),
{
    what_is_seen_is_read(ctx, source.column, CellValueModel::One(ScalarModel::Enum(rows[i].id)));
    cast_laws::first_row_is_found(rows, i);
    first_field_is_found(rows[i].fields, k);
    texts_are_their_bytes(rows[i].fields[k].1, b);
}

proof fn first_field_is_found(fields: Seq<(Seq<char>, Seq<char>)>, k: int)
    requires
        0 <= k < fields.len(),
        forall|j: int| 0 <= j < k ==> (#[trigger] fields[j]).0 != fields[k].0,
    ensures
        eval::field_value(fields, fields[k].0) == Some(fields[k].1),
    decreases fields.len(),
{
    if k > 0 {
        assert(fields[0].0 != fields[k].0);
        let rest = fields.drop_first();
        assert forall|j: int| 0 <= j < k - 1 implies (#[trigger] rest[j]).0 != rest[k - 1].0 by {
            assert(fields[j + 1].0 != fields[k].0);
        }
        first_field_is_found(rest, k - 1);
    }
}

/// The number that a scalar is.
pub open spec fn is_number(s: ScalarModel, d: DecimalModel) -> bool {
    ||| s == ScalarModel::Decimal(d)
    ||| (s matches ScalarModel::Integer(i) && d == (DecimalModel { mantissa: i as int, scale: 0 }))
}

/// Numbers without units compare by what they are worth, whatever their
/// scale.
pub proof fn numbers_compare_by_worth(
    ctx: EvalContextModel,
    source: ColumnRefModel,
    s: ScalarModel,
    a: DecimalModel,
    b: DecimalModel,
)
    requires
        source.field is None,
        sees(ctx, source.column, CellStateModel::Value(CellValueModel::One(s))),
        is_number(s, a),
        ctx.index.columns[source.column].ty == ScalarTypeModel::Integer(None)
            || ctx.index.columns[source.column].ty == ScalarTypeModel::Decimal(None),
    ensures
        stands_so(
            ctx,
            source,
            OperandModel::Const(ConstModel::Number { value: b, unit: None }),
            a.mantissa * decimal::pow10(b.scale) < b.mantissa * decimal::pow10(a.scale),
            a.mantissa * decimal::pow10(b.scale) == b.mantissa * decimal::pow10(a.scale),
        ),
{
    what_is_seen_is_read(ctx, source.column, CellValueModel::One(s));
}

/// Numbers with units of one kind compare as quantities.
pub proof fn quantities_compare_by_worth(
    ctx: EvalContextModel,
    source: ColumnRefModel,
    s: ScalarModel,
    a: DecimalModel,
    u: Unit,
    b: DecimalModel,
    w: Unit,
)
    requires
        source.field is None,
        sees(ctx, source.column, CellStateModel::Value(CellValueModel::One(s))),
        is_number(s, a),
        ctx.index.columns[source.column].ty == ScalarTypeModel::Integer(Some(u))
            || ctx.index.columns[source.column].ty == ScalarTypeModel::Decimal(Some(u)),
    ensures
        ({
            let left = a.mantissa * cast_laws::measure(u).1 * decimal::pow10(b.scale);
            let right = b.mantissa * cast_laws::measure(w).1 * decimal::pow10(a.scale);
            let constant = OperandModel::Const(ConstModel::Number { value: b, unit: Some(w) });
            if cast_laws::measure(u).0 == cast_laws::measure(w).0 {
                stands_so(ctx, source, constant, left < right, left == right)
            } else {
                compares_not(ctx, source, constant)
            }
        }),
{
    what_is_seen_is_read(ctx, source.column, CellValueModel::One(s));
    cast_laws::units_are_worth_their_measure(u);
    cast_laws::units_are_worth_their_measure(w);
}

/// A number with a unit does not compare with one that has none.
pub proof fn units_do_not_compare_with_none(
    ctx: EvalContextModel,
    source: ColumnRefModel,
    s: ScalarModel,
    b: DecimalModel,
    w: Option<Unit>,
)
    requires
        source.field is None,
        sees(ctx, source.column, CellStateModel::Value(CellValueModel::One(s))),
        ({
            let ty = ctx.index.columns[source.column].ty;
            ||| ty matches ScalarTypeModel::Integer(u) && u.is_some() != w.is_some()
            ||| ty matches ScalarTypeModel::Decimal(u) && u.is_some() != w.is_some()
        }),
    ensures
        compares_not(
            ctx,
            source,
            OperandModel::Const(ConstModel::Number { value: b, unit: w }),
        ),
{
    what_is_seen_is_read(ctx, source.column, CellValueModel::One(s));
}

/// Whether a constant can stand against a scalar.
pub open spec fn are_of_a_kind(s: ScalarModel, c: ConstModel) -> bool {
    match c {
        ConstModel::Boolean(_) => s is Boolean,
        ConstModel::Number { .. } => s is Integer || s is Decimal,
        ConstModel::Date(_) => s is Date,
        ConstModel::Datetime(_) => s is Datetime,
        ConstModel::Option(_) => s is Enum,
        ConstModel::Text(_) => false,
    }
}

/// Nothing compares with a constant of another kind, with another
/// column, or as a list; nor does a column that shows nothing.
pub proof fn unlike_things_do_not_compare(
    ctx: EvalContextModel,
    source: ColumnRefModel,
    right: OperandModel,
)
    requires
        source.field is None,
        right is Column || forall|s: ScalarModel| #[trigger]
            sees(ctx, source.column, CellStateModel::Value(CellValueModel::One(s)))
                ==> !are_of_a_kind(s, right->Const_0),
    ensures
        compares_not(ctx, source, right),
{
    what_is_read_is_seen(ctx, source.column);
    if let Some(CellValueModel::One(s)) = eval::value_read(ctx, source.column) {
        assert(sees(ctx, source.column, CellStateModel::Value(CellValueModel::One(s))));
    }
}

/// A column is filled where the item sees a value in it, and a list only
/// where it has an element; otherwise it is empty.
pub proof fn filled_is_what_is_seen(ctx: EvalContextModel, source: ColumnRefModel)
    ensures
        eval::holds(ExprModel::Atom(AtomModel::IsFilled { source }), ctx) <==> exists|v: CellValueModel|
            #[trigger]
            sees(ctx, source.column, CellStateModel::Value(v)) && (
            v matches CellValueModel::Many(l) ==> l.len() > 0),
        eval::holds(ExprModel::Atom(AtomModel::IsEmpty { source }), ctx) <==> !eval::holds(
            ExprModel::Atom(AtomModel::IsFilled { source }),
            ctx,
        ),
{
    what_is_read_is_seen(ctx, source.column);
    assert forall|v: CellValueModel| #[trigger]
        sees(ctx, source.column, CellStateModel::Value(v)) && (v matches CellValueModel::Many(l)
            ==> l.len() > 0) implies eval::value_read(ctx, source.column) == Some(v) by {
        what_is_seen_is_read(ctx, source.column, v);
    }
}

/// A list contains an option where one of its elements is that option; a
/// filled list that does not contain it excludes it. A single value, an
/// empty list and a column that shows nothing do neither.
pub proof fn lists_contain_their_elements(
    ctx: EvalContextModel,
    source: ColumnRefModel,
    option: Seq<char>,
)
    ensures
        eval::holds(ExprModel::Atom(AtomModel::Contains { source, option }), ctx) <==> exists|
            l: Seq<ScalarModel>,
            i: int,
        |
            sees(ctx, source.column, CellStateModel::Value(CellValueModel::Many(l))) && 0 <= i
                < l.len() && #[trigger] l[i] == ScalarModel::Enum(option),
        eval::holds(ExprModel::Atom(AtomModel::Excludes { source, option }), ctx) <==> exists|
            l: Seq<ScalarModel>,
        | #[trigger]
            sees(ctx, source.column, CellStateModel::Value(CellValueModel::Many(l))) && l.len() > 0
                && forall|i: int| 0 <= i < l.len() ==> #[trigger] l[i] != ScalarModel::Enum(option),
{
    what_is_read_is_seen(ctx, source.column);
    assert forall|l: Seq<ScalarModel>| #[trigger]
        sees(ctx, source.column, CellStateModel::Value(CellValueModel::Many(l))) && l.len()
            > 0 implies eval::value_read(ctx, source.column) == Some(CellValueModel::Many(l)) by {
        what_is_seen_is_read(ctx, source.column, CellValueModel::Many(l));
    }
    if let Some(CellValueModel::Many(l)) = eval::value_read(ctx, source.column) {
        assert(sees(ctx, source.column, CellStateModel::Value(CellValueModel::Many(l))));
        if l.contains(ScalarModel::Enum(option)) {
            let i = choose|i: int| 0 <= i < l.len() && l[i] == ScalarModel::Enum(option);
            assert(l[i] == ScalarModel::Enum(option));
        }
    }
}

/// A group is pending for an item where a resolution of it is awaited at
/// the item or at one that encloses it.
pub proof fn pending_is_inherited(ctx: EvalContextModel, group: Seq<char>)
    ensures
        eval::holds(ExprModel::Atom(AtomModel::Pending { group }), ctx) <==> exists|n: int|
            0 <= n <= ctx.item.len() && ctx.pending.contains((#[trigger] ctx.item.take(n), group)),
        eval::holds(ExprModel::Atom(AtomModel::NotPending { group }), ctx) <==> !eval::holds(
            ExprModel::Atom(AtomModel::Pending { group }),
            ctx,
        ),
{
    if eval::awaited_here(ctx, group) {
        let scope = choose|scope: Seq<PathSegModel>| #[trigger]
            ctx.pending.contains((scope, group)) && scope.is_prefix_of(ctx.item);
        assert(scope =~= ctx.item.take(scope.len() as int));
    }
    assert forall|n: int|
        0 <= n <= ctx.item.len() && ctx.pending.contains(
            (#[trigger] ctx.item.take(n), group),
        ) implies eval::awaited_here(ctx, group) by {
        assert(ctx.item.take(n).is_prefix_of(ctx.item));
    }
}

} // verus!
