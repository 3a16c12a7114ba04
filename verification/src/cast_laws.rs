//! What a cast does to a value: what it is written as, what it is read
//! back as, and which quantity, option or file stays the same.

use vstd::prelude::*;
use crate::cast;
use crate::decimal;
use crate::projection;
use crate::schema;
use crate::time;
use crate::value;
use crate::cast::{Cast, CastErrorModel};
use crate::decimal::{Decimal, DecimalModel};
use crate::schema::{
    Arity, AttachmentConstraintsModel, Dimension, NomenclatureRefModel, OptionRowModel,
    ScalarTypeModel, Unit,
};
use crate::time::{Date, DateModel, Instant, MAX_YEAR};
use crate::value::{AttachmentRefModel, ScalarModel};

verus! {

/// Whether a value cast to text is read back from that text as itself,
/// and nothing is lost on either way.
pub open spec fn survives_text(
    s: ScalarModel,
    ty: ScalarTypeModel,
    noms: Map<(Seq<char>, u32), Seq<OptionRowModel>>,
) -> bool {
    exists|t: Seq<char>|
        {
            &&& projection::scalar_projection(s, ty, ScalarTypeModel::Text, noms) == Ok::<_, CastErrorModel>(
                Some((ScalarModel::Text(t), false)),
            )
            &&& #[trigger] projection::scalar_projection(
                ScalarModel::Text(t),
                ScalarTypeModel::Text,
                ty,
                noms,
            ) == Ok::<_, CastErrorModel>(Some((s, false)))
        }
}

proof fn by_way_of(
    s: ScalarModel,
    ty: ScalarTypeModel,
    noms: Map<(Seq<char>, u32), Seq<OptionRowModel>>,
    t: Seq<char>,
)
    requires
        projection::scalar_projection(s, ty, ScalarTypeModel::Text, noms) == Ok::<_, CastErrorModel>(
            Some((ScalarModel::Text(t), false)),
        ),
        projection::scalar_projection(ScalarModel::Text(t), ScalarTypeModel::Text, ty, noms) == Ok::<
            _,
            CastErrorModel,
        >(Some((s, false))),
    ensures
        survives_text(s, ty, noms),
{
}

/// A truth value is written `true` or `false`, as it is, and read back
/// from there.
pub proof fn truth_survives_text(b: bool, noms: Map<(Seq<char>, u32), Seq<OptionRowModel>>)
    ensures
        projection::scalar_projection(
            ScalarModel::Boolean(b),
            ScalarTypeModel::Boolean,
            ScalarTypeModel::Text,
            noms,
        ) == Ok::<_, CastErrorModel>(
            Some(
                (
                    ScalarModel::Text(
                        if b {
                            seq!['t', 'r', 'u', 'e']
                        } else {
                            seq!['f', 'a', 'l', 's', 'e']
                        },
                    ),
                    false,
                ),
            ),
        ),
        survives_text(ScalarModel::Boolean(b), ScalarTypeModel::Boolean, noms),
{
    reveal_strlit("true");
    reveal_strlit("false");
    let t = if b {
        seq!['t', 'r', 'u', 'e']
    } else {
        seq!['f', 'a', 'l', 's', 'e']
    };
    assert("true"@ =~= seq!['t', 'r', 'u', 'e']);
    assert("false"@ =~= seq!['f', 'a', 'l', 's', 'e']);
    assert("true"@.len() != "false"@.len());
    by_way_of(ScalarModel::Boolean(b), ScalarTypeModel::Boolean, noms, t);
}

/// A text other than these two is no truth value.
pub proof fn other_texts_are_no_truth(
    t: Seq<char>,
    noms: Map<(Seq<char>, u32), Seq<OptionRowModel>>,
)
    ensures
        projection::scalar_projection(
            ScalarModel::Text(t),
            ScalarTypeModel::Text,
            ScalarTypeModel::Boolean,
            noms,
        ) == Ok::<_, CastErrorModel>(
            if t == seq!['t', 'r', 'u', 'e'] {
                Some((ScalarModel::Boolean(true), false))
            } else if t == seq!['f', 'a', 'l', 's', 'e'] {
                Some((ScalarModel::Boolean(false), false))
            } else {
                None
            },
        ),
{
    reveal_strlit("true");
    reveal_strlit("false");
    assert("true"@ =~= seq!['t', 'r', 'u', 'e']);
    assert("false"@ =~= seq!['f', 'a', 'l', 's', 'e']);
}

/// An integer is written in its digits and read back from them.
pub proof fn integers_survive_text(
    i: i64,
    unit: Option<Unit>,
    noms: Map<(Seq<char>, u32), Seq<OptionRowModel>>,
)
    ensures
        survives_text(ScalarModel::Integer(i), ScalarTypeModel::Integer(unit), noms),
{
    crate::round_trips::integers_pass_through_text(i, unit, noms);
    by_way_of(
        ScalarModel::Integer(i),
        ScalarTypeModel::Integer(unit),
        noms,
        crate::canonical::int_text(i as int),
    );
}

/// A decimal is read back from its text as itself; the one mantissa
/// without a positive counterpart is not.
pub proof fn decimals_survive_text(
    d: DecimalModel,
    unit: Option<Unit>,
    noms: Map<(Seq<char>, u32), Seq<OptionRowModel>>,
)
    requires
        d.normal(),
        d.in_range(),
        d.mantissa != i128::MIN,
    ensures
        survives_text(ScalarModel::Decimal(d), ScalarTypeModel::Decimal(unit), noms),
{
    decimal::parse_of_rendered(d);
    by_way_of(ScalarModel::Decimal(d), ScalarTypeModel::Decimal(unit), noms, decimal::rendered(d));
}

/// A date is read back from its text as itself.
pub proof fn dates_survive_text(
    d: DateModel,
    noms: Map<(Seq<char>, u32), Seq<OptionRowModel>>,
)
    requires
        d.valid(),
        d.year <= MAX_YEAR,
    ensures
        survives_text(ScalarModel::Date(d), ScalarTypeModel::Date, noms),
{
    time::date_text_reads_back(d);
    by_way_of(ScalarModel::Date(d), ScalarTypeModel::Date, noms, d.text());
}

/// An instant is read back from its canonical text as itself, given that
/// this text names it, as [`Instant::to_string`] hands it out.
pub proof fn instants_survive_text(t: int, noms: Map<(Seq<char>, u32), Seq<OptionRowModel>>)
    requires
        time::instant_of(time::timestamp_text(t)) == Some(t),
    ensures
        survives_text(ScalarModel::Datetime(t), ScalarTypeModel::Datetime, noms),
{
    by_way_of(ScalarModel::Datetime(t), ScalarTypeModel::Datetime, noms, time::timestamp_text(t));
}

/// The rows of a nomenclature, where they are at hand.
pub open spec fn rows_at_hand(
    nref: NomenclatureRefModel,
    noms: Map<(Seq<char>, u32), Seq<OptionRowModel>>,
    rows: Seq<OptionRowModel>,
) -> bool {
    match nref {
        NomenclatureRefModel::Inline(own) => rows == own,
        NomenclatureRefModel::Published { id, version } => noms.dom().contains((id, version))
            && noms[(id, version)] == rows,
    }
}

/// The first row with an id is the one that is found.
pub proof fn first_row_is_found(rows: Seq<OptionRowModel>, i: int)
    requires
        0 <= i < rows.len(),
        forall|j: int| 0 <= j < i ==> (#[trigger] rows[j]).id != rows[i].id,
    ensures
        cast::row_of(rows, rows[i].id) == Some(rows[i]),
    decreases rows.len(),
{
    if i > 0 {
        assert(rows[0].id != rows[i].id);
        let rest = rows.drop_first();
        assert forall|j: int| 0 <= j < i - 1 implies (#[trigger] rest[j]).id != rest[i - 1].id by {
            assert(rows[j + 1].id != rows[i].id);
        }
        first_row_is_found(rest, i - 1);
    }
}

proof fn first_label_is_found(rows: Seq<OptionRowModel>, i: int)
    requires
        0 <= i < rows.len(),
        forall|j: int| 0 <= j < i ==> (#[trigger] rows[j]).label != rows[i].label,
    ensures
        projection::row_labelled(rows, rows[i].label) == Some(rows[i]),
    decreases rows.len(),
{
    if i > 0 {
        assert(rows[0].label != rows[i].label);
        let rest = rows.drop_first();
        assert forall|j: int| 0 <= j < i - 1 implies (#[trigger] rest[j]).label != rest[i
            - 1].label by {
            assert(rows[j + 1].label != rows[i].label);
        }
        first_label_is_found(rest, i - 1);
    }
}

proof fn no_row_is_found(rows: Seq<OptionRowModel>, id: Seq<char>)
    requires
        forall|j: int| 0 <= j < rows.len() ==> (#[trigger] rows[j]).id != id,
    ensures
        cast::row_of(rows, id) is None,
    decreases rows.len(),
{
    if rows.len() > 0 {
        assert(rows[0].id != id);
        let rest = rows.drop_first();
        assert forall|j: int| 0 <= j < rest.len() implies (#[trigger] rest[j]).id != id by {
            assert(rows[j + 1].id != id);
        }
        no_row_is_found(rest, id);
    }
}

proof fn no_label_is_found(rows: Seq<OptionRowModel>, label: Seq<char>)
    requires
        forall|j: int| 0 <= j < rows.len() ==> (#[trigger] rows[j]).label != label,
    ensures
        projection::row_labelled(rows, label) is None,
    decreases rows.len(),
{
    if rows.len() > 0 {
        assert(rows[0].label != label);
        let rest = rows.drop_first();
        assert forall|j: int| 0 <= j < rest.len() implies (#[trigger] rest[j]).label != label by {
            assert(rows[j + 1].label != label);
        }
        no_label_is_found(rest, label);
    }
}

/// An option becomes the label of its row, and a label becomes the
/// option of the first row that bears it.
pub proof fn options_become_labels(
    rows: Seq<OptionRowModel>,
    i: int,
    nref: NomenclatureRefModel,
    noms: Map<(Seq<char>, u32), Seq<OptionRowModel>>,
)
    requires
        rows_at_hand(nref, noms, rows),
        0 <= i < rows.len(),
    ensures
        (forall|j: int| 0 <= j < i ==> (#[trigger] rows[j]).id != rows[i].id) ==> projection::scalar_projection(
            ScalarModel::Enum(rows[i].id),
            ScalarTypeModel::Enum(nref),
            ScalarTypeModel::Text,
            noms,
        ) == Ok::<_, CastErrorModel>(Some((ScalarModel::Text(rows[i].label), false))),
        (forall|j: int| 0 <= j < i ==> (#[trigger] rows[j]).label != rows[i].label)
            ==> projection::scalar_projection(
            ScalarModel::Text(rows[i].label),
            ScalarTypeModel::Text,
            ScalarTypeModel::Enum(nref),
            noms,
        ) == Ok::<_, CastErrorModel>(Some((ScalarModel::Enum(rows[i].id), false))),
{
    if forall|j: int| 0 <= j < i ==> (#[trigger] rows[j]).id != rows[i].id {
        first_row_is_found(rows, i);
    }
    if forall|j: int| 0 <= j < i ==> (#[trigger] rows[j]).label != rows[i].label {
        first_label_is_found(rows, i);
    }
}

/// An option that no row has, and a label that no row bears, are
/// rejected.
pub proof fn unknown_options_are_rejected(
    rows: Seq<OptionRowModel>,
    x: Seq<char>,
    nref: NomenclatureRefModel,
    noms: Map<(Seq<char>, u32), Seq<OptionRowModel>>,
)
    requires
        rows_at_hand(nref, noms, rows),
    ensures
        (forall|j: int| 0 <= j < rows.len() ==> (#[trigger] rows[j]).id != x) ==> projection::scalar_projection(
            ScalarModel::Enum(x),
            ScalarTypeModel::Enum(nref),
            ScalarTypeModel::Text,
            noms,
        ) == Ok::<Option<(ScalarModel, bool)>, CastErrorModel>(None),
        (forall|j: int| 0 <= j < rows.len() ==> (#[trigger] rows[j]).label != x)
            ==> projection::scalar_projection(
            ScalarModel::Text(x),
            ScalarTypeModel::Text,
            ScalarTypeModel::Enum(nref),
            noms,
        ) == Ok::<Option<(ScalarModel, bool)>, CastErrorModel>(None),
{
    if forall|j: int| 0 <= j < rows.len() ==> (#[trigger] rows[j]).id != x {
        no_row_is_found(rows, x);
    }
    if forall|j: int| 0 <= j < rows.len() ==> (#[trigger] rows[j]).label != x {
        no_label_is_found(rows, x);
    }
}

/// Between two nomenclatures an option keeps its id where the new one
/// has it and is rejected where it has not. Only leaving a published
/// nomenclature for inline rows counts as a loss.
pub proof fn options_stay_by_id(
    id: Seq<char>,
    old: NomenclatureRefModel,
    new: NomenclatureRefModel,
    rows: Seq<OptionRowModel>,
    noms: Map<(Seq<char>, u32), Seq<OptionRowModel>>,
)
    requires
        old != new,
        rows_at_hand(new, noms, rows),
    ensures
        projection::scalar_projection(
            ScalarModel::Enum(id),
            ScalarTypeModel::Enum(old),
            ScalarTypeModel::Enum(new),
            noms,
        ) == Ok::<_, CastErrorModel>(
            if exists|j: int| 0 <= j < rows.len() && (#[trigger] rows[j]).id == id {
                Some((ScalarModel::Enum(id), old is Published && new is Inline))
            } else {
                None
            },
        ),
{
}

/// A cast that needs a nomenclature that is not at hand is an error that
/// names it.
pub proof fn a_missing_nomenclature_is_named(
    s: ScalarModel,
    id: Seq<char>,
    version: u32,
    other: NomenclatureRefModel,
    noms: Map<(Seq<char>, u32), Seq<OptionRowModel>>,
)
    requires
        !noms.dom().contains((id, version)),
        other != (NomenclatureRefModel::Published { id, version }),
    ensures
        s is Enum ==> projection::scalar_projection(
            s,
            ScalarTypeModel::Enum(other),
            ScalarTypeModel::Enum(NomenclatureRefModel::Published { id, version }),
            noms,
        ) == Err::<Option<(ScalarModel, bool)>, _>(CastErrorModel::UnknownNomenclature(id, version)),
        s is Enum ==> projection::scalar_projection(
            s,
            ScalarTypeModel::Enum(NomenclatureRefModel::Published { id, version }),
            ScalarTypeModel::Text,
            noms,
        ) == Err::<Option<(ScalarModel, bool)>, _>(CastErrorModel::UnknownNomenclature(id, version)),
        s is Text ==> projection::scalar_projection(
            s,
            ScalarTypeModel::Text,
            ScalarTypeModel::Enum(NomenclatureRefModel::Published { id, version }),
            noms,
        ) == Err::<Option<(ScalarModel, bool)>, _>(CastErrorModel::UnknownNomenclature(id, version)),
{
}

/// What a unit measures, and how many of the smallest unit of that kind
/// it is worth.
pub open spec fn measure(u: Unit) -> (Dimension, nat) {
    match u {
        Unit::Millimetre => (Dimension::Length, 1),
        Unit::Centimetre => (Dimension::Length, 10),
        Unit::Metre => (Dimension::Length, 10 * 100),
        Unit::Kilometre => (Dimension::Length, 10 * 100 * 1000),
        Unit::Gram => (Dimension::Mass, 1),
        Unit::Kilogram => (Dimension::Mass, 1000),
        Unit::Tonne => (Dimension::Mass, 1000 * 1000),
        Unit::Minute => (Dimension::Duration, 1),
        Unit::Hour => (Dimension::Duration, 60),
        Unit::Day => (Dimension::Duration, 60 * 24),
        Unit::Week => (Dimension::Duration, 60 * 24 * 7),
        Unit::Month => (Dimension::Calendar, 1),
        Unit::Year => (Dimension::Calendar, 12),
        Unit::SquareMetre => (Dimension::Area, 1),
        Unit::Hectare => (Dimension::Area, 100 * 100),
        Unit::SquareKilometre => (Dimension::Area, 1000 * 1000),
        Unit::Litre => (Dimension::Volume, 1),
        Unit::CubicMetre => (Dimension::Volume, 10 * 10 * 10),
        Unit::Percent => (Dimension::Ratio, 1),
    }
}

/// Every unit measures what it measures, in the amount that it stands
/// for.
pub proof fn units_are_worth_their_measure(u: Unit)
    ensures
        u.spec_dimension() == measure(u).0,
        u.spec_factor() == measure(u).1,
{
}

/// A decimal moved to another unit is the same quantity there, and
/// nothing is lost. Between units that measure different things nothing
/// comes through.
pub proof fn conversions_keep_the_quantity(
    d: DecimalModel,
    a: Unit,
    b: Unit,
    noms: Map<(Seq<char>, u32), Seq<OptionRowModel>>,
)
    requires
        d.normal(),
    ensures
        projection::scalar_projection(
            ScalarModel::Decimal(d),
            ScalarTypeModel::Decimal(Some(a)),
            ScalarTypeModel::Decimal(Some(b)),
            noms,
        ) matches Ok(out) && (out matches Some((s, lossy)) ==> {
            &&& !lossy
            &&& measure(a).0 == measure(b).0
            &&& s matches ScalarModel::Decimal(e)
            &&& e.normal()
            &&& e.mantissa * measure(b).1 * decimal::pow10(d.scale) == d.mantissa * measure(a).1 * decimal::pow10(
                e.scale,
            )
        }),
{
    units_are_worth_their_measure(a);
    units_are_worth_their_measure(b);
    if a != b {
        decimal::mul_div_is_exact(d, a.spec_factor() as nat, b.spec_factor() as nat);
    }
}

/// Giving a number a unit, or none, keeps the number; only taking a unit
/// away counts as a loss.
pub proof fn units_come_and_go(
    d: DecimalModel,
    u: Unit,
    noms: Map<(Seq<char>, u32), Seq<OptionRowModel>>,
)
    ensures
        projection::scalar_projection(
            ScalarModel::Decimal(d),
            ScalarTypeModel::Decimal(None),
            ScalarTypeModel::Decimal(Some(u)),
            noms,
        ) == Ok::<_, CastErrorModel>(Some((ScalarModel::Decimal(d), false))),
        projection::scalar_projection(
            ScalarModel::Decimal(d),
            ScalarTypeModel::Decimal(Some(u)),
            ScalarTypeModel::Decimal(None),
            noms,
        ) == Ok::<_, CastErrorModel>(Some((ScalarModel::Decimal(d), true))),
{
}

/// An integer moves between units as the decimal of its worth does; it
/// stays an integer where the result is a whole number that fits, and is
/// rejected where it is not.
pub proof fn integers_move_as_decimals(
    i: i64,
    a: Option<Unit>,
    b: Option<Unit>,
    noms: Map<(Seq<char>, u32), Seq<OptionRowModel>>,
)
    requires
        a != b,
    ensures
        ({
            let wide = ScalarModel::Decimal(DecimalModel { mantissa: i as int, scale: 0 });
            let moved = projection::scalar_projection(
                wide,
                ScalarTypeModel::Decimal(a),
                ScalarTypeModel::Decimal(b),
                noms,
            );
            &&& projection::scalar_projection(
                ScalarModel::Integer(i),
                ScalarTypeModel::Integer(a),
                ScalarTypeModel::Decimal(b),
                noms,
            ) == moved
            &&& projection::scalar_projection(
                ScalarModel::Integer(i),
                ScalarTypeModel::Integer(a),
                ScalarTypeModel::Integer(b),
                noms,
            ) == Ok::<_, CastErrorModel>(
                match moved {
                    Ok(Some((ScalarModel::Decimal(e), lossy))) => if e.scale == 0 && i64::MIN
                        <= e.mantissa <= i64::MAX {
                        Some((ScalarModel::Integer(e.mantissa as i64), lossy))
                    } else {
                        None
                    },
                    _ => None,
                },
            )
            &&& projection::scalar_projection(
                wide,
                ScalarTypeModel::Decimal(a),
                ScalarTypeModel::Integer(b),
                noms,
            ) == projection::scalar_projection(
                ScalarModel::Integer(i),
                ScalarTypeModel::Integer(a),
                ScalarTypeModel::Integer(b),
                noms,
            )
        }),
{
}

/// An instant becomes the day at the front of its text, and that is a
/// loss exactly where the instant is not that day's midnight.
pub proof fn instants_become_their_day(
    t: int,
    d: DateModel,
    start: int,
    noms: Map<(Seq<char>, u32), Seq<OptionRowModel>>,
)
    requires
        d.valid(),
        d.year <= MAX_YEAR,
        time::timestamp_text(t).len() >= 10,
        time::timestamp_text(t).take(10) == d.text(),
        time::instant_of(d.text() + seq!['T', '0', '0', ':', '0', '0', ':', '0', '0', 'Z']) == Some(start),
    ensures
        projection::scalar_projection(
            ScalarModel::Datetime(t),
            ScalarTypeModel::Datetime,
            ScalarTypeModel::Date,
            noms,
        ) == Ok::<_, CastErrorModel>(Some((ScalarModel::Date(d), t != start))),
{
    time::date_text_reads_back(d);
    reveal_strlit("T00:00:00Z");
    assert("T00:00:00Z"@ =~= seq!['T', '0', '0', ':', '0', '0', ':', '0', '0', 'Z']);
}

/// A file moved to another column stays the same file where the column
/// takes its type and its size, and is rejected where it does not.
pub proof fn files_stay_or_are_rejected(
    a: AttachmentRefModel,
    old: AttachmentConstraintsModel,
    new: AttachmentConstraintsModel,
    noms: Map<(Seq<char>, u32), Seq<OptionRowModel>>,
)
    requires
        old != new,
    ensures
        projection::scalar_projection(
            ScalarModel::Attachment(a),
            ScalarTypeModel::Attachment(old),
            ScalarTypeModel::Attachment(new),
            noms,
        ) == Ok::<_, CastErrorModel>(
            if new.accepts(a.content_type) && (new.max_bytes matches Some(m) ==> a.byte_size <= m) {
                Some((ScalarModel::Attachment(a), false))
            } else {
                None
            },
        ),
{
}

/// A value moved to its own type is itself.
pub proof fn own_type_is_identity(
    s: ScalarModel,
    ty: ScalarTypeModel,
    noms: Map<(Seq<char>, u32), Seq<OptionRowModel>>,
)
    ensures
        projection::scalar_projection(s, ty, ty, noms) == Ok::<_, CastErrorModel>(Some((s, false))),
{
}

/// What a cast is worth: whether there is one, whether it loses
/// something, whether it may fail, and whether it changes nothing.
pub open spec fn is_so(c: Cast, possible: bool, loses: bool, may_fail: bool, same: bool) -> bool {
    c.possible == possible && c.lossy == loses && c.checked == may_fail && c.identity == same
}

/// Between number columns of one kind the units decide: none changes
/// nothing, gaining one is free, dropping one loses its meaning, another
/// of the same measure may not come out even, and another measure cannot
/// be reached. An integer becomes a decimal in the same way, at best for
/// free; a decimal becomes an integer in the same way, but may fail.
pub proof fn units_decide_number_casts(
    a: Option<Unit>,
    b: Option<Unit>,
    noms: Map<(Seq<char>, u32), Seq<OptionRowModel>>,
)
    ensures
        ({
            let apart = a matches Some(x) && (b matches Some(y) && measure(x).0 != measure(y).0);
            let other = a matches Some(x) && (b matches Some(y) && x != y);
            let dropped = a is Some && b is None;
            &&& cast::cast_between(ScalarTypeModel::Integer(a), ScalarTypeModel::Integer(b), noms)
                == cast::cast_between(ScalarTypeModel::Decimal(a), ScalarTypeModel::Decimal(b), noms)
            &&& cast::cast_between(ScalarTypeModel::Integer(a), ScalarTypeModel::Integer(b), noms) matches Ok(
                c,
            ) && is_so(c, !apart, dropped, other && !apart, a == b)
            &&& cast::cast_between(ScalarTypeModel::Integer(a), ScalarTypeModel::Decimal(b), noms) matches Ok(
                c,
            ) && is_so(c, !apart, dropped, other && !apart, false)
            &&& cast::cast_between(ScalarTypeModel::Decimal(a), ScalarTypeModel::Integer(b), noms) matches Ok(
                c,
            ) && is_so(c, !apart, dropped, true, false)
        }),
{
    if let (Some(x), Some(y)) = (a, b) {
        units_are_worth_their_measure(x);
        units_are_worth_their_measure(y);
    }
}

/// Everything but files and geometries becomes text for free, and comes
/// back from text only where it can be read; options do both through
/// their labels.
pub proof fn text_takes_all_and_gives_some(
    ty: ScalarTypeModel,
    noms: Map<(Seq<char>, u32), Seq<OptionRowModel>>,
)
    requires
        !(ty is Text),
    ensures
        ({
            let written = !(ty is Attachment) && !(ty is Geometry);
            &&& cast::cast_between(ty, ScalarTypeModel::Text, noms) matches Ok(c) && is_so(
                c,
                written,
                false,
                false,
                false,
            ) && c.needs_lens == (ty is Enum)
            &&& cast::cast_between(ScalarTypeModel::Text, ty, noms) matches Ok(c) && is_so(
                c,
                written,
                false,
                written,
                false,
            ) && c.needs_lens == (ty is Enum)
        }),
{
}

/// A date becomes an instant for free, and an instant a date with loss.
pub proof fn days_and_instants(noms: Map<(Seq<char>, u32), Seq<OptionRowModel>>)
    ensures
        cast::cast_between(ScalarTypeModel::Date, ScalarTypeModel::Datetime, noms) matches Ok(c) && is_so(
            c,
            true,
            false,
            false,
            false,
        ),
        cast::cast_between(ScalarTypeModel::Datetime, ScalarTypeModel::Date, noms) matches Ok(c) && is_so(
            c,
            true,
            true,
            false,
            false,
        ),
{
}

/// Types of different kinds that are neither numbers, days and instants
/// nor text have no cast between them.
pub proof fn other_kinds_do_not_meet(
    a: ScalarTypeModel,
    b: ScalarTypeModel,
    noms: Map<(Seq<char>, u32), Seq<OptionRowModel>>,
)
    requires
        !(a is Text) && !(b is Text),
        !((a is Integer || a is Decimal) && (b is Integer || b is Decimal)),
        !((a is Date || a is Datetime) && (b is Date || b is Datetime)),
        !(a is Boolean && b is Boolean),
        !(a is Enum && b is Enum),
        !(a is Attachment && b is Attachment),
        !(a is Geometry && b is Geometry),
    ensures
        cast::cast_between(a, b, noms) matches Ok(c) && !c.possible,
{
}

/// Whether no row has an id.
pub open spec fn is_no_option(rows: Seq<OptionRowModel>, id: Seq<char>) -> bool {
    forall|k: int| 0 <= k < rows.len() ==> (#[trigger] rows[k]).id != id
}

/// Between different nomenclatures options stay for free where the new
/// one has them all, and may fail otherwise; going from a published one
/// to inline rows loses the reference.
pub proof fn nomenclatures_decide_option_casts(
    a: NomenclatureRefModel,
    b: NomenclatureRefModel,
    old: Seq<OptionRowModel>,
    new: Seq<OptionRowModel>,
    noms: Map<(Seq<char>, u32), Seq<OptionRowModel>>,
)
    requires
        a != b,
        rows_at_hand(a, noms, old),
        rows_at_hand(b, noms, new),
    ensures
        cast::cast_between(ScalarTypeModel::Enum(a), ScalarTypeModel::Enum(b), noms) matches Ok(c)
            && is_so(
            c,
            true,
            a is Published && b is Inline,
            exists|i: int| 0 <= i < old.len() && is_no_option(new, (#[trigger] old[i]).id),
            false,
        ),
{
    assert forall|i: int| 0 <= i < old.len() implies is_no_option(new, (#[trigger] old[i]).id)
        == !cast::has_option(new, old[i].id) by {}
}

/// A column's cast is that of its type, and beyond that: one value
/// becomes many for free, many become one with loss.
pub proof fn arity_adds_to_the_cast(
    from: ScalarTypeModel,
    to: ScalarTypeModel,
    a: Arity,
    b: Arity,
    noms: Map<(Seq<char>, u32), Seq<OptionRowModel>>,
)
    ensures
        cast::cast_between(from, to, noms) matches Ok(c) ==> (cast::column_cast_of(
            (from, a),
            (to, b),
            noms,
        ) matches Ok(d) && d.needs_lens == c.needs_lens && is_so(
            d,
            c.possible,
            c.lossy || (a is Many && b is One),
            c.checked,
            c.identity && a == b,
        )),
        cast::cast_between(from, to, noms) matches Err(e) ==> cast::column_cast_of((from, a), (to, b), noms)
            == Err::<Cast, _>(e),
{
}

/// A cast's class is its worst property: that there is none, that it may
/// fail, that it loses something; and where none of these holds, whether
/// it changes anything.
pub proof fn a_class_is_the_worst_property(c: Cast)
    ensures
        c.spec_class() is Forbidden <==> !c.possible,
        c.spec_class() is Checked <==> c.possible && c.checked,
        c.spec_class() is Lossy <==> c.possible && !c.checked && c.lossy,
        c.spec_class() is Identity <==> c.possible && !c.checked && !c.lossy && c.identity,
        c.spec_class() is Widening <==> c.possible && !c.checked && !c.lossy && !c.identity,
{
}

/// Whether two characters are the same letter, whatever their case, or
/// the same character.
pub open spec fn same_letter(a: char, b: char) -> bool {
    a == b || ('A' <= a <= 'Z' && b as nat == a as nat + 32) || ('A' <= b <= 'Z' && a as nat == b
        as nat + 32)
}

/// Whether the first `n` characters of two texts are the same letters.
pub open spec fn same_front(a: Seq<char>, b: Seq<char>, n: int) -> bool {
    n <= a.len() && n <= b.len() && forall|i: int|
        0 <= i < n ==> same_letter(#[trigger] a[i], b[i])
}

/// A column takes a type of file where it names no pattern, names the
/// type itself, or names its family with a star behind the slash; letters
/// count whatever their case.
pub proof fn file_types_match_patterns(c: AttachmentConstraintsModel, t: Seq<char>)
    ensures
        c.accepts(t) <==> c.accept.len() == 0 || exists|i: int|
            0 <= i < c.accept.len() && {
                let p = #[trigger] c.accept[i];
                ||| p.len() == t.len() && same_front(p, t, p.len() as int)
                ||| p.len() >= 2 && p[p.len() - 2] == '/' && p[p.len() - 1] == '*' && same_front(
                    p,
                    t,
                    p.len() - 1,
                )
            },
{
    assert forall|p: Seq<char>| #[trigger] schema::pattern_admits(schema::lower(p), schema::lower(t)) == ((p.len()
        == t.len() && same_front(p, t, p.len() as int)) || (p.len() >= 2 && p[p.len() - 2] == '/'
        && p[p.len() - 1] == '*' && same_front(p, t, p.len() - 1))) by {
        pattern_is_front(p, t);
    }
    assert forall|i: int| 0 <= i < c.accept.len() implies schema::pattern_admits(
        schema::lower(#[trigger] c.accept[i]),
        schema::lower(t),
    ) == ((c.accept[i].len() == t.len() && same_front(
        c.accept[i],
        t,
        c.accept[i].len() as int,
    )) || (c.accept[i].len() >= 2 && c.accept[i][c.accept[i].len() - 2] == '/'
        && c.accept[i][c.accept[i].len() - 1] == '*' && same_front(
        c.accept[i],
        t,
        c.accept[i].len() - 1,
    ))) by {
        pattern_is_front(c.accept[i], t);
    }
}

proof fn letters_agree(a: char, b: char)
    ensures
        (schema::lower_char(a) == schema::lower_char(b)) == same_letter(a, b),
{
}

proof fn pattern_is_front(p: Seq<char>, t: Seq<char>)
    ensures
        schema::pattern_admits(schema::lower(p), schema::lower(t)) == ((p.len() == t.len() && same_front(
            p,
            t,
            p.len() as int,
        )) || (p.len() >= 2 && p[p.len() - 2] == '/' && p[p.len() - 1] == '*' && same_front(
            p,
            t,
            p.len() - 1,
        ))),
{
    let x = schema::lower(p);
    let y = schema::lower(t);
    assert forall|i: int| 0 <= i < p.len() && i < t.len() implies (#[trigger] x[i] == y[i])
        == same_letter(p[i], t[i]) by {
        letters_agree(p[i], t[i]);
    }
    if p.len() == t.len() && same_front(p, t, p.len() as int) {
        assert forall|i: int| 0 <= i < x.len() implies x[i] == y[i] by {
            assert(same_letter(p[i], t[i]));
        }
        assert(x =~= y);
    }
    if x == y {
        assert forall|i: int| 0 <= i < p.len() implies same_letter(#[trigger] p[i], t[i]) by {
            assert(x[i] == y[i]);
        }
    }
    if p.len() >= 2 {
        let n = p.len() - 1;
        assert(x[p.len() - 2] == '/' <==> p[p.len() - 2] == '/');
        assert(x[n] == '*' <==> p[n] == '*');
        if same_front(p, t, n) {
            assert forall|i: int| 0 <= i < n implies x[i] == y[i] by {
                assert(same_letter(p[i], t[i]));
            }
            assert(x.drop_last() =~= y.subrange(0, n));
        }
        if x.drop_last().is_prefix_of(y) {
            assert forall|i: int| 0 <= i < n implies same_letter(#[trigger] p[i], t[i]) by {
                assert(x.drop_last()[i] == y.subrange(0, n)[i]);
                assert(x[i] == y[i]);
            }
        }
    }
}

/// What tells an element of a list from another: an option's own id, a
/// file's, and that of a geometry where it has one; plain values have
/// none.
pub proof fn elements_are_told_by_id(s: ScalarModel)
    ensures
        match s {
            ScalarModel::Enum(id) => s.element_id() == Some(id),
            ScalarModel::Attachment(a) => s.element_id() == Some(a.id),
            ScalarModel::Geometry(g) => s.element_id() == value::feature_id(g),
            _ => s.element_id() is None,
        },
{
}

} // verus!
