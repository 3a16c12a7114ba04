//! What comes back: casts and conversions that undo each other.

use vstd::prelude::*;
use crate::codec;
use crate::decimal;
use crate::projection;
use crate::schema;
use crate::time;
use crate::cast::CastErrorModel;
use crate::decimal::{Decimal, DecimalModel};
use crate::schema::{OptionRowModel, ScalarTypeModel, Unit};
use crate::time::{Date, DateModel, MAX_YEAR};
use crate::value::ScalarModel;

verus! {

/// An integer widened to a decimal narrows back to itself, within one
/// unit, and nothing is lost on the way.
pub proof fn widened_integers_narrow_back(
    i: i64,
    unit: Option<Unit>,
    noms: Map<(Seq<char>, u32), Seq<OptionRowModel>>,
)
    ensures
        ({
            let wide = ScalarModel::Decimal(DecimalModel { mantissa: i as int, scale: 0 });
            &&& projection::scalar_projection(
                ScalarModel::Integer(i),
                ScalarTypeModel::Integer(unit),
                ScalarTypeModel::Decimal(unit),
                noms,
            ) == Ok::<_, CastErrorModel>(Some((wide, false)))
            &&& projection::scalar_projection(
                wide,
                ScalarTypeModel::Decimal(unit),
                ScalarTypeModel::Integer(unit),
                noms,
            ) == Ok::<_, CastErrorModel>(Some((ScalarModel::Integer(i), false)))
        }),
{
}

/// A decimal narrows to an integer exactly or not at all: what comes out
/// is worth what went in.
pub proof fn narrowed_decimals_never_lie(
    d: DecimalModel,
    unit: Option<Unit>,
    noms: Map<(Seq<char>, u32), Seq<OptionRowModel>>,
)
    ensures
        projection::scalar_projection(
            ScalarModel::Decimal(d),
            ScalarTypeModel::Decimal(unit),
            ScalarTypeModel::Integer(unit),
            noms,
        ) == Ok::<_, CastErrorModel>(
            if d.scale == 0 && i64::MIN <= d.mantissa <= i64::MAX {
                Some((ScalarModel::Integer(d.mantissa as i64), false))
            } else {
                None
            },
        ),
{
}

/// An integer read as text is read back as itself.
pub proof fn integers_pass_through_text(
    i: i64,
    unit: Option<Unit>,
    noms: Map<(Seq<char>, u32), Seq<OptionRowModel>>,
)
    ensures
        ({
            let text = ScalarModel::Text(crate::canonical::int_text(i as int));
            &&& projection::scalar_projection(
                ScalarModel::Integer(i),
                ScalarTypeModel::Integer(unit),
                ScalarTypeModel::Text,
                noms,
            ) == Ok::<_, CastErrorModel>(Some((text, false)))
            &&& projection::scalar_projection(
                text,
                ScalarTypeModel::Text,
                ScalarTypeModel::Integer(unit),
                noms,
            ) == Ok::<_, CastErrorModel>(Some((ScalarModel::Integer(i), false)))
        }),
{
    codec::integer_reads_back(i as int);
}

/// A date widened to an instant narrows back to itself without loss,
/// given the instant that the date's midnight is and that this instant
/// is written as the midnight it came from, as [`Date::at_midnight_utc`]
/// hands it out.
pub proof fn widened_dates_narrow_back(
    d: DateModel,
    t: int,
    noms: Map<(Seq<char>, u32), Seq<OptionRowModel>>,
)
    requires
        d.valid(),
        d.year <= MAX_YEAR,
    ensures
        time::instant_of(time::midnight(d)) == Some(t) && time::timestamp_text(t) == time::midnight(d) ==> {
            &&& projection::scalar_projection(
                ScalarModel::Date(d),
                ScalarTypeModel::Date,
                ScalarTypeModel::Datetime,
                noms,
            ) == Ok::<_, CastErrorModel>(Some((ScalarModel::Datetime(t), false)))
            &&& projection::scalar_projection(
                ScalarModel::Datetime(t),
                ScalarTypeModel::Datetime,
                ScalarTypeModel::Date,
                noms,
            ) == Ok::<_, CastErrorModel>(Some((ScalarModel::Date(d), false)))
        },
{
    time::midnight_is_of_its_day(d);
}

/// Times one over one is the number itself.
pub proof fn one_over_one_changes_nothing(d: DecimalModel)
    requires
        d.normal(),
        d.in_range(),
    ensures
        decimal::mul_div(d, 1, 1) == Some(d),
{
    reveal_with_fuel(decimal::common, 3);
    reveal_with_fuel(decimal::exponent, 2);
    reveal_with_fuel(decimal::cofactor, 2);
    vstd::arithmetic::power::lemma_pow0(5);
    vstd::arithmetic::power::lemma_pow0(2);
    let m = decimal::abs(d.mantissa);
    decimal::gcd_divides(m, 1);
    let h = decimal::gcd_or_one(m, 1);
    assert(h == 1) by (nonlinear_arith)
        requires
            h > 0,
            1int % (h as int) == 0,
    ;
    assert(decimal::gcd_or_one(1, 1) == 1);
    assert(1nat / 1nat == 1nat);
    assert(decimal::exponent(2, 1) == 0 && decimal::cofactor(2, 1) == 1);
    assert(decimal::exponent(5, 1) == 0 && decimal::cofactor(5, 1) == 1);
    assert(vstd::arithmetic::power::pow(5, 0) == 1);
    assert(vstd::arithmetic::power::pow(2, 0) == 1);
    assert((m / 1) * 1 * 1 * 1 == m) by (nonlinear_arith);
    assert(decimal::signed(d.mantissa < 0, m) == d.mantissa);
    assert(decimal::normalized(d.mantissa, d.scale) == d);
}

/// A number times `n` over `m`, then times `m` over `n`, is the number
/// itself, wherever both steps have a result: nothing is rounded.
pub proof fn ratios_undo_each_other(d: DecimalModel, n: nat, m: nat)
    requires
        d.normal(),
        n > 0,
    ensures
        decimal::mul_div(d, n, m) matches Some(there) ==> (decimal::mul_div(there, m, n) matches Some(back) ==> back
            == d),
{
    if let Some(s) = decimal::mul_div(d, n, m) {
        if let Some(b) = decimal::mul_div(s, m, n) {
            decimal::mul_div_is_exact(d, n, m);
            decimal::mul_div_is_exact(s, m, n);
            let pd = decimal::pow10(d.scale) as int;
            let ps = decimal::pow10(s.scale) as int;
            let pb = decimal::pow10(b.scale) as int;
            decimal::pow10_positive(s.scale);
            let k = n as int;
            let q = m as int;
            assert(b.mantissa * pd == d.mantissa * pb) by (nonlinear_arith)
                requires
                    s.mantissa * q * pd == d.mantissa * k * ps,
                    b.mantissa * k * ps == s.mantissa * q * pb,
                    ps > 0,
                    k > 0,
            {
                assert((b.mantissa * pd) * (k * ps) == (b.mantissa * k * ps) * pd);
                assert((s.mantissa * q * pb) * pd == (s.mantissa * q * pd) * pb);
                assert((d.mantissa * k * ps) * pb == (d.mantissa * pb) * (k * ps));
                assert(k * ps > 0);
            }
            decimal::normal_is_unique(b, d);
        }
    }
}

/// A number brought into another unit and back is the number itself,
/// wherever both conversions have a result.
pub proof fn conversions_undo_each_other(d: DecimalModel, a: Unit, b: Unit)
    requires
        d.normal(),
    ensures
        projection::converted(d, Some(a), Some(b)) matches Some(there) ==> (projection::converted(
            there,
            Some(b),
            Some(a),
        ) matches Some(back) ==> back == d),
{
    if let Some((n, m)) = schema::unit_ratio(a, b) {
        ratios_undo_each_other(d, n as nat, m as nat);
    }
}

/// The calendar is the Gregorian one: twelve months of their usual
/// lengths, and a leap day in every fourth year, but for the centuries
/// that four hundred does not divide.
pub proof fn the_calendar_is_gregorian(d: DateModel)
    ensures
        d.valid() ==> d.month >= 1 && d.month <= 12 && d.day >= 1 && d.day <= 31,
        d.month == 2 && d.day == 29 ==> (d.valid() <==> d.year % 4 == 0 && (d.year % 100 != 0
            || d.year % 400 == 0)),
        d.month == 2 && d.day > 29 ==> !d.valid(),
        d.day == 31 ==> (d.valid() <==> d.month == 1 || d.month == 3 || d.month == 5 || d.month == 7
            || d.month == 8 || d.month == 10 || d.month == 12),
        d.day == 30 ==> (d.valid() <==> 1 <= d.month <= 12 && d.month != 2),
        1 <= d.day <= 28 ==> (d.valid() <==> 1 <= d.month <= 12),
{
}

} // verus!
