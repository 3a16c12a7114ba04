//! Casts and conversions that undo each other.

use varve::cast::NomenclatureTable;
use varve::decimal::Decimal;
use varve::projection::project_scalar;
use varve::schema::{ScalarType, Unit};
use varve::time::{Date, Instant};
use varve::value::Scalar;

fn through(s: &Scalar, from: &ScalarType, to: &ScalarType) -> Option<(Scalar, bool)> {
    project_scalar(s, from, to, &NomenclatureTable::new()).unwrap()
}

#[test]
fn integers_come_back_from_decimals_and_texts() {
    for i in [0, -1, 42, i64::MAX, i64::MIN] {
        let int = ScalarType::Integer(None);
        let (wide, lossy) = through(&Scalar::Integer(i), &int, &ScalarType::Decimal(None)).unwrap();
        assert!(!lossy);
        assert_eq!(wide, Scalar::Decimal(Decimal::from_i64(i)));
        assert_eq!(
            through(&wide, &ScalarType::Decimal(None), &int),
            Some((Scalar::Integer(i), false))
        );
        let (text, lossy) = through(&Scalar::Integer(i), &int, &ScalarType::Text).unwrap();
        assert!(!lossy);
        assert_eq!(text, Scalar::Text(i.to_string()));
        assert_eq!(through(&text, &ScalarType::Text, &int), Some((Scalar::Integer(i), false)));
    }
}

#[test]
fn decimals_narrow_exactly_or_not_at_all() {
    let half = Scalar::Decimal(Decimal::parse("2.5").unwrap());
    let whole = Scalar::Decimal(Decimal::parse("3").unwrap());
    let huge = Scalar::Decimal(Decimal::parse("9223372036854775808").unwrap());
    let (from, to) = (ScalarType::Decimal(None), ScalarType::Integer(None));
    assert_eq!(through(&half, &from, &to), None);
    assert_eq!(through(&huge, &from, &to), None);
    assert_eq!(through(&whole, &from, &to), Some((Scalar::Integer(3), false)));
}

#[test]
fn dates_come_back_from_instants() {
    let day = Date::parse("2024-02-29").unwrap();
    let (instant, lossy) =
        through(&Scalar::Date(day), &ScalarType::Date, &ScalarType::Datetime).unwrap();
    assert!(!lossy);
    assert_eq!(instant, Scalar::Datetime(Instant::parse("2024-02-29T00:00:00Z").unwrap()));
    assert_eq!(
        through(&instant, &ScalarType::Datetime, &ScalarType::Date),
        Some((Scalar::Date(Date::parse("2024-02-29").unwrap()), false))
    );
}

#[test]
fn conversions_undo_each_other() {
    let d = Decimal::parse("1.5").unwrap();
    assert_eq!(d.mul_div_exact(1, 1), Decimal::parse("1.5").ok());
    let there = d.mul_div_exact(7, 4).unwrap();
    assert_eq!(there.to_string(), "2.625");
    assert_eq!(there.mul_div_exact(4, 7), Decimal::parse("1.5").ok());
    let weeks = ScalarType::Decimal(Some(Unit::Week));
    let days = ScalarType::Decimal(Some(Unit::Day));
    let s = Scalar::Decimal(Decimal::parse("1.5").unwrap());
    let (in_days, lossy) = through(&s, &weeks, &days).unwrap();
    assert!(!lossy);
    assert_eq!(in_days, Scalar::Decimal(Decimal::parse("10.5").unwrap()));
    assert_eq!(through(&in_days, &days, &weeks), Some((s, false)));
}
