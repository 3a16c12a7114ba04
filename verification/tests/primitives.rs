//! Exact numbers, dates, instants and row paths.

use varve::decimal::{Decimal, PrimitiveError};
use varve::order::Order;
use varve::time::{Date, Instant};
use varve::{GroupId, ItemId, PathSeg, RowPath};

fn d(s: &str) -> Decimal {
    Decimal::parse(s).unwrap()
}

#[test]
fn decimal_normalizes() {
    let a = Decimal::parse("1.50").unwrap();
    let b = Decimal::parse("1.5").unwrap();
    assert_eq!(a, b);
    assert_eq!(a.to_string(), "1.5");
    assert_eq!(Decimal::parse("-0.05").unwrap().to_string(), "-0.05");
    assert_eq!(Decimal::parse("0.0").unwrap().to_string(), "0");
    assert!(Decimal::parse("1,5").is_err());
    assert!(Decimal::parse("").is_err());
}

#[test]
fn mul_div_exact_is_exact_or_nothing() {
    // 1500 m in km.
    assert_eq!(d("1500").mul_div_exact(1_000, 1_000_000), Some(d("1.5")));
    // 90 min in h.
    assert_eq!(d("90").mul_div_exact(1, 60), Some(d("1.5")));
    // 100 min in h: 5/3 has no finite decimal.
    assert_eq!(d("100").mul_div_exact(1, 60), None);
    // 2.5 h in min.
    assert_eq!(d("2.5").mul_div_exact(60, 1), Some(d("150")));
    assert_eq!(d("0").mul_div_exact(1, 60), Some(d("0")));
    assert_eq!(d("1").mul_div_exact(1, 0), None);
}

#[test]
fn mul_div_exact_reduces_before_multiplying() {
    let big = d("1000000000000000000000000000000000000");
    assert_eq!(
        big.mul_div_exact(1000, 1_000_000).unwrap().to_string(),
        "1000000000000000000000000000000000"
    );
    assert_eq!(Decimal::parse("1").unwrap().mul_div_exact(1, 3), None);
    assert_eq!(big.mul_div_exact(u64::MAX, 1), None);
}

#[test]
fn decimal_parse_accepts_what_people_type_and_normalizes() {
    for (input, rendered) in [
        (".5", "0.5"),
        ("5.", "5"),
        ("007", "7"),
        ("-0", "0"),
        ("-0.0", "0"),
        ("1.50", "1.5"),
        ("00.10", "0.1"),
        ("-007.700", "-7.7"),
    ] {
        let d = Decimal::parse(input).unwrap();
        assert_eq!(d.to_string(), rendered, "{input}");
        assert_eq!(Decimal::parse(rendered).unwrap(), d);
    }
    for refused in ["", "-", ".", "-.", "1,5", "+1", "1e3", " 1", "1 ", "1.2.3", "0x10"] {
        assert!(Decimal::parse(refused).is_err(), "{refused:?} should be refused");
    }
}

#[test]
fn decimals_compare_by_value_and_pass_through_integers() {
    assert_eq!(d("1.5").compare(&d("1.50")), Order::Equal);
    assert_eq!(d("-1.5").compare(&d("1")), Order::Less);
    assert_eq!(d("10").compare(&d("9.99")), Order::Greater);
    assert_eq!(d("-2").compare(&d("-10")), Order::Greater);
    assert_eq!(Decimal::from_i64(i64::MIN).to_i64(), Some(i64::MIN));
    assert_eq!(d("3.0").to_i64(), Some(3));
    assert_eq!(d("3.5").to_i64(), None);
    assert_eq!(d("9223372036854775808").to_i64(), None);
}

#[test]
fn primitive_errors_say_what_is_wrong() {
    assert!(matches!(Decimal::parse("x"), Err(PrimitiveError::Malformed(_))));
    assert!(matches!(
        Decimal::parse("999999999999999999999999999999999999999999"),
        Err(PrimitiveError::OutOfRange(_))
    ));
    assert!(matches!(Date::parse("2023-02-29"), Err(PrimitiveError::Malformed(_))));
    assert!(matches!(Instant::parse("noon"), Err(PrimitiveError::Malformed(_))));
}

#[test]
fn date_validates() {
    assert!(Date::parse("2024-02-29").is_ok());
    assert!(Date::parse("2023-02-29").is_err());
    assert!(Date::parse("2023-13-01").is_err());
    assert!(Date::parse("2023-1-01").is_err());
    assert_eq!(Date::parse("2024-02-29").unwrap().to_string(), "2024-02-29");
}

#[test]
fn date_refuses_unpadded_and_out_of_range_forms() {
    for refused in [
        "2024-2-29",
        "2024-02-9",
        "24-02-29",
        "2024/02/29",
        "2024-02-30",
        "2024-00-10",
        "2024-13-01",
        "10000-01-01",
        "-001-01-01",
        "2024-02-29T",
        "2024-02-29 ",
        // Past the last year: a valid calendar date that the shared range
        // leaves out.
        "9999-01-01",
        "9999-12-31",
    ] {
        assert!(Date::parse(refused).is_err(), "{refused:?} should be refused");
    }
    assert!(Date::parse("0000-01-01").is_ok());
    assert!(Date::parse("9998-12-31").is_ok());
    assert!(Date::parse("2000-02-29").is_ok());
    assert!(Date::parse("1900-02-29").is_err());
}

#[test]
fn instant_equality_is_semantic() {
    let z = Instant::parse("2026-08-16T12:00:00Z").unwrap();
    let offset = Instant::parse("2026-08-16T14:00:00+02:00").unwrap();
    assert_eq!(z, offset);
    assert_eq!(offset.to_string(), "2026-08-16T12:00:00Z");
    assert!(Instant::parse("2026-08-16T12:00:00.123+02:00").is_ok());
    assert!(Instant::parse("2026-08-16T24:00:00Z").is_err());
}

#[test]
fn instant_parse_is_strict_rfc_3339_within_the_date_year_range() {
    for liberal in [
        "2026-08-16 12:00:00Z",
        "2026-08-16t12:00:00z",
        "2026-08-16T12:00Z",
        "2026-08-16T12:00:00,5Z",
        "2026-08-16T12:00:00.Z",
        "2026-08-16T12:00:00+02:00[Europe/Paris]",
        "2026-08-16T23:59:60Z",
        "2026-08-16T12:00:00+0200",
        "-000001-06-01T00:00:00Z",
        "+012026-08-16T12:00:00Z",
        "9999-12-31T23:00:00-02:00",
    ] {
        assert!(Instant::parse(liberal).is_err(), "{liberal} should be refused");
    }
    for strict in ["2026-08-16T12:00:00Z", "0000-01-01T00:00:00Z"] {
        let i = Instant::parse(strict).unwrap();
        assert_eq!(i.utc_date().to_string(), &strict[..10]);
    }
}

#[test]
fn instant_year_range_edges() {
    for refused in [
        "0000-01-01T00:00:00+01:00",
        "0000-01-01T00:00:00+00:01",
        "9998-12-31T23:30:00-01:00",
        "9998-12-31T23:59:59-00:01",
        "9999-01-01T00:00:00Z",
        "9999-06-15T12:00:00Z",
        "9999-12-31T23:59:59Z",
        "10000-01-01T00:00:00Z",
    ] {
        assert!(Instant::parse(refused).is_err(), "{refused:?} should be refused");
    }
    for (accepted, rendered) in [
        ("0000-01-01T00:00:00Z", "0000-01-01T00:00:00Z"),
        ("0000-01-01T01:00:00+01:00", "0000-01-01T00:00:00Z"),
        ("9998-12-31T23:59:59Z", "9998-12-31T23:59:59Z"),
        ("9999-01-01T00:59:59+01:00", "9998-12-31T23:59:59Z"),
        ("9998-12-31T23:59:59.999999999Z", "9998-12-31T23:59:59.999999999Z"),
    ] {
        let instant = Instant::parse(accepted).unwrap();
        assert_eq!(instant.to_string(), rendered, "{accepted}");
        assert_eq!(instant.utc_date().to_string(), &rendered[..10]);
    }
}

#[test]
fn a_date_starts_at_midnight() {
    let date = Date::parse("2026-08-16").unwrap();
    let start = date.at_midnight_utc();
    assert_eq!(start.to_string(), "2026-08-16T00:00:00Z");
    assert_eq!(start.utc_date(), date);
    assert_eq!(date.compare(&Date::parse("2026-08-17").unwrap()), Order::Less);
    assert_eq!(
        start.compare(&Instant::parse("2026-08-15T23:00:00Z").unwrap()),
        Order::Greater
    );
}

#[test]
fn lib_row_path_depth() {
    let root = RowPath::root();
    assert!(root.is_root());
    assert_eq!(root.depth(), 0);

    let item = root.child(PathSeg {
        group: GroupId::new("g1"),
        item: ItemId::new("i1"),
    });
    assert_eq!(item.depth(), 1);
    assert!(!item.is_root());
    assert!(root.is_root(), "child must not mutate the parent");
    assert!(item.starts_with(&root));
    assert!(!root.starts_with(&item));
    assert_eq!(item.segments()[0].item.as_str(), "i1");
}

#[test]
fn fractions_stand_at_every_year() {
    for (text, rendered) in [
        ("9998-12-30T12:00:00.5Z", "9998-12-30T12:00:00.5Z"),
        ("9998-01-01T00:00:00.000000001+00:00", "9998-01-01T00:00:00.000000001Z"),
        ("0000-01-01T00:00:00.25Z", "0000-01-01T00:00:00.25Z"),
    ] {
        assert_eq!(Instant::parse(text).unwrap().to_string(), rendered, "{text}");
    }
}

#[test]
fn a_result_that_fits_is_never_lost() {
    let most = "170141183460469231731687303715884105727";
    assert_eq!(
        d("17014118346046923173168730371588410572.7").mul_div_exact(10, 1).unwrap().to_string(),
        most
    );
    assert_eq!(d(most).mul_div_exact(10, 10), Some(d(most)));
    assert_eq!(d(most).mul_div_exact(u64::MAX, u64::MAX), Some(d(most)));
    assert_eq!(d(most).mul_div_exact(2, 1), None);
    assert_eq!(d(most).mul_div_exact(1, 10).unwrap().to_string(), "17014118346046923173168730371588410572.7");
    assert_eq!(d("0.125").mul_div_exact(8, 1), Some(d("1")));
    assert_eq!(d("-17014118346046923173168730371588410572.7").mul_div_exact(10, 1), Some(d(&format!("-{most}"))));
}

#[test]
fn products_compare_without_overflow() {
    let most = d("170141183460469231731687303715884105727");
    let next = d("170141183460469231731687303715884105726");
    assert_eq!(most.compare_times(1_000_000, &next, 1_000_000), Order::Greater);
    assert_eq!(most.compare_times(1, &next, 1_000_000), Order::Less);
    assert_eq!(most.compare_times(7, &most, 7), Order::Equal);
    assert_eq!(d("1.5").compare_times(60, &d("90"), 1), Order::Equal);
    assert_eq!(d("-1.5").compare_times(60, &d("90"), 1), Order::Less);
}
