//! What a refused form is answered, word for word.

use varve::canonical::{CanonicalValue, Members};
use varve::codec::{op_from, path_from, scalar_from, state_from};
use varve::decimal::PrimitiveError;
use varve::entry_codec::{entry_from, origin_from};
use varve::expr_codec::from_canonical;

fn text(s: &str) -> CanonicalValue {
    CanonicalValue::String(s.to_string())
}

fn object(members: Vec<(&str, CanonicalValue)>) -> CanonicalValue {
    let mut m = Members::new();
    for (k, v) in members {
        m.insert(k.to_string(), v);
    }
    CanonicalValue::Object(m)
}

fn array(items: Vec<CanonicalValue>) -> CanonicalValue {
    CanonicalValue::Array(items)
}

fn scalar_message(v: CanonicalValue) -> String {
    scalar_from(&v).unwrap_err().0
}

fn op_message(v: CanonicalValue) -> String {
    op_from(&v).unwrap_err().0
}

fn rule_message(v: CanonicalValue) -> String {
    from_canonical(&v).unwrap_err().0
}

#[test]
fn primitive_errors_are_put_in_words() {
    assert_eq!(PrimitiveError::Malformed("empty decimal").to_string(), "empty decimal");
    assert_eq!(
        PrimitiveError::OutOfRange("decimal too large").to_string(),
        "out of range: decimal too large"
    );
}

#[test]
fn refused_paths_say_why() {
    assert_eq!(path_from(&text("x")).unwrap_err().0, "expected an array");
    assert_eq!(path_from(&array(vec![text("x")])).unwrap_err().0, "expected an array");
    let good = array(vec![text("g"), text("i")]);
    let short = array(vec![text("g")]);
    assert_eq!(
        path_from(&array(vec![good.clone(), short.clone(), text("x")])).unwrap_err().0,
        "path segment must be [group, item]"
    );
    assert!(path_from(&array(vec![good])).is_ok());
}

#[test]
fn refused_scalars_say_why() {
    assert_eq!(scalar_message(CanonicalValue::Null), "expected an object");
    assert_eq!(scalar_message(object(vec![])), "empty scalar");
    assert_eq!(
        scalar_message(object(vec![("text", text("a")), ("option", text("b"))])),
        "scalar must have exactly one key"
    );
    assert_eq!(scalar_message(object(vec![("boolean", text("true"))])), "boolean must be a bool");
    assert_eq!(
        scalar_message(object(vec![("integer", text("007"))])),
        "integer must be a normalized decimal string"
    );
    assert_eq!(
        scalar_message(object(vec![("decimal", text("1.50"))])),
        "decimal must be in normalized form"
    );
    assert_eq!(scalar_message(object(vec![("decimal", text("x"))])), "non-digit in decimal");
    assert_eq!(
        scalar_message(object(vec![("date", text("2024-13-01"))])),
        "expected YYYY-MM-DD"
    );
    assert_eq!(
        scalar_message(object(vec![("datetime", text("2024-01-01T00:00:00+00:00"))])),
        "datetime must be in normalized form"
    );
    assert_eq!(
        scalar_message(object(vec![("datetime", text("noon"))])),
        "expected RFC 3339 instant"
    );
    assert_eq!(scalar_message(object(vec![("text", CanonicalValue::Null)])), "expected a string");
    assert_eq!(
        scalar_message(object(vec![("colour", text("red"))])),
        "unknown scalar kind 'colour'"
    );
}

#[test]
fn refused_attachments_say_why() {
    let attachment = |hash: &str, size: i64| {
        object(vec![
            ("id", text("a")),
            ("hash", text(hash)),
            ("filename", text("f.pdf")),
            ("content_type", text("application/pdf")),
            ("byte_size", CanonicalValue::Int(size)),
        ])
    };
    let wrap = |v| object(vec![("attachment", v)]);
    assert_eq!(scalar_message(wrap(attachment("nope", 1))), "bad content hash");
    let hash = format!("sha256:{}", "0".repeat(64));
    assert_eq!(scalar_message(wrap(attachment(&hash, -1))), "bad byte_size");
    assert_eq!(
        scalar_message(wrap(attachment(&hash, 9_007_199_254_740_992))),
        "missing JCS-safe integer 'byte_size'"
    );
    assert_eq!(scalar_message(wrap(object(vec![]))), "missing string 'id'");
    assert_eq!(
        scalar_message(wrap(object(vec![("zeta", text("z")), ("alpha", text("a"))]))),
        "unexpected key 'alpha'"
    );
}

#[test]
fn refused_states_say_why() {
    assert_eq!(
        state_from(&array(vec![])).unwrap_err().0,
        "a zero-length list is not a value — use null"
    );
    assert_eq!(
        state_from(&text("x")).unwrap_err().0,
        "a cell state is null, a scalar object, or an array of scalar objects"
    );
    assert_eq!(
        state_from(&array(vec![object(vec![("text", text("a"))]), object(vec![])])).unwrap_err().0,
        "empty scalar"
    );
}

#[test]
fn refused_operations_say_why() {
    assert_eq!(op_message(CanonicalValue::Null), "expected an object");
    assert_eq!(op_message(object(vec![])), "missing string 'op'");
    assert_eq!(op_message(object(vec![("op", text("erase"))])), "unknown op 'erase'");
    assert_eq!(
        op_message(object(vec![("op", text("unset")), ("state", CanonicalValue::Null)])),
        "unexpected key 'state'"
    );
    assert_eq!(op_message(object(vec![("op", text("unset"))])), "missing string 'column'");
    assert_eq!(
        op_message(object(vec![("op", text("unset")), ("column", text("c"))])),
        "missing 'path'"
    );
    let addition = |at: i64| {
        object(vec![
            ("op", text("add_item")),
            ("group", text("g")),
            ("parent", array(vec![])),
            ("item", text("i")),
            ("at", CanonicalValue::Int(at)),
        ])
    };
    assert_eq!(op_message(addition(-1)), "bad index");
    assert!(op_from(&addition(0)).is_ok());
    assert_eq!(
        op_message(object(vec![
            ("op", text("reorder")),
            ("group", text("g")),
            ("parent", array(vec![])),
            ("order", array(vec![CanonicalValue::Null])),
        ])),
        "order entries must be strings"
    );
}

#[test]
fn refused_origins_and_entries_say_why() {
    assert_eq!(origin_from(&text("guessed")).unwrap_err().0, "expected an object");
    assert_eq!(
        origin_from(&object(vec![("copied", CanonicalValue::Null)])).unwrap_err().0,
        "origin must be 'entered', 'derived' or 'overridden'"
    );
    assert_eq!(
        origin_from(&object(vec![("derived", object(vec![]))])).unwrap_err().0,
        "missing string 'source'"
    );
    assert_eq!(entry_from(&object(vec![])).unwrap_err().0, "missing 'ops'");
    let unset = object(vec![
        ("op", text("unset")),
        ("column", text("c")),
        ("path", array(vec![])),
    ]);
    let entry = |salt: &str, note: CanonicalValue| {
        object(vec![
            ("ops", array(vec![unset.clone()])),
            ("origin", text("entered")),
            ("note", note),
            ("meta_salt", text(salt)),
            ("op_salts", array(vec![])),
        ])
    };
    let zeros = "0".repeat(64);
    assert_eq!(
        entry_from(&entry(&zeros, CanonicalValue::Null)).unwrap_err().0,
        "1 ops but 0 op salts (need one per op)"
    );
    assert_eq!(
        entry_from(&entry(&zeros, CanonicalValue::Bool(true))).unwrap_err().0,
        "note must be a string or null"
    );
    assert_eq!(
        entry_from(&entry("00", CanonicalValue::Null)).unwrap_err().0,
        "salt must be 32 bytes hex"
    );
    assert_eq!(
        entry_from(&entry(&"A".repeat(64), CanonicalValue::Null)).unwrap_err().0,
        "salt must be lowercase hex"
    );
}

#[test]
fn refused_rules_say_why() {
    assert_eq!(rule_message(text("x")), "expected an object");
    assert_eq!(
        rule_message(object(vec![("and", array(vec![])), ("or", array(vec![]))])),
        "an expression is 'and' or 'or', not both"
    );
    assert_eq!(
        rule_message(object(vec![("and", array(vec![])), ("why", text("x"))])),
        "unexpected key 'why'"
    );
    assert_eq!(
        rule_message(object(vec![("or", text("x"))])),
        "combinator operands must be an array"
    );
    assert_eq!(rule_message(object(vec![])), "missing string field 'op'");
    assert_eq!(rule_message(object(vec![("op", text("xor"))])), "unknown op 'xor'");
    assert_eq!(rule_message(object(vec![("op", text("eq"))])), "missing 'source'");
    assert_eq!(
        rule_message(object(vec![("op", text("pending"))])),
        "missing string field 'group'"
    );
    let source = object(vec![("column", text("c"))]);
    assert_eq!(
        rule_message(object(vec![("op", text("eq")), ("source", source.clone())])),
        "missing 'right'"
    );
    let constant = |v| {
        object(vec![
            ("op", text("eq")),
            ("source", source.clone()),
            ("right", object(vec![("const", v)])),
        ])
    };
    assert_eq!(rule_message(constant(object(vec![]))), "empty constant");
    assert_eq!(
        rule_message(constant(object(vec![("boolean", text("x"))]))),
        "'boolean' must be a bool"
    );
    assert_eq!(
        rule_message(constant(object(vec![("number", object(vec![("value", text("x"))]))]))),
        "bad number: non-digit in decimal"
    );
    assert_eq!(
        rule_message(constant(object(vec![(
            "number",
            object(vec![("value", text("1")), ("unit", text("parsec"))])
        )]))),
        "unknown unit 'parsec'"
    );
    assert_eq!(
        rule_message(constant(object(vec![("date", text("soon"))]))),
        "bad date: expected YYYY-MM-DD"
    );
    assert_eq!(
        rule_message(constant(object(vec![("hue", text("red"))]))),
        "unknown constant kind 'hue'"
    );
    let mut deep = object(vec![("and", array(vec![]))]);
    for _ in 0..200 {
        deep = object(vec![("and", array(vec![deep]))]);
    }
    assert_eq!(
        rule_message(deep),
        format!("expression nests deeper than {}", varve::logic::MAX_DEPTH)
    );
}
