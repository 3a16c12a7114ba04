//! Canonical forms of values, operations and entries, read strictly.

use varve::canonical::{hash_plain, CanonicalValue, Float, Members};
use varve::codec::{op, op_from, path_from, scalar_from, state_from};
use varve::entry_codec::{entry_from, origin_from};
use varve::value::{CellState, Op};
use varve::{ColumnId, RowPath};

fn obj(pairs: Vec<(&str, CanonicalValue)>) -> CanonicalValue {
    let mut members = Members::new();
    for (key, value) in pairs {
        members.insert(key.to_string(), value);
    }
    CanonicalValue::Object(members)
}

fn float(x: f64) -> CanonicalValue {
    let mut buffer = ryu::Buffer::new();
    let text = buffer.format_finite(x.abs());
    CanonicalValue::Float(Float::from_shortest(x.is_sign_negative(), text).unwrap())
}

fn s(t: &str) -> CanonicalValue {
    CanonicalValue::String(t.into())
}

fn one(kind: &str, v: CanonicalValue) -> CanonicalValue {
    obj(vec![(kind, v)])
}

#[test]
fn scalars_have_one_text_each() {
    for bad in ["007", "+1", "-0", " 1", "1 ", "1.0", "", "0x10"] {
        assert!(scalar_from(&one("integer", s(bad))).is_err(), "integer {bad:?}");
    }
    for good in ["0", "-1", "9223372036854775807", "-9223372036854775808"] {
        assert!(scalar_from(&one("integer", s(good))).is_ok(), "integer {good:?}");
    }
    for bad in ["1.50", "1.", ".5", "007", "-0", "+1", "1,5", ""] {
        assert!(scalar_from(&one("decimal", s(bad))).is_err(), "decimal {bad:?}");
    }
    for good in ["1.5", "0", "-0.05", "12345678901234567890"] {
        assert!(scalar_from(&one("decimal", s(good))).is_ok(), "decimal {good:?}");
    }
    assert!(scalar_from(&one("datetime", s("2026-08-16T12:00:00+02:00"))).is_err());
    assert!(scalar_from(&one("datetime", s("2026-08-16T12:00:00+00:00"))).is_err());
    assert!(scalar_from(&one("datetime", s("2026-08-16T12:00:00.500Z"))).is_err());
    assert!(scalar_from(&one("datetime", s("2026-08-16T12:00:00Z"))).is_ok());
    assert!(scalar_from(&one("datetime", s("2026-08-16T12:00:00.5Z"))).is_ok());
    assert!(scalar_from(&one("date", s("2026-8-16"))).is_err());
    assert!(scalar_from(&one("date", s("2026-02-30"))).is_err());
    assert!(scalar_from(&one("date", s("2026-08-16"))).is_ok());
    assert!(scalar_from(&one("text", CanonicalValue::Int(1))).is_err());
    assert!(scalar_from(&one("boolean", s("true"))).is_err());
    assert!(scalar_from(&one("integer", CanonicalValue::Int(1))).is_err());
    assert!(scalar_from(&one("float", float(1.0))).is_err());
    assert!(scalar_from(&obj(vec![])).is_err());
    assert!(scalar_from(&obj(vec![("text", s("a")), ("boolean", CanonicalValue::Bool(true))])).is_err());
    assert!(scalar_from(&s("text")).is_err());
    assert!(scalar_from(&one("geometry", obj(vec![("type", s("Point")), ("coordinates", CanonicalValue::Array(vec![]))]))).is_err());
}

#[test]
fn attachments_are_decoded_strictly() {
    let hash = hash_plain(&s("x")).unwrap().to_string();
    let att = |extra: Vec<(&str, CanonicalValue)>, size: CanonicalValue, h: &str| {
        let mut pairs = vec![
            ("id", s("f1")),
            ("hash", s(h)),
            ("filename", s("f.pdf")),
            ("content_type", s("application/pdf")),
            ("byte_size", size),
        ];
        pairs.extend(extra);
        one("attachment", obj(pairs))
    };
    assert!(scalar_from(&att(vec![], CanonicalValue::Int(10), &hash)).is_ok());
    assert!(scalar_from(&att(vec![("extra", s("x"))], CanonicalValue::Int(10), &hash)).is_err());
    assert!(scalar_from(&att(vec![], CanonicalValue::Int(-1), &hash)).is_err());
    assert!(scalar_from(&att(vec![], float(10.0), &hash)).is_err());
    assert!(scalar_from(&att(vec![], s("10"), &hash)).is_err());
    assert!(scalar_from(&att(vec![], CanonicalValue::Int(10), "sha256:nothex")).is_err());
    assert!(scalar_from(&att(vec![], CanonicalValue::Int(10), &hash.to_uppercase())).is_err());
    let missing = one("attachment", obj(vec![("id", s("f1")), ("hash", s(&hash))]));
    assert!(scalar_from(&missing).is_err());
}

#[test]
fn states_ops_and_origins_are_decoded_strictly() {
    assert!(state_from(&CanonicalValue::Array(vec![])).is_err());
    assert!(state_from(&CanonicalValue::Bool(true)).is_err());
    assert!(state_from(&s("text")).is_err());
    assert_eq!(state_from(&CanonicalValue::Null).unwrap(), CellState::Empty);

    let path = CanonicalValue::Array(vec![]);
    assert!(op_from(&obj(vec![("op", s("delete")), ("column", s("c")), ("path", path.clone())])).is_err());
    assert!(op_from(&obj(vec![("op", s("unset")), ("column", s("c")), ("path", path.clone()), ("state", CanonicalValue::Null)])).is_err());
    assert!(op_from(&obj(vec![("op", s("add_item")), ("group", s("g")), ("parent", path.clone()), ("item", s("i")), ("at", CanonicalValue::Int(-1))])).is_err());
    assert!(op_from(&obj(vec![("op", s("add_item")), ("group", s("g")), ("parent", path.clone()), ("item", s("i")), ("at", float(0.0))])).is_err());
    assert!(op_from(&obj(vec![("op", s("set")), ("column", s("c")), ("path", path.clone())])).is_err());
    assert!(op_from(&obj(vec![("op", s("reorder")), ("group", s("g")), ("parent", path.clone()), ("order", CanonicalValue::Array(vec![CanonicalValue::Int(1)]))])).is_err());
    assert!(path_from(&CanonicalValue::Array(vec![CanonicalValue::Array(vec![s("g")])])).is_err());
    assert!(path_from(&CanonicalValue::Array(vec![s("g/i")])).is_err());
    assert!(path_from(&s("")).is_err());

    assert!(origin_from(&s("derived")).is_err());
    assert!(origin_from(&s("Entered")).is_err());
    assert!(origin_from(&obj(vec![("entered", CanonicalValue::Null)])).is_err());
    let derivation = |extra: bool| {
        let mut pairs = vec![
            ("source", s("insee")),
            ("source_version", CanonicalValue::Int(1)),
            ("mapping_version", CanonicalValue::Int(1)),
            ("snapshot_ref", s(&hash_plain(&s("x")).unwrap().to_string())),
        ];
        if extra {
            pairs.push(("extra", s("x")));
        }
        obj(pairs)
    };
    assert!(origin_from(&one("derived", derivation(false))).is_ok());
    assert!(origin_from(&one("derived", derivation(true))).is_err());
    assert!(origin_from(&one("overridden", derivation(true))).is_err());
    assert!(origin_from(&one("overridden", CanonicalValue::Null)).is_ok());
    assert!(origin_from(&obj(vec![("derived", derivation(false)), ("overridden", CanonicalValue::Null)])).is_err());
}

#[test]
fn entries_are_decoded_strictly() {
    let hash = hash_plain(&s("x")).unwrap().to_string();
    let salt_hex = "ab".repeat(32);
    let base = || {
        vec![
            ("seq", CanonicalValue::Int(0)),
            ("prev", s(&hash)),
            ("actor", s("a1")),
            ("actor_kind", s("human")),
            ("timestamp", s("2026-08-16T10:00:00Z")),
            ("revision", s("rev-1")),
            ("base_version", CanonicalValue::Int(0)),
            ("content_hash", s(&hash)),
            ("origin", s("entered")),
            ("note", CanonicalValue::Null),
            ("ops", CanonicalValue::Array(vec![])),
            ("meta_salt", s(&salt_hex)),
            ("op_salts", CanonicalValue::Array(vec![])),
        ]
    };
    let with = |edits: Vec<(&str, CanonicalValue)>| {
        let mut pairs = base();
        for (k, v) in edits {
            match pairs.iter_mut().find(|(pk, _)| *pk == k) {
                Some(slot) => slot.1 = v,
                None => pairs.push((k, v)),
            }
        }
        obj(pairs)
    };
    assert!(entry_from(&with(vec![])).is_ok());
    assert!(entry_from(&with(vec![("k", s("entry")), ("record", s("r1"))])).is_ok());
    assert_eq!(
        entry_from(&with(vec![("k", s("entry")), ("record", s("r1"))])),
        entry_from(&with(vec![]))
    );
    assert!(entry_from(&with(vec![])).unwrap().is_addressable());
    assert!(entry_from(&with(vec![("seq", CanonicalValue::Int(1 << 53))])).is_err());
    assert!(entry_from(&with(vec![("extra", s("x"))])).is_err());
    assert!(entry_from(&with(vec![("meta_salt", s(&salt_hex.to_uppercase()))])).is_err());
    assert!(entry_from(&with(vec![("meta_salt", s(&salt_hex[..62]))])).is_err());
    assert!(entry_from(&with(vec![("meta_salt", s(&"zz".repeat(32)))])).is_err());
    assert!(entry_from(&with(vec![("meta_salt", CanonicalValue::Int(1))])).is_err());
    let set_op = op(&Op::Put { column: ColumnId::new("c"), path: RowPath::root(), state: CellState::Empty });
    assert!(entry_from(&with(vec![("ops", CanonicalValue::Array(vec![set_op.clone()]))])).is_err());
    assert!(entry_from(&with(vec![("op_salts", CanonicalValue::Array(vec![s(&salt_hex)]))])).is_err());
    assert!(entry_from(&with(vec![
        ("ops", CanonicalValue::Array(vec![set_op])),
        ("op_salts", CanonicalValue::Array(vec![s(&salt_hex)])),
    ]))
    .is_ok());
    assert!(entry_from(&with(vec![("actor_kind", s("robot"))])).is_err());
    assert!(entry_from(&with(vec![("note", CanonicalValue::Int(1))])).is_err());
    assert!(entry_from(&with(vec![("seq", CanonicalValue::Int(-1))])).is_err());
    assert!(entry_from(&with(vec![("seq", float(0.0))])).is_err());
    assert!(entry_from(&with(vec![("timestamp", s("2026-08-16 10:00:00Z"))])).is_err());
    assert!(entry_from(&with(vec![("prev", s("sha256:short"))])).is_err());
    assert!(entry_from(&with(vec![("content_hash", s(&hash.to_uppercase()))])).is_err());
    assert!(entry_from(&with(vec![("origin", s("derived"))])).is_err());
    let mut pairs = base();
    pairs.retain(|(k, _)| *k != "revision");
    assert!(entry_from(&obj(pairs)).is_err());
}
