//! Canonical bytes, content addresses and commitments.

use varve::canonical::{
    canonical_bytes, canonical_text, commit, commit_vector, hash_plain, sha256, CanonicalError,
    CanonicalValue, ContentHash, Float, Members, Salt, MAX_SAFE_INTEGER,
};

fn obj(pairs: Vec<(&str, CanonicalValue)>) -> CanonicalValue {
    let mut members = Members::new();
    for (key, value) in pairs {
        members.insert(key.to_string(), value);
    }
    CanonicalValue::Object(members)
}

fn float(x: f64) -> CanonicalValue {
    if !x.is_finite() {
        return CanonicalValue::Float(Float::NonFinite);
    }
    let mut buffer = ryu::Buffer::new();
    let text = buffer.format_finite(x.abs());
    CanonicalValue::Float(Float::from_shortest(x.is_sign_negative(), text).unwrap())
}

fn bytes(value: &CanonicalValue) -> String {
    String::from_utf8(canonical_bytes(value).unwrap()).unwrap()
}

#[test]
fn integers_are_jcs_safe_or_refused() {
    assert_eq!(bytes(&CanonicalValue::Int(MAX_SAFE_INTEGER)), "9007199254740991");
    assert_eq!(bytes(&CanonicalValue::Int(-MAX_SAFE_INTEGER)), "-9007199254740991");
    assert_eq!(bytes(&CanonicalValue::Int(0)), "0");
    assert_eq!(
        bytes(&CanonicalValue::Int(MAX_SAFE_INTEGER)),
        bytes(&float(MAX_SAFE_INTEGER as f64))
    );
    for i in [MAX_SAFE_INTEGER + 1, -(MAX_SAFE_INTEGER + 1), i64::MAX, i64::MIN + 1] {
        assert_eq!(
            canonical_bytes(&CanonicalValue::Int(i)),
            Err(CanonicalError::UnsafeInteger(i))
        );
    }
    assert_eq!(
        canonical_bytes(&CanonicalValue::Int(i64::MIN)),
        Err(CanonicalError::UnsafeInteger(i64::MIN))
    );
}

#[test]
fn jcs_structure_and_escaping() {
    let value = obj(vec![
        ("b", CanonicalValue::Int(2)),
        ("a", CanonicalValue::Null),
        ("s", CanonicalValue::String("a\"b\\c\n\u{0f}€/".to_string())),
        (
            "arr",
            CanonicalValue::Array(vec![CanonicalValue::Bool(true), CanonicalValue::Bool(false)]),
        ),
    ]);
    assert_eq!(
        bytes(&value),
        "{\"a\":null,\"arr\":[true,false],\"b\":2,\"s\":\"a\\\"b\\\\c\\n\\u000f€/\"}"
    );
}

#[test]
fn jcs_key_order_is_utf16_not_codepoint() {
    let value = obj(vec![
        ("\u{FFFD}", CanonicalValue::Int(1)),
        ("\u{10000}", CanonicalValue::Int(2)),
    ]);
    let out = bytes(&value);
    let supplementary = out.find('\u{10000}').unwrap();
    let replacement = out.find('\u{FFFD}').unwrap();
    assert!(supplementary < replacement);
}

#[test]
fn es6_numbers() {
    let cases: &[(f64, &str)] = &[
        (0.0, "0"),
        (-0.0, "0"),
        (1.0, "1"),
        (-1.5, "-1.5"),
        (100.0, "100"),
        (123.456, "123.456"),
        (0.5, "0.5"),
        (1e20, "100000000000000000000"),
        (1e21, "1e+21"),
        (1e-6, "0.000001"),
        (1e-7, "1e-7"),
        (1.5e300, "1.5e+300"),
        (4.5, "4.5"),
        (0.002, "0.002"),
        (1e30, "1e+30"),
        (1e-27, "1e-27"),
    ];
    for (input, expected) in cases {
        assert_eq!(canonical_text(&float(*input)).unwrap(), *expected, "for input {input:e}");
    }
    assert_eq!(
        canonical_bytes(&float(f64::NAN)),
        Err(CanonicalError::NonFiniteNumber)
    );
}

#[test]
fn es6_extreme_vectors() {
    let cases: &[(f64, &str)] = &[
        (1e23, "1e+23"),
        (5e-324, "5e-324"),
        (f64::MAX, "1.7976931348623157e+308"),
        (0.1 + 0.2, "0.30000000000000004"),
        (1.2345678901234568e20, "123456789012345680000"),
    ];
    for (input, expected) in cases {
        assert_eq!(canonical_text(&float(*input)).unwrap(), *expected);
    }
}

#[test]
fn shortest_texts_are_taken_apart() {
    assert_eq!(
        Float::from_shortest(true, "1.5e-7"),
        Some(Float::Finite { negative: true, digits: "15".to_string(), exponent: -8 })
    );
    assert_eq!(
        Float::from_shortest(false, "1200.0"),
        Some(Float::Finite { negative: false, digits: "12".to_string(), exponent: 2 })
    );
    // Zero has one form.
    assert_eq!(Float::from_shortest(true, "0.0"), Float::from_shortest(false, "0"));
    for refused in ["", ".", "e5", "1e", "1e+-3", "1e-+3", "NaN", "1.2.3", "1e99999999999"] {
        assert_eq!(Float::from_shortest(false, refused), None, "{refused:?}");
    }
}

#[test]
fn content_hash_roundtrip_and_known_digest() {
    let hash = sha256(&[b"abc"]);
    assert_eq!(
        hash.to_string(),
        "sha256:ba7816bf8f01cfea414140de5dae2223b00361a396177a9cb410ff61f20015ad"
    );
    let parsed = ContentHash::from_str(hash.to_string().as_str()).unwrap();
    assert_eq!(parsed, hash);
    assert!(ContentHash::from_str("sha256:zz").is_err());
    assert!(ContentHash::from_str("blake3:00").is_err());
    // One address, one text.
    assert!(ContentHash::from_str(hash.to_string().to_uppercase().as_str()).is_err());
}

#[test]
fn plain_hash_converges_and_commitments_do_not() {
    let value = obj(vec![("name", CanonicalValue::String("Dupont".into()))]);
    assert_eq!(hash_plain(&value).unwrap(), hash_plain(&value).unwrap());

    let salt_a = Salt([1; 32]);
    let salt_b = Salt([2; 32]);
    assert_ne!(commit(&salt_a, &value).unwrap(), commit(&salt_b, &value).unwrap());
    assert_eq!(commit(&salt_a, &value).unwrap(), commit(&salt_a, &value).unwrap());
}

#[test]
fn filtered_export_verifies_with_withheld_ops() {
    let op1 = obj(vec![("set", CanonicalValue::String("visible".into()))]);
    let op2 = obj(vec![("set", CanonicalValue::String("secret".into()))]);
    let (salt1, salt2) = (Salt([3; 32]), Salt([4; 32]));
    let c1 = commit(&salt1, &op1).unwrap();
    let c2 = commit(&salt2, &op2).unwrap();
    let entry_hash = commit_vector(&[c1, c2]);

    let recomputed_c1 = commit(&salt1, &op1).unwrap();
    assert_eq!(commit_vector(&[recomputed_c1, c2]), entry_hash);
    // The order counts.
    assert_ne!(commit_vector(&[c2, c1]), entry_hash);
}

#[test]
fn an_unencodable_value_has_no_address() {
    let value = CanonicalValue::Array(vec![CanonicalValue::Int(i64::MAX)]);
    assert_eq!(hash_plain(&value), Err(CanonicalError::UnsafeInteger(i64::MAX)));
    assert_eq!(
        commit(&Salt([0; 32]), &value),
        Err(CanonicalError::UnsafeInteger(i64::MAX))
    );
}

#[test]
fn a_vector_commitment_is_the_hash_of_the_list() {
    let a = varve::canonical::hash_plain(&CanonicalValue::Int(1)).unwrap();
    let b = varve::canonical::hash_plain(&CanonicalValue::Int(2)).unwrap();
    let list = |hashes: &[varve::canonical::ContentHash]| {
        let items = hashes.iter().map(|h| CanonicalValue::String(h.to_string())).collect();
        varve::canonical::hash_plain(&CanonicalValue::Array(items)).unwrap()
    };
    for hashes in [vec![], vec![a], vec![a, b], vec![b, a]] {
        assert_eq!(varve::canonical::commit_vector(&hashes), list(&hashes));
    }
}

#[test]
fn different_values_are_written_differently() {
    let text = |s: &str| CanonicalValue::String(s.into());
    let mut values = vec![
        CanonicalValue::Null,
        CanonicalValue::Bool(true),
        CanonicalValue::Bool(false),
        CanonicalValue::Int(0),
        CanonicalValue::Int(-1),
        CanonicalValue::Int(10),
        text(""),
        text("null"),
        text("0"),
        text("\""),
        text("\\"),
        text("\\\""),
        text("\u{1}"),
        text("\\u0001"),
        CanonicalValue::Array(vec![]),
        CanonicalValue::Array(vec![CanonicalValue::Array(vec![])]),
        CanonicalValue::Array(vec![text("a,b")]),
        CanonicalValue::Array(vec![text("a"), text("b")]),
        CanonicalValue::Array(vec![CanonicalValue::Int(1), CanonicalValue::Int(2)]),
        CanonicalValue::Array(vec![CanonicalValue::Int(12)]),
    ];
    for (key, value) in [("a", text("b")), ("a\":\"b", text("")), ("", text("a"))] {
        let mut members = Members::new();
        members.insert(key.to_string(), value);
        values.push(CanonicalValue::Object(members));
    }
    for (i, a) in values.iter().enumerate() {
        for (j, b) in values.iter().enumerate() {
            let same = canonical_bytes(a).unwrap()
                == canonical_bytes(b).unwrap();
            assert_eq!(same, i == j, "{a:?} {b:?}");
        }
    }
    // A whole number has one text, however it is held.
    let double = Float::from_shortest(false, "1.0").unwrap();
    assert_eq!(
        canonical_text(&CanonicalValue::Float(double)),
        canonical_text(&CanonicalValue::Int(1))
    );
}
