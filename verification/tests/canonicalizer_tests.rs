use canonicalizer::canonicalize;
use canonicalizer::canonically_equal;
use canonicalizer::semantic_hash;
use canonicalizer::verify_semantic_hash;
use canonicalizer::ConstitutionalError;
use canonicalizer::Number;
use canonicalizer::Value;
use sha2::Digest;

fn num(i: u64) -> Value {
    Value::Num(Number { neg: false, mant: i, scale: 0 })
}

fn dec(neg: bool, mant: u64, scale: u32) -> Value {
    Value::Num(Number { neg, mant, scale })
}

fn text(t: &str) -> Value {
    Value::Text(t.to_string())
}

fn obj(pairs: Vec<(&str, Value)>) -> Value {
    Value::Obj(pairs.into_iter().map(|(k, v)| (k.to_string(), v)).collect())
}

#[test]
fn test_basic_canonicalization() {
    let dict_a = obj(vec![("a", num(1)), ("b", num(2)), ("c", num(3))]);
    let dict_b = obj(vec![("c", num(3)), ("a", num(1)), ("b", num(2))]);

    let canonical_a = canonicalize(&dict_a, true).unwrap();
    let canonical_b = canonicalize(&dict_b, true).unwrap();

    assert_eq!(canonical_a, canonical_b);
    assert_eq!(
        semantic_hash(&dict_a).unwrap(),
        semantic_hash(&dict_b).unwrap()
    );
}

#[test]
fn test_nested_structures() {
    let complex_dict = obj(vec![
        ("z", Value::Arr(vec![num(3), num(1), num(2)])),
        (
            "a",
            obj(vec![
                ("c", num(3)),
                ("a", num(1)),
                ("b", obj(vec![("f", num(6)), ("d", num(4)), ("e", num(5))])),
            ]),
        ),
        ("b", num(2)),
    ]);

    let canonical = canonicalize(&complex_dict, true).unwrap();
    let expected = r#"{"a":{"a":1,"b":{"d":4,"e":5,"f":6},"c":3},"b":2,"z":[1,2,3]}"#;
    assert_eq!(canonical, expected);
}

#[test]
fn test_hash_sensitivity() {
    let original = obj(vec![
        ("action_id", text("001-XYZ")),
        ("agent", text("Aria-3")),
        ("claim", text("The initial cost is $500")),
        ("evidence_ptr", text("archive://0000001")),
        ("timestamp", num(1700000000)),
    ]);

    let modified = obj(vec![
        ("action_id", text("001-XYZ")),
        ("agent", text("Aria-3")),
        ("claim", text("The initial cost is $501")),
        ("evidence_ptr", text("archive://0000001")),
        ("timestamp", num(1700000000)),
    ]);

    let hash_original = semantic_hash(&original).unwrap();
    let hash_modified = semantic_hash(&modified).unwrap();

    assert_ne!(hash_original, hash_modified);
}

#[test]
fn test_verify_hash() {
    let test_data = obj(vec![("action", text("propose")), ("value", num(42))]);

    let test_hash = semantic_hash(&test_data).unwrap();

    assert!(verify_semantic_hash(&test_data, &test_hash).unwrap());

    let tampered_data = obj(vec![("action", text("propose")), ("value", num(43))]);

    assert!(!verify_semantic_hash(&tampered_data, &test_hash).unwrap());
}

#[test]
fn test_canonical_equality() {
    let obj1 = obj(vec![("z", num(1)), ("a", num(2))]);
    let obj2 = obj(vec![("a", num(2)), ("z", num(1))]);

    assert!(canonically_equal(&obj1, &obj2));
}

#[test]
fn test_complex_contract() {
    let contract = obj(vec![
        ("id", text("550e8400-e29b-41d4-a716-446655440000")),
        ("proposer_agent", text("Aria")),
        ("action_type", text("amend")),
        (
            "action",
            obj(vec![
                ("target", text("amendment-article-3")),
                ("operation", text("modify")),
            ]),
        ),
        (
            "evidence",
            Value::Arr(vec![obj(vec![
                ("type", text("archive_reference")),
                ("pointer", text("sha256:abc123def456")),
            ])]),
        ),
        (
            "reasoning",
            obj(vec![
                ("rationale", text("Clarifies Article III.1")),
                ("confidence", dec(false, 87, 2)),
            ]),
        ),
        ("timestamp", text("2025-11-20T14:30:00Z")),
    ]);

    let hash = semantic_hash(&contract).unwrap();
    assert!(hash.len() == 64); // SHA256 hex is 64 chars
    assert!(verify_semantic_hash(&contract, &hash).unwrap());
}

#[test]
fn test_array_sorting() {
    let with_unsorted = obj(vec![(
        "numbers",
        Value::Arr(vec![num(5), num(3), num(1), num(4), num(2)]),
    )]);

    let with_sorted = obj(vec![(
        "numbers",
        Value::Arr(vec![num(1), num(2), num(3), num(4), num(5)]),
    )]);

    assert_eq!(
        semantic_hash(&with_unsorted).unwrap(),
        semantic_hash(&with_sorted).unwrap()
    );
}

#[test]
fn test_cross_language_vector() {
    let python_test_vector = obj(vec![
        ("action", text("propose")),
        ("agent", text("Aria")),
        ("confidence", dec(false, 88, 2)),
        ("timestamp", text("2025-11-20T14:30:00Z")),
    ]);

    let hash = semantic_hash(&python_test_vector).unwrap();
    println!("Rust hash: {}", hash);
    println!("Compare with Python/JavaScript implementation for validation");

    assert!(hash.len() == 64);
}

#[test]
fn test_strict_rejects_non_object() {
    let r = canonicalize(&num(7), true);
    assert!(matches!(
        r,
        Err(ConstitutionalError::CanonicalizationError(_))
    ));
    let r2 = semantic_hash(&Value::Arr(vec![num(1)]));
    assert!(matches!(
        r2,
        Err(ConstitutionalError::CanonicalizationError(_))
    ));
}

#[test]
fn test_non_strict_wraps_non_object() {
    assert_eq!(canonicalize(&num(42), false).unwrap(), r#"{"value":42}"#);
    assert_eq!(canonicalize(&Value::Null, false).unwrap(), r#"{"value":null}"#);
    assert_eq!(
        canonicalize(&Value::Arr(vec![num(2), num(1)]), false).unwrap(),
        r#"{"value":[1,2]}"#
    );
}

#[test]
fn test_number_formatting() {
    let v = obj(vec![
        ("a", dec(false, 87, 2)),
        ("b", dec(true, 35, 1)),
        ("c", num(0)),
        ("d", dec(false, 5, 3)),
        ("e", dec(true, 12, 0)),
    ]);
    assert_eq!(
        canonicalize(&v, true).unwrap(),
        r#"{"a":0.87,"b":-3.5,"c":0,"d":0.005,"e":-12}"#
    );
}

#[test]
fn test_string_escaping() {
    let v = obj(vec![
        ("q", text("say \"hi\"")),
        ("bs", text("a\\b")),
        ("ctl", text("x\ny\t\u{1}")),
        ("uni", text("héllo")),
    ]);
    assert_eq!(
        canonicalize(&v, true).unwrap(),
        "{\"bs\":\"a\\\\b\",\"ctl\":\"x\\ny\\t\\u0001\",\"q\":\"say \\\"hi\\\"\",\"uni\":\"héllo\"}"
    );
}

#[test]
fn test_homogeneous_string_and_bool_arrays_sorted() {
    let a = obj(vec![(
        "tags",
        Value::Arr(vec![text("b"), text("a"), text("c")]),
    )]);
    assert_eq!(canonicalize(&a, true).unwrap(), r#"{"tags":["a","b","c"]}"#);

    let b = obj(vec![(
        "flags",
        Value::Arr(vec![Value::Bool(true), Value::Bool(false)]),
    )]);
    assert_eq!(canonicalize(&b, true).unwrap(), r#"{"flags":[false,true]}"#);
}

#[test]
fn test_mixed_array_order_is_significant() {
    let a = obj(vec![("m", Value::Arr(vec![num(1), text("a")]))]);
    let b = obj(vec![("m", Value::Arr(vec![text("a"), num(1)]))]);
    assert_eq!(canonicalize(&a, true).unwrap(), r#"{"m":[1,"a"]}"#);
    assert_eq!(canonicalize(&b, true).unwrap(), r#"{"m":["a",1]}"#);
    assert!(!canonically_equal(&a, &b));

    let c = obj(vec![(
        "m",
        Value::Arr(vec![obj(vec![("a", num(1))]), obj(vec![("b", num(2))])]),
    )]);
    let d = obj(vec![(
        "m",
        Value::Arr(vec![obj(vec![("b", num(2))]), obj(vec![("a", num(1))])]),
    )]);
    assert!(!canonically_equal(&c, &d));
}

#[test]
fn test_hash_is_lowercase_hex() {
    let v = obj(vec![("k", text("v"))]);
    let h = semantic_hash(&v).unwrap();
    assert_eq!(h.len(), 64);
    assert!(h
        .chars()
        .all(|c| ('0'..='9').contains(&c) || ('a'..='f').contains(&c)));
}

#[test]
fn test_hash_matches_digest_of_canonical_form() {
    let v = obj(vec![("action", text("propose")), ("value", num(42))]);
    let canonical = canonicalize(&v, true).unwrap();
    let mut hasher = sha2::Sha256::new();
    hasher.update(canonical.as_bytes());
    let digest = hasher.finalize();
    let mut expected = String::new();
    for b in digest.iter() {
        expected.push_str(&format!("{:02x}", b));
    }
    assert_eq!(semantic_hash(&v).unwrap(), expected);
}

fn json_to_value(j: &serde_json::Value) -> Value {
    match j {
        serde_json::Value::Null => Value::Null,
        serde_json::Value::Bool(b) => Value::Bool(*b),
        serde_json::Value::Number(n) => {
            if let Some(u) = n.as_u64() {
                Value::Num(Number { neg: false, mant: u, scale: 0 })
            } else {
                let i = n.as_i64().expect("integer test data expected");
                Value::Num(Number { neg: true, mant: i.unsigned_abs(), scale: 0 })
            }
        }
        serde_json::Value::String(s) => Value::Text(s.clone()),
        serde_json::Value::Array(a) => Value::Arr(a.iter().map(json_to_value).collect()),
        serde_json::Value::Object(m) => {
            Value::Obj(m.iter().map(|(k, v)| (k.clone(), json_to_value(v))).collect())
        }
    }
}

#[test]
fn test_idempotence_via_parse() {
    let v = obj(vec![
        ("z", Value::Arr(vec![num(3), num(1), num(2)])),
        ("a", obj(vec![("y", num(2)), ("x", num(1))])),
        ("t", text("plain")),
    ]);
    let canonical = canonicalize(&v, true).unwrap();
    let parsed: serde_json::Value = serde_json::from_str(&canonical).unwrap();
    let reparsed = json_to_value(&parsed);
    assert_eq!(canonicalize(&reparsed, true).unwrap(), canonical);
}

#[test]
fn test_empty_containers() {
    let v = obj(vec![]);
    assert_eq!(canonicalize(&v, true).unwrap(), "{}");
    let w = obj(vec![("e", Value::Arr(vec![]))]);
    assert_eq!(canonicalize(&w, true).unwrap(), r#"{"e":[]}"#);
}
