use veilcore_records::{
    canonicalise, fold_path, hash_leaf, hash_node, sha256_hex, verify_commitment, verify_inclusion,
    CanonicalError, JsonValue, ProofStep, MAX_PROOF_DEPTH,
};

fn num(n: &str) -> JsonValue {
    JsonValue::Number(n.to_string())
}

fn text(s: &str) -> JsonValue {
    JsonValue::String(s.to_string())
}

fn obj(members: Vec<(&str, JsonValue)>) -> JsonValue {
    JsonValue::Object(members.into_iter().map(|(k, v)| (k.to_string(), v)).collect())
}

// ---- rejections: the record is invalid and must be refused, not crashed on ----

#[test]
fn a_null_at_the_top_level_is_refused() {
    let v = obj(vec![("a", JsonValue::Null)]);
    assert_eq!(
        canonicalise(&v),
        Err(CanonicalError::NullInCommittedField {
            key: Some("a".to_string())
        })
    );
}

#[test]
fn a_nested_null_is_refused() {
    let v = obj(vec![("a", obj(vec![("b", obj(vec![("c", JsonValue::Null)]))]))]);
    assert!(matches!(
        canonicalise(&v),
        Err(CanonicalError::NullInCommittedField { .. })
    ));
}

#[test]
fn a_null_inside_an_array_is_refused() {
    let v = obj(vec![("a", JsonValue::Array(vec![num("1"), JsonValue::Null, num("3")]))]);
    assert!(matches!(
        canonicalise(&v),
        Err(CanonicalError::NullInCommittedField { .. })
    ));
}

#[test]
fn keys_identical_after_normalisation_are_refused() {
    // Composed and decomposed forms of the same character, in the key order
    // of a JSON map.
    let v = obj(vec![("e\u{0301}", num("2")), ("\u{00e9}", num("1"))]);
    assert!(matches!(
        canonicalise(&v),
        Err(CanonicalError::KeyCollisionAfterNormalisation { .. })
    ));
}

#[test]
fn a_refusal_does_not_abort_the_caller() {
    let hostile = obj(vec![("a", JsonValue::Null)]);
    let mut served = 0;
    for _ in 0..3 {
        if canonicalise(&hostile).is_err() {
            served += 1;
        }
    }
    assert_eq!(served, 3);
}

// ---- canonicalisation still behaves ----

#[test]
fn keys_are_sorted_by_code_point() {
    let v = obj(vec![("C", num("3")), ("a", num("2")), ("b", num("1"))]);
    assert_eq!(canonicalise(&v).unwrap(), "{\"C\":3,\"a\":2,\"b\":1}");
}

#[test]
fn array_order_is_preserved() {
    let v = JsonValue::Array(vec![text("b"), text("a"), text("c")]);
    assert_eq!(canonicalise(&v).unwrap(), "[\"b\",\"a\",\"c\"]");
}

#[test]
fn nested_objects_are_sorted_at_every_level() {
    let v = obj(vec![("a", num("3")), ("z", obj(vec![("a", num("2")), ("b", num("1"))]))]);
    assert_eq!(canonicalise(&v).unwrap(), "{\"a\":3,\"z\":{\"a\":2,\"b\":1}}");
}

#[test]
fn an_invalid_record_does_not_verify() {
    let v = obj(vec![("commitment", text(&"0".repeat(64))), ("holder", JsonValue::Null)]);
    assert!(!verify_commitment(&v));
}

// ---- inclusion proofs ----

#[test]
fn a_path_deeper_than_the_maximum_is_refused() {
    let path: Vec<ProofStep> = (0..MAX_PROOF_DEPTH + 1)
        .map(|_| ProofStep {
            sibling: "a".repeat(64),
            sibling_is_left: true,
        })
        .collect();
    assert!(!verify_inclusion(&"b".repeat(64), &path, &"c".repeat(64)));
}

#[test]
fn a_single_step_path_folds() {
    let commitment = "b".repeat(64);
    let sibling = "a".repeat(64);
    let root = hash_node(&hash_leaf(&commitment), &sibling);
    let path = vec![ProofStep {
        sibling,
        sibling_is_left: false,
    }];
    assert!(verify_inclusion(&commitment, &path, &root));
}

#[test]
fn an_empty_path_folds_to_the_leaf_hash() {
    let commitment = "0".repeat(64);
    assert_eq!(fold_path(&commitment, &[]), hash_leaf(&commitment));
}

#[test]
fn the_direction_flag_describes_the_sibling() {
    let commitment = "b".repeat(64);
    let sibling = "a".repeat(64);
    let leaf = hash_leaf(&commitment);

    let sibling_left = fold_path(
        &commitment,
        &[ProofStep { sibling: sibling.clone(), sibling_is_left: true }],
    );
    let sibling_right = fold_path(
        &commitment,
        &[ProofStep { sibling: sibling.clone(), sibling_is_left: false }],
    );

    assert_eq!(sibling_left, hash_node(&sibling, &leaf));
    assert_eq!(sibling_right, hash_node(&leaf, &sibling));
    assert_ne!(sibling_left, sibling_right);
}

#[test]
fn leaves_and_interior_nodes_are_domain_separated() {
    let a = "a".repeat(64);
    let b = "b".repeat(64);
    assert_ne!(hash_leaf(&a), sha256_hex(&a));
    assert_ne!(hash_node(&a, &b), sha256_hex(&format!("{}{}", a, b)));
}
