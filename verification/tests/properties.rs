use veilcore_records::{
    canonicalise, committed_fields, compute_commitment, fold_path, fold_path_within_depth, hash_leaf,
    hash_node, hex,
    sha256_hex, verify_commitment, verify_inclusion, CanonicalError, JsonValue, ProofStep,
};

fn num(n: &str) -> JsonValue {
    JsonValue::Number(n.to_string())
}

fn text(s: &str) -> JsonValue {
    JsonValue::String(s.to_string())
}

fn obj(members: Vec<(&str, JsonValue)>) -> JsonValue {
    JsonValue::Object(members.into_iter().map(|(k, v)| (k.to_string(), v)).collect())
}

#[test]
fn hex_renders_two_lowercase_digits_per_byte() {
    assert_eq!(hex(&[0x00, 0x0f, 0xa5, 0xff]), "000fa5ff");
    assert_eq!(hex(&[]), "");
}

#[test]
fn sha256_hex_of_known_inputs() {
    assert_eq!(
        sha256_hex(""),
        "e3b0c44298fc1c149afbf4c8996fb92427ae41e4649b934ca495991b7852b855"
    );
    assert_eq!(
        sha256_hex("abc"),
        "ba7816bf8f01cfea414140de5dae2223b00361a396177a9cb410ff61f20015ad"
    );
}

#[test]
fn leaf_and_node_hashes_of_known_inputs() {
    assert_eq!(
        hash_leaf(&"b".repeat(64)),
        "734e4b38722f590629e38dc892e12760c2a5ca8d15fd7e40eed1bcac06fd1296"
    );
    assert_eq!(
        hash_node(&"a".repeat(64), &"b".repeat(64)),
        "f9349b8ea7b12c9f1f2ad0c5f817d425b41056e4c03e7c19bbad3bcb9ff9e309"
    );
}

#[test]
fn a_path_at_the_maximum_depth_is_folded() {
    let commitment = "b".repeat(64);
    let path: Vec<ProofStep> = (0..64)
        .map(|i| ProofStep {
            sibling: "a".repeat(64),
            sibling_is_left: i % 2 == 0,
        })
        .collect();
    let root = fold_path(&commitment, &path);
    assert!(verify_inclusion(&commitment, &path, &root));
    assert!(!verify_inclusion(&commitment, &path, &"c".repeat(64)));
}

#[test]
fn a_two_step_path_folds_step_by_step() {
    let commitment = "c".repeat(64);
    let s1 = "1".repeat(64);
    let s2 = "2".repeat(64);
    let path = vec![
        ProofStep { sibling: s1.clone(), sibling_is_left: true },
        ProofStep { sibling: s2.clone(), sibling_is_left: false },
    ];
    let expected = hash_node(&hash_node(&s1, &hash_leaf(&commitment)), &s2);
    assert_eq!(fold_path(&commitment, &path), expected);
}

#[test]
fn scalars_serialise_as_json() {
    assert_eq!(canonicalise(&JsonValue::Bool(true)).unwrap(), "true");
    assert_eq!(canonicalise(&JsonValue::Bool(false)).unwrap(), "false");
    assert_eq!(canonicalise(&num("-1.5")).unwrap(), "-1.5");
    assert_eq!(canonicalise(&text("a\"b\\c\n")).unwrap(), "\"a\\\"b\\\\c\\n\"");
    assert_eq!(canonicalise(&text("\u{1}\t\u{1f}")).unwrap(), "\"\\u0001\\t\\u001f\"");
}

#[test]
fn empty_containers_serialise() {
    assert_eq!(canonicalise(&JsonValue::Array(vec![])).unwrap(), "[]");
    assert_eq!(canonicalise(&JsonValue::Object(vec![])).unwrap(), "{}");
}

#[test]
fn string_values_and_keys_are_nfc_normalised() {
    assert_eq!(canonicalise(&text("e\u{0301}")).unwrap(), "\"\u{00e9}\"");
    let v = obj(vec![("e\u{0301}", num("1"))]);
    assert_eq!(canonicalise(&v).unwrap(), "{\"\u{00e9}\":1}");
}

#[test]
fn a_collision_names_the_normalised_key() {
    let v = obj(vec![("e\u{0301}", num("2")), ("\u{00e9}", num("1"))]);
    assert_eq!(
        canonicalise(&v),
        Err(CanonicalError::KeyCollisionAfterNormalisation {
            key: "\u{00e9}".to_string()
        })
    );
}

#[test]
fn a_null_in_an_array_has_no_key() {
    let v = JsonValue::Array(vec![num("1"), JsonValue::Null]);
    assert_eq!(
        canonicalise(&v),
        Err(CanonicalError::NullInCommittedField { key: None })
    );
}

#[test]
fn a_nested_null_is_reported_under_its_own_key() {
    let v = obj(vec![("a", obj(vec![("b", obj(vec![("c", JsonValue::Null)]))]))]);
    assert_eq!(
        canonicalise(&v),
        Err(CanonicalError::NullInCommittedField {
            key: Some("c".to_string())
        })
    );
}

#[test]
fn the_first_member_in_key_order_decides_a_nested_refusal() {
    // "a" sorts before "b": the null under "a" is met first.
    let v = obj(vec![
        ("b", JsonValue::Array(vec![JsonValue::Null])),
        ("a", obj(vec![("x", JsonValue::Null)])),
    ]);
    assert_eq!(
        canonicalise(&v),
        Err(CanonicalError::NullInCommittedField {
            key: Some("x".to_string())
        })
    );
}

#[test]
fn refusal_messages_name_the_field() {
    let e = CanonicalError::NullInCommittedField { key: Some("holder".to_string()) };
    assert_eq!(
        e.message(),
        "null cannot be committed (field \"holder\"): omit the field instead (spec 4.4 rule 4)"
    );
    let e = CanonicalError::NullInCommittedField { key: None };
    assert_eq!(
        e.message(),
        "null cannot be committed at any depth: omit the field instead (spec 4.4 rule 4)"
    );
    let e = CanonicalError::KeyCollisionAfterNormalisation { key: "k".to_string() };
    assert_eq!(
        e.message(),
        "two keys are identical after Unicode normalisation (\"k\"); the record is invalid (spec 4.4 rule 1)"
    );
}

#[test]
fn committed_fields_keep_only_committed_members() {
    let envelope = obj(vec![
        ("anchor", text("somewhere")),
        ("attestations", JsonValue::Array(vec![num("1")])),
        ("commitment", text("abc")),
        ("formatVersion", text("1.0")),
        ("recordId", text("r-1")),
        ("terms", text("t")),
    ]);
    let fields = committed_fields(&envelope);
    assert_eq!(
        canonicalise(&fields).unwrap(),
        "{\"attestations\":[1],\"formatVersion\":\"1.0\",\"parents\":[],\"recordId\":\"r-1\"}"
    );
}

#[test]
fn a_non_object_envelope_commits_the_always_present_fields() {
    let fields = committed_fields(&num("7"));
    assert_eq!(canonicalise(&fields).unwrap(), "{\"attestations\":[],\"parents\":[]}");
}

#[test]
fn commitment_of_a_known_record() {
    let envelope = obj(vec![("holder", text("x"))]);
    assert_eq!(
        compute_commitment(&envelope).unwrap(),
        "69772763dee67b562662da22feef0633599589e94df7fe3b06ae701356c5eefe"
    );
}

#[test]
fn a_commitment_ignores_anchor_and_terms() {
    let a = obj(vec![("holder", text("x"))]);
    let b = obj(vec![("anchor", text("chain")), ("holder", text("x")), ("terms", num("1"))]);
    assert_eq!(compute_commitment(&a), compute_commitment(&b));
}

#[test]
fn a_nested_null_refuses_the_commitment() {
    let envelope = obj(vec![("holder", obj(vec![("name", JsonValue::Null)]))]);
    assert_eq!(
        compute_commitment(&envelope),
        Err(CanonicalError::NullInCommittedField {
            key: Some("name".to_string())
        })
    );
}

#[test]
fn a_record_with_its_own_commitment_verifies() {
    let claimed = "98778603839de764fe2cc6a7cb954ababee574dd97202cd99a2a317151912c52";
    let envelope = obj(vec![
        ("attestations", JsonValue::Array(vec![num("1")])),
        ("commitment", text(claimed)),
        ("formatVersion", text("1.0")),
        ("recordId", text("r-1")),
    ]);
    assert!(verify_commitment(&envelope));
}

#[test]
fn a_record_with_another_commitment_does_not_verify() {
    let envelope = obj(vec![("commitment", text(&"0".repeat(64))), ("holder", text("x"))]);
    assert!(!verify_commitment(&envelope));
    let missing = obj(vec![("holder", text("x"))]);
    assert!(!verify_commitment(&missing));
    let not_a_string = obj(vec![("commitment", num("1"))]);
    assert!(!verify_commitment(&not_a_string));
}

#[test]
fn a_null_committed_field_refuses_the_commitment() {
    let envelope = obj(vec![("holder", JsonValue::Null)]);
    assert_eq!(
        compute_commitment(&envelope),
        Err(CanonicalError::NullInCommittedField {
            key: Some("holder".to_string())
        })
    );
    let parents = obj(vec![("parents", JsonValue::Null)]);
    assert_eq!(
        compute_commitment(&parents),
        Err(CanonicalError::NullInCommittedField {
            key: Some("parents".to_string())
        })
    );
}

#[test]
fn a_null_committed_field_does_not_verify_against_the_digest_without_it() {
    // The digest of {"attestations":[],"parents":[]}: what the record would
    // commit to if the null field were dropped.
    let claimed = "260b132282ca313eddfb304e2cd45709bd4d93b992dd935cd82d7cfd81b619e0";
    assert_eq!(sha256_hex("{\"attestations\":[],\"parents\":[]}"), claimed);
    let envelope = obj(vec![("commitment", text(claimed)), ("holder", JsonValue::Null)]);
    assert!(!verify_commitment(&envelope));
}

#[test]
fn a_null_outside_the_committed_fields_is_not_committed() {
    let envelope = obj(vec![("anchor", JsonValue::Null), ("holder", text("x"))]);
    assert_eq!(
        compute_commitment(&envelope).unwrap(),
        "69772763dee67b562662da22feef0633599589e94df7fe3b06ae701356c5eefe"
    );
}

#[test]
fn a_fold_within_the_depth_cap_gives_the_root() {
    let commitment = "b".repeat(64);
    let step = || ProofStep { sibling: "a".repeat(64), sibling_is_left: true };
    let short: Vec<ProofStep> = (0..64).map(|_| step()).collect();
    assert_eq!(fold_path_within_depth(&commitment, &short), Some(fold_path(&commitment, &short)));
    let long: Vec<ProofStep> = (0..65).map(|_| step()).collect();
    assert_eq!(fold_path_within_depth(&commitment, &long), None);
}

#[test]
fn canonically_equivalent_values_serialise_alike() {
    let composed = obj(vec![("\u{00e9}", text("caf\u{00e9}"))]);
    let decomposed = obj(vec![("e\u{0301}", text("cafe\u{0301}"))]);
    assert_eq!(canonicalise(&composed), canonicalise(&decomposed));
    assert_eq!(canonicalise(&text("e\u{0301}")).unwrap(), "\"\u{00e9}\"");
}

#[test]
fn canonical_text_reads_back_as_the_normalised_value() {
    // "e\u{301}" is "é" decomposed; NFC composes it to U+00E9.
    let value = obj(vec![
        ("z", JsonValue::Array(vec![num("-1.5e3"), text("e\u{301}"), JsonValue::Bool(false)])),
        ("a\"b", obj(vec![("tab\t", text("line\nbreak")), ("n", num("0"))])),
        ("e\u{301}", JsonValue::Array(vec![])),
    ]);
    let canonical = canonicalise(&value).unwrap();
    assert!(!canonical.contains(' ') && !canonical.contains('\n'));
    let read: serde_json::Value = serde_json::from_str(&canonical).unwrap();
    let expected: serde_json::Value = serde_json::from_str(
        "{ \"a\\\"b\": { \"n\": 0, \"tab\\t\": \"line\\nbreak\" },
           \"\u{e9}\": [],
           \"z\": [ -1.5e3, \"\u{e9}\", false ] }",
    )
    .unwrap();
    assert_eq!(read, expected);
    assert_eq!(
        canonical,
        "{\"a\\\"b\":{\"n\":0,\"tab\\t\":\"line\\nbreak\"},\"z\":[-1.5e3,\"\u{e9}\",false],\"\u{e9}\":[]}"
    );
}
