use rouchdb_adapter_indexeddb::digest::{
    compute_attachment_digest, generate_rev_hash, rev_hash_of_json, serde_err, to_hex_lower,
};
use rouchdb_adapter_indexeddb::revision::AdapterError;

fn alice() -> serde_json::Value {
    let mut m = serde_json::Map::new();
    m.insert("name".to_string(), serde_json::Value::String("Alice".to_string()));
    serde_json::Value::Object(m)
}

#[test]
fn rev_hash_is_md5_of_prev_flag_and_body() {
    assert_eq!(
        rev_hash_of_json("{\"name\":\"Alice\"}", false, None),
        "20225af052e2e499c2693fe0977044fa"
    );
    assert_eq!(rev_hash_of_json("{}", true, Some("1-abc")), "6775d54c2efb18e61bb66a15b74da837");
}

#[test]
fn generate_rev_hash_serialises_the_body() {
    assert_eq!(generate_rev_hash(&alice(), false, None).unwrap(), "20225af052e2e499c2693fe0977044fa");
    let empty = serde_json::Value::Object(serde_json::Map::new());
    assert_eq!(generate_rev_hash(&empty, true, Some("1-abc")).unwrap(), "6775d54c2efb18e61bb66a15b74da837");
}

#[test]
fn attachment_digest_is_md5_base64() {
    assert_eq!(compute_attachment_digest(b"hello world"), "md5-XrY7u+Ae7tCTyyK7j1rNww==");
    assert_eq!(compute_attachment_digest(b""), "md5-1B2M2Y8AsgTpgAmY7PhCfg==");
}

#[test]
fn hex_is_lower_case_two_digits_per_byte() {
    assert_eq!(to_hex_lower(&[0x00, 0x0f, 0xab, 0xff]), "000fabff");
    assert_eq!(to_hex_lower(&[]), "");
}

#[test]
fn serde_err_wraps_the_debug_text() {
    let e = serde_json::from_str::<serde_json::Value>("{").unwrap_err();
    let expected = format!("serde: {:?}", e);
    assert_eq!(serde_err(&e), AdapterError::DatabaseError(expected));
}
