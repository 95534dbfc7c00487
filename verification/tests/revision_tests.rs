use rouchdb_adapter_indexeddb::revision::{
    parse_rev, rev_key, rev_string, u64_to_string, update_seq_from_meta, AdapterError, SeqId,
};

#[test]
fn rev_string_formats_generation_and_hash() {
    assert_eq!(rev_string(3, "abc123"), "3-abc123");
    assert_eq!(rev_string(0, ""), "0-");
    assert_eq!(rev_string(u64::MAX, "h"), "18446744073709551615-h");
}

#[test]
fn parse_rev_splits_at_first_dash() {
    assert_eq!(parse_rev("3-abc123").unwrap(), (3, "abc123".to_string()));
    assert_eq!(parse_rev("12-a-b").unwrap(), (12, "a-b".to_string()));
    assert_eq!(parse_rev("1-").unwrap(), (1, String::new()));
    assert_eq!(parse_rev("+7-x").unwrap(), (7, "x".to_string()));
}

#[test]
fn parse_rev_rejects_malformed() {
    assert_eq!(parse_rev("abc"), Err(AdapterError::InvalidRev("abc".to_string())));
    assert_eq!(parse_rev("-abc"), Err(AdapterError::InvalidRev("-abc".to_string())));
    assert_eq!(parse_rev("x1-abc"), Err(AdapterError::InvalidRev("x1-abc".to_string())));
    assert_eq!(parse_rev("+-abc"), Err(AdapterError::InvalidRev("+-abc".to_string())));
    assert_eq!(
        parse_rev("18446744073709551616-a"),
        Err(AdapterError::InvalidRev("18446744073709551616-a".to_string()))
    );
}

#[test]
fn parse_rev_round_trips_rev_string() {
    for (pos, hash) in [(1u64, "abc"), (42, "x-y"), (u64::MAX, ""), (0, "0")] {
        let text = rev_string(pos, hash);
        assert_eq!(parse_rev(&text).unwrap(), (pos, hash.to_string()));
    }
}

#[test]
fn rev_key_joins_with_nul() {
    assert_eq!(rev_key("doc1", "1-abc"), "doc1\u{0}1-abc");
}

#[test]
fn update_seq_round_trips_through_meta() {
    assert_eq!(update_seq_from_meta(Some(&u64_to_string(0))), 0);
    assert_eq!(update_seq_from_meta(Some(&u64_to_string(987654321))), 987654321);
    assert_eq!(update_seq_from_meta(None), 0);
    assert_eq!(update_seq_from_meta(Some("not a number")), 0);
    assert_eq!(u64_to_string(1234), "1234");
}

#[test]
fn seq_id_as_num() {
    assert_eq!(SeqId::Num(5).as_num(), 5);
    assert_eq!(SeqId::Str("13-abc".to_string()).as_num(), 13);
    assert_eq!(SeqId::Str("42".to_string()).as_num(), 42);
    assert_eq!(SeqId::Str("opaque".to_string()).as_num(), 0);
}

#[test]
fn rev_keys_of_one_document_share_a_prefix() {
    let a1 = rev_key("doc", "1-abc");
    let a2 = rev_key("doc", "2-def");
    let b = rev_key("doc2", "1-abc");
    assert!(a1.starts_with("doc\u{0}"));
    assert!(a2.starts_with("doc\u{0}"));
    assert!(!b.starts_with("doc\u{0}"));
    assert!(a1 < a2 && a2 < b);
    assert_ne!(a1, b);
}
