use rouchdb_adapter_indexeddb::query::{
    attachment_not_found, attachment_rev, attachment_target, bulk_get_missing, bulk_get_rev,
    change_revs, conflicts_of, count_live_docs, local_not_found, non_leaf_keys, resolve_get,
    revisions_field, revs_diff_one, select_all_docs, select_changes, select_get_rev, AllDocsQuery,
    ChangesQuery,
};
use rouchdb_adapter_indexeddb::revision::AdapterError;
use rouchdb_adapter_indexeddb::store::{StoredChange, StoredRev};
use rouchdb_core::rev_tree::{build_path_from_revs, NodeOpts, RevPath, RevStatus};

fn chain(pos: u64, hashes: &[&str], deleted: bool) -> Vec<RevPath> {
    let revs: Vec<String> = hashes.iter().map(|h| h.to_string()).collect();
    vec![build_path_from_revs(pos, &revs, NodeOpts { deleted }, RevStatus::Available)]
}

fn conflicted() -> Vec<RevPath> {
    let base = chain(2, &["b", "a"], false);
    let other = build_path_from_revs(2, &["c".to_string(), "a".to_string()], NodeOpts { deleted: false }, RevStatus::Available);
    rouchdb_core::merge::merge_tree(&base, &other, 1000).0
}

fn query() -> AllDocsQuery {
    AllDocsQuery {
        start_key: None,
        end_key: None,
        key: None,
        keys: None,
        include_docs: false,
        descending: false,
        skip: 0,
        limit: None,
        inclusive_end: true,
        conflicts: false,
    }
}

fn three_docs() -> Vec<(String, Vec<RevPath>)> {
    vec![
        ("charlie".to_string(), chain(1, &["c1"], false)),
        ("alice".to_string(), chain(1, &["a1"], false)),
        ("bob".to_string(), chain(1, &["b1"], false)),
    ]
}

#[test]
fn all_docs_sorted_keys() {
    let plan = select_all_docs(&three_docs(), &query());
    assert_eq!(plan.total_rows, 3);
    let ids: Vec<&str> = plan.rows.iter().map(|r| r.id.as_str()).collect();
    assert_eq!(ids, vec!["alice", "bob", "charlie"]);
    assert_eq!(plan.rows[0].rev, "1-a1");
}

#[test]
fn all_docs_descending_range_skip_limit() {
    let mut q = query();
    q.descending = true;
    let plan = select_all_docs(&three_docs(), &q);
    let ids: Vec<&str> = plan.rows.iter().map(|r| r.id.as_str()).collect();
    assert_eq!(ids, vec!["charlie", "bob", "alice"]);

    let mut q = query();
    q.start_key = Some("b".to_string());
    q.end_key = Some("charlie".to_string());
    q.inclusive_end = false;
    let plan = select_all_docs(&three_docs(), &q);
    let ids: Vec<&str> = plan.rows.iter().map(|r| r.id.as_str()).collect();
    assert_eq!(ids, vec!["bob"]);

    let mut q = query();
    q.skip = 1;
    q.limit = Some(1);
    let plan = select_all_docs(&three_docs(), &q);
    assert_eq!(plan.total_rows, 3);
    assert_eq!(plan.offset, 1);
    let ids: Vec<&str> = plan.rows.iter().map(|r| r.id.as_str()).collect();
    assert_eq!(ids, vec!["bob"]);

    let mut q = query();
    q.skip = 5;
    assert!(select_all_docs(&three_docs(), &q).rows.is_empty());
}

#[test]
fn all_docs_include_docs() {
    let mut q = query();
    q.include_docs = true;
    q.conflicts = true;
    let docs = vec![("doc1".to_string(), conflicted())];
    let plan = select_all_docs(&docs, &q);
    assert!(plan.rows[0].load_body);
    assert_eq!(plan.rows[0].rev, "2-c");
    assert_eq!(plan.rows[0].conflicts, vec!["2-b".to_string()]);
}

#[test]
fn all_docs_excludes_deleted() {
    let docs = vec![("doc1".to_string(), chain(2, &["d", "a"], true))];
    let plan = select_all_docs(&docs, &query());
    assert_eq!(plan.total_rows, 0);
    assert!(plan.rows.is_empty());
    let mut q = query();
    q.keys = Some(vec!["doc1".to_string(), "nope".to_string()]);
    let plan = select_all_docs(&docs, &q);
    assert_eq!(plan.rows.len(), 1);
    assert!(plan.rows[0].deleted);
    assert!(!plan.rows[0].load_body);
}

fn change(seq: u64, id: &str, deleted: bool) -> StoredChange {
    StoredChange { seq, doc_id: id.to_string(), deleted }
}

fn changes_query() -> ChangesQuery {
    ChangesQuery { since: 0, descending: false, doc_ids: None, limit: None }
}

#[test]
fn changes_all() {
    let stored = vec![change(3, "doc2", false), change(1, "doc0", false), change(2, "doc1", false)];
    let res = select_changes(&stored, &changes_query());
    let ids: Vec<&str> = res.iter().map(|c| c.doc_id.as_str()).collect();
    assert_eq!(ids, vec!["doc0", "doc1", "doc2"]);
}

#[test]
fn changes_since() {
    let stored = vec![change(1, "doc0", false), change(2, "doc1", false), change(3, "doc2", false)];
    let mut q = changes_query();
    q.since = 2;
    let res = select_changes(&stored, &q);
    assert_eq!(res.len(), 1);
    assert_eq!(res[0].doc_id, "doc2");
}

#[test]
fn changes_descending_filtered_limited() {
    let stored = vec![change(1, "a", false), change(2, "b", true), change(3, "c", false), change(4, "d", false)];
    let q = ChangesQuery {
        since: 0,
        descending: true,
        doc_ids: Some(vec!["a".to_string(), "c".to_string(), "d".to_string()]),
        limit: Some(2),
    };
    let res = select_changes(&stored, &q);
    let seqs: Vec<u64> = res.iter().map(|c| c.seq).collect();
    assert_eq!(seqs, vec![4, 3]);
}

#[test]
fn change_revs_lists_winner_or_leaves() {
    let t = conflicted();
    let (rev, list) = change_revs(Some(&t), false);
    assert_eq!(rev, "2-c");
    assert_eq!(list, vec!["2-c".to_string()]);
    let (_, list) = change_revs(Some(&t), true);
    assert_eq!(list, vec!["2-c".to_string(), "2-b".to_string()]);
    let (rev, list) = change_revs(None, true);
    assert_eq!(rev, "");
    assert_eq!(list, vec![String::new()]);
}

#[test]
fn revs_diff_missing_and_present() {
    let t = chain(1, &["abc"], false);
    let res = revs_diff_one(Some(&t), &vec!["1-abc".to_string(), "2-doesnotexist".to_string()]).unwrap().unwrap();
    assert_eq!(res.0, vec!["2-doesnotexist".to_string()]);
    assert_eq!(res.1, vec!["1-abc".to_string()]);
    assert!(revs_diff_one(Some(&t), &vec!["1-abc".to_string()]).unwrap().is_none());
}

#[test]
fn revs_diff_completely_missing_doc() {
    let res = revs_diff_one(None, &vec!["1-abc".to_string()]).unwrap().unwrap();
    assert_eq!(res.0, vec!["1-abc".to_string()]);
    assert!(res.1.is_empty());
}

#[test]
fn revs_diff_rejects_bad_rev() {
    let res = revs_diff_one(None, &vec!["1-abc".to_string(), "bad".to_string()]);
    assert_eq!(res, Err(AdapterError::InvalidRev("bad".to_string())));
}

#[test]
fn get_selects_winner_or_requested() {
    let t = conflicted();
    assert_eq!(select_get_rev("doc1", &t, None, false).unwrap(), "2-c");
    assert_eq!(select_get_rev("doc1", &t, Some("1-a"), false).unwrap(), "1-a");
    assert_eq!(select_get_rev("doc1", &t, Some("1-a"), true).unwrap(), "2-c");
    assert_eq!(select_get_rev("doc1", &t, Some("2-b"), true).unwrap(), "2-b");
    assert_eq!(conflicts_of(&t), vec!["2-b".to_string()]);
}

#[test]
fn get_deleted_doc() {
    assert_eq!(resolve_get("doc1", false, "2-d", Some(true)), Err(AdapterError::NotFound("doc1".to_string())));
    assert_eq!(resolve_get("doc1", true, "2-d", Some(true)).unwrap(), (2, "d".to_string(), true));
    assert_eq!(resolve_get("doc1", false, "1-a", None).unwrap(), (1, "a".to_string(), false));
    assert_eq!(resolve_get("doc1", false, "bad", Some(false)), Err(AdapterError::InvalidRev("bad".to_string())));
}

#[test]
fn bulk_get_existing_and_missing() {
    let t = chain(2, &["b", "a"], false);
    assert_eq!(bulk_get_rev(None, Some(&t)).as_deref(), Some("2-b"));
    assert_eq!(bulk_get_rev(Some("1-a"), Some(&t)).as_deref(), Some("1-a"));
    assert_eq!(bulk_get_rev(None, None), None);
    let (pos, ids) = revisions_field(&t, "2-b").unwrap();
    assert_eq!(pos, 2);
    assert_eq!(ids, vec!["b".to_string(), "a".to_string()]);
    assert!(revisions_field(&t, "3-z").is_none());
    let e = bulk_get_missing("missing", "");
    assert_eq!((e.id.as_str(), e.rev.as_str(), e.error.as_str(), e.reason.as_str()), ("missing", "", "not_found", "missing"));
}

fn stored_rev(doc: &str, rev: &str) -> StoredRev {
    StoredRev {
        key: format!("{}\u{0}{}", doc, rev),
        doc_id: doc.to_string(),
        rev: rev.to_string(),
        data: "{}".to_string(),
        deleted: false,
    }
}

#[test]
fn compact_removes_non_leaf_bodies() {
    let docs = vec![("d".to_string(), chain(2, &["b", "a"], false))];
    let revs = vec![stored_rev("d", "1-a"), stored_rev("d", "2-b"), stored_rev("gone", "1-x")];
    let keys = non_leaf_keys(&docs, &revs);
    assert_eq!(keys, vec!["d\u{0}1-a".to_string(), "gone\u{0}1-x".to_string()]);
}

#[test]
fn info_counts_live_documents() {
    let trees = vec![chain(1, &["a"], false), chain(2, &["d", "a"], true), conflicted()];
    assert_eq!(count_live_docs(&trees), 2);
    assert_eq!(count_live_docs(&vec![]), 0);
}

#[test]
fn attachment_checks() {
    let t = chain(1, &["a"], false);
    assert_eq!(attachment_target("d", Some(&t), "1-a").unwrap(), (1, "a".to_string()));
    assert_eq!(attachment_target("d", Some(&t), "1-b"), Err(AdapterError::Conflict));
    assert_eq!(attachment_target("d", None, "1-a"), Err(AdapterError::NotFound("d".to_string())));
    assert_eq!(attachment_rev("d", None, Some(&t)).unwrap(), "1-a");
    assert_eq!(attachment_rev("d", Some("9-z"), None).unwrap(), "9-z");
    assert_eq!(attachment_rev("d", None, None), Err(AdapterError::NotFound("d".to_string())));
    assert_eq!(attachment_not_found("d", "a.txt"), AdapterError::NotFound("d/a.txt".to_string()));
    assert_eq!(local_not_found("repl-id"), AdapterError::NotFound("_local/repl-id".to_string()));
}
