use rouchdb_adapter_indexeddb::edits::{
    check_new_edit, Verdict, conflict_result, db_err, plan_new_edit, plan_replication, resolve_doc_id, EditPlan,
    RevisionHistory,
};
use rouchdb_adapter_indexeddb::revision::{parse_rev, AdapterError};
use rouchdb_adapter_indexeddb::store::{SeqCounter, WriteBatch};
use rouchdb_core::rev_tree::RevPath;

fn body(key: &str, value: &str) -> serde_json::Value {
    let mut m = serde_json::Map::new();
    m.insert(key.to_string(), serde_json::Value::String(value.to_string()));
    serde_json::Value::Object(m)
}

fn expect_write(plan: EditPlan) -> (WriteBatch, rouchdb_adapter_indexeddb::edits::DocResult) {
    match plan {
        EditPlan::Write(b, r) => (b, r),
        EditPlan::Rejected(r) => panic!("rejected: {:?} {:?}", r.error, r.reason),
    }
}

fn expect_rejected(plan: EditPlan) -> rouchdb_adapter_indexeddb::edits::DocResult {
    match plan {
        EditPlan::Rejected(r) => r,
        EditPlan::Write(_, r) => panic!("written: {:?}", r.rev),
    }
}

#[test]
fn create_document() {
    let (batch, result) = expect_write(plan_new_edit("doc1", &None, false, &body("name", "Alice"), &None, 0));
    assert!(result.ok);
    assert_eq!(result.id, "doc1");
    let rev = result.rev.clone().unwrap();
    assert_eq!(rev, "1-20225af052e2e499c2693fe0977044fa");
    assert_eq!(batch.doc.id, "doc1");
    assert_eq!(batch.doc.seq, 1);
    assert_eq!(batch.rev.key, format!("doc1\u{0}{}", rev));
    assert_eq!(batch.rev.data, "{\"name\":\"Alice\"}");
    assert!(!batch.rev.deleted);
    assert_eq!(batch.delete_change, None);
    assert_eq!(batch.change.seq, 1);
    assert!(!batch.change.deleted);
    assert_eq!(batch.meta_value, "1");
    assert!(rouchdb_core::rev_tree::rev_exists(&batch.doc.rev_tree, 1, "20225af052e2e499c2693fe0977044fa"));
}

#[test]
fn update_document() {
    let (b1, r1) = expect_write(plan_new_edit("doc1", &None, false, &body("name", "Alice"), &None, 0));
    let rev1 = parse_rev(&r1.rev.unwrap()).unwrap();
    let existing = Some((b1.doc.rev_tree, b1.doc.seq));
    let (b2, r2) = expect_write(plan_new_edit("doc1", &Some(rev1.clone()), false, &body("name", "Bob"), &existing, 1));
    assert!(r2.ok);
    let rev2 = r2.rev.unwrap();
    assert!(rev2.starts_with("2-"), "expected rev starting with '2-', got {}", rev2);
    assert_eq!(b2.doc.seq, 2);
    assert_eq!(b2.delete_change, Some(1));
    assert_eq!(b2.rev.data, "{\"name\":\"Bob\"}");
    let winner = rouchdb_core::merge::winning_rev(&b2.doc.rev_tree).unwrap();
    assert_eq!(winner.to_string(), rev2);
}

#[test]
fn conflict_on_wrong_rev() {
    let (b1, _) = expect_write(plan_new_edit("doc1", &None, false, &body("v", "1"), &None, 0));
    let existing = Some((b1.doc.rev_tree, b1.doc.seq));
    let r = expect_rejected(plan_new_edit(
        "doc1",
        &Some((1, "wronghash".to_string())),
        false,
        &body("v", "2"),
        &existing,
        1,
    ));
    assert!(!r.ok);
    assert_eq!(r.error.as_deref(), Some("conflict"));
    assert_eq!(r.reason.as_deref(), Some("Document update conflict"));
}

#[test]
fn conflict_without_rev_on_live_document() {
    let (b1, _) = expect_write(plan_new_edit("doc1", &None, false, &body("v", "1"), &None, 0));
    let existing = Some((b1.doc.rev_tree, b1.doc.seq));
    let r = expect_rejected(plan_new_edit("doc1", &None, false, &body("v", "2"), &existing, 1));
    assert_eq!(r.error.as_deref(), Some("conflict"));
}

#[test]
fn rev_on_missing_document_is_not_found() {
    let r = expect_rejected(plan_new_edit("doc1", &Some((1, "abc".to_string())), false, &body("v", "1"), &None, 0));
    assert!(!r.ok);
    assert_eq!(r.error.as_deref(), Some("not_found"));
    assert_eq!(r.reason.as_deref(), Some("missing"));
}

#[test]
fn delete_then_recreate() {
    let (b1, r1) = expect_write(plan_new_edit("doc1", &None, false, &body("name", "Alice"), &None, 0));
    let rev1 = parse_rev(&r1.rev.unwrap()).unwrap();
    let existing = Some((b1.doc.rev_tree, b1.doc.seq));
    let empty = serde_json::Value::Object(serde_json::Map::new());
    let (b2, r2) = expect_write(plan_new_edit("doc1", &Some(rev1), true, &empty, &existing, 1));
    assert!(r2.ok);
    assert!(b2.rev.deleted);
    assert!(b2.change.deleted);
    assert!(rouchdb_core::merge::is_deleted(&b2.doc.rev_tree));
    let existing2 = Some((b2.doc.rev_tree, b2.doc.seq));
    let (_, r3) = expect_write(plan_new_edit("doc1", &None, false, &body("name", "Again"), &existing2, 2));
    assert!(r3.ok);
}

#[test]
fn auto_generate_id() {
    let id = resolve_doc_id("");
    assert!(!id.is_empty());
    assert_eq!(id.len(), 36);
    assert_eq!(id.as_bytes()[14], b'4');
    assert_eq!(resolve_doc_id("given"), "given");
}

#[test]
fn replication_mode_bulk_docs() {
    let (batch, r) = expect_write(plan_replication(
        "doc1",
        &Some((1, "abc123".to_string())),
        false,
        &body("name", "replicated"),
        &None,
        &None,
        0,
    ));
    assert!(r.ok);
    assert_eq!(r.rev.as_deref(), Some("1-abc123"));
    assert_eq!(batch.rev.rev, "1-abc123");
    assert!(rouchdb_core::rev_tree::rev_exists(&batch.doc.rev_tree, 1, "abc123"));
}

#[test]
fn replication_missing_rev() {
    let r = expect_rejected(plan_replication("doc1", &None, false, &body("name", "no-rev"), &None, &None, 0));
    assert!(!r.ok);
    assert_eq!(r.error.as_deref(), Some("bad_request"));
    assert_eq!(r.reason.as_deref(), Some("missing _rev"));
}

#[test]
fn replication_with_history_builds_chain() {
    let history = RevisionHistory {
        start: Some(3),
        ids: Some(vec!["c".to_string(), "b".to_string(), "a".to_string()]),
    };
    let (batch, r) = expect_write(plan_replication(
        "doc1",
        &Some((3, "c".to_string())),
        false,
        &body("v", "x"),
        &Some(history),
        &None,
        0,
    ));
    assert_eq!(r.rev.as_deref(), Some("3-c"));
    let tree: &Vec<RevPath> = &batch.doc.rev_tree;
    assert!(rouchdb_core::rev_tree::rev_exists(tree, 1, "a"));
    assert!(rouchdb_core::rev_tree::rev_exists(tree, 2, "b"));
    assert!(rouchdb_core::rev_tree::rev_exists(tree, 3, "c"));
}

#[test]
fn results_for_conflicts_and_db_errors() {
    let c = conflict_result("d".to_string());
    assert!(!c.ok);
    assert_eq!(c.id, "d");
    assert_eq!(c.rev, None);
    let e = db_err("d", AdapterError::DatabaseError("boom".to_string()));
    assert_eq!(e.error.as_deref(), Some("database_error"));
    assert_eq!(e.reason.as_deref(), Some("DatabaseError(\"boom\")"));
}

#[test]
fn counter_moves_only_on_commit_and_restarts_after_destroy() {
    let mut c = SeqCounter::new(4);
    assert_eq!(c.next(), 5);
    assert_eq!(c.value, 4);
    c.commit(5);
    assert_eq!(c.value, 5);
    c.settle(6, false);
    assert_eq!(c.value, 5);
    c.settle(6, true);
    assert_eq!(c.value, 6);
    c.reset();
    assert_eq!(c.next(), 1);
}

#[test]
fn deleting_winner_with_live_conflict_leaves_document_live() {
    let (b1, _) = expect_write(plan_replication("doc1", &Some((1, "a".to_string())), false, &body("v", "a"), &None, &None, 0));
    let existing = Some((b1.doc.rev_tree, b1.doc.seq));
    let (b2, _) = expect_write(plan_replication("doc1", &Some((1, "b".to_string())), false, &body("v", "b"), &None, &existing, 1));
    let winner = rouchdb_core::merge::winning_rev(&b2.doc.rev_tree).unwrap();
    assert_eq!(winner.to_string(), "1-b");
    let existing2 = Some((b2.doc.rev_tree, b2.doc.seq));
    let empty = serde_json::Value::Object(serde_json::Map::new());
    let (b3, r3) = expect_write(plan_new_edit("doc1", &Some((1, "b".to_string())), true, &empty, &existing2, 2));
    assert!(r3.ok);
    assert!(!rouchdb_core::merge::is_deleted(&b3.doc.rev_tree));
    assert!(!b3.change.deleted);
    let winner3 = rouchdb_core::merge::winning_rev(&b3.doc.rev_tree).unwrap();
    assert_eq!(winner3.to_string(), "1-a");
}

#[test]
fn deleting_only_leaf_marks_document_deleted() {
    let (b1, r1) = expect_write(plan_new_edit("doc1", &None, false, &body("v", "1"), &None, 0));
    let rev1 = parse_rev(&r1.rev.unwrap()).unwrap();
    let existing = Some((b1.doc.rev_tree, b1.doc.seq));
    let empty = serde_json::Value::Object(serde_json::Map::new());
    let (b2, r2) = expect_write(plan_new_edit("doc1", &Some(rev1), true, &empty, &existing, 1));
    let rev2 = r2.rev.unwrap();
    assert!(rev2.starts_with("2-"));
    let winner = rouchdb_core::merge::winning_rev(&b2.doc.rev_tree).unwrap();
    assert_eq!(winner.to_string(), rev2);
    assert!(b2.change.deleted);
}

#[test]
fn check_new_edit_verdicts() {
    assert!(matches!(check_new_edit(&Some((1, "a".to_string())), &None), Verdict::Missing));
    assert!(matches!(check_new_edit(&Some((u64::MAX, "a".to_string())), &None), Verdict::Missing));
    assert!(matches!(check_new_edit(&None, &None), Verdict::Proceed));
    let (b1, r1) = expect_write(plan_new_edit("doc1", &None, false, &body("v", "1"), &None, 0));
    let rev1 = parse_rev(&r1.rev.unwrap()).unwrap();
    let existing = Some((b1.doc.rev_tree, b1.doc.seq));
    assert!(matches!(check_new_edit(&Some(rev1), &existing), Verdict::Proceed));
    assert!(matches!(check_new_edit(&Some((u64::MAX, "x".to_string())), &existing), Verdict::Conflict));
    assert!(matches!(check_new_edit(&None, &existing), Verdict::Conflict));
}

#[test]
fn conflict_and_missing_for_largest_generation() {
    let r = expect_rejected(plan_new_edit("doc1", &Some((u64::MAX, "a".to_string())), false, &body("v", "1"), &None, u64::MAX));
    assert_eq!(r.error.as_deref(), Some("not_found"));
}

#[test]
fn update_stores_the_merged_tree() {
    let (b1, r1) = expect_write(plan_new_edit("doc1", &None, false, &body("v", "1"), &None, 0));
    let rev1 = parse_rev(&r1.rev.unwrap()).unwrap();
    let old_tree = b1.doc.rev_tree.clone();
    let existing = Some((b1.doc.rev_tree, b1.doc.seq));
    let (b2, r2) = expect_write(plan_new_edit("doc1", &Some(rev1.clone()), false, &body("v", "2"), &existing, 1));
    let rev2 = parse_rev(&r2.rev.unwrap()).unwrap();
    let path = rouchdb_core::rev_tree::build_path_from_revs(
        rev2.0,
        &[rev2.1.clone(), rev1.1.clone()],
        rouchdb_core::rev_tree::NodeOpts { deleted: false },
        rouchdb_core::rev_tree::RevStatus::Available,
    );
    let (expected, _) = rouchdb_core::merge::merge_tree(&old_tree, &path, 1000);
    let leaves = |t: &Vec<RevPath>| -> Vec<String> {
        rouchdb_core::rev_tree::collect_leaves(t).iter().map(|l| l.rev_string()).collect()
    };
    assert_eq!(leaves(&b2.doc.rev_tree), leaves(&expected));
    assert_eq!(b2.doc.rev_tree.len(), expected.len());
    assert!(rouchdb_core::rev_tree::rev_exists(&b2.doc.rev_tree, 1, &rev1.1));
}

#[test]
fn db_err_reason_is_the_debug_text() {
    let e = db_err("d", AdapterError::NotFound("x".to_string()));
    assert_eq!(e.reason.as_deref(), Some("NotFound(\"x\")"));
}

#[test]
fn bodies_are_stored_without_meta_fields() {
    let mut m = serde_json::Map::new();
    m.insert("_id".to_string(), serde_json::Value::String("doc1".to_string()));
    m.insert("_rev".to_string(), serde_json::Value::String("1-a".to_string()));
    m.insert("_deleted".to_string(), serde_json::Value::Bool(false));
    m.insert("_revisions".to_string(), serde_json::Value::Null);
    m.insert("name".to_string(), serde_json::Value::String("Alice".to_string()));
    let data = serde_json::Value::Object(m);
    let stripped = rouchdb_adapter_indexeddb::body::strip_meta_fields(&data);
    assert_eq!(serde_json::to_string(&stripped).unwrap(), "{\"name\":\"Alice\"}");
    let (batch, result) = expect_write(plan_new_edit("doc1", &None, false, &data, &None, 0));
    assert_eq!(batch.rev.data, "{\"name\":\"Alice\"}");
    assert_eq!(result.rev.as_deref(), Some("1-20225af052e2e499c2693fe0977044fa"));
}

#[test]
fn replication_history_chain_is_in_the_tree() {
    let mut revisions = serde_json::Map::new();
    revisions.insert("start".to_string(), serde_json::Value::from(3u64));
    let mut data = body("v", "x");
    if let serde_json::Value::Object(ref mut m) = data {
        m.insert("_revisions".to_string(), serde_json::Value::Object(revisions));
    }
    let history = RevisionHistory {
        start: Some(3),
        ids: Some(vec!["c".to_string(), "b".to_string(), "a".to_string()]),
    };
    let (batch, _) = expect_write(plan_replication("doc1", &Some((3, "c".to_string())), false, &data, &Some(history), &None, 0));
    assert_eq!(batch.rev.data, "{\"v\":\"x\"}");
    let leaves = rouchdb_core::rev_tree::collect_leaves(&batch.doc.rev_tree);
    assert_eq!(leaves.len(), 1);
    assert_eq!(leaves[0].rev_string(), "3-c");
}
