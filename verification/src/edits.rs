//! The decisions taken when a document is written: with new edits (the
//! adapter makes the revision) or in replication (the revision comes with the
//! document).

use vstd::prelude::*;
use vstd::multiset::Multiset;
use rouchdb_core::rev_tree::RevPath;
use crate::revision::{AdapterError, decimal, rev_key_text, rev_string, rev_text};
use crate::body::{stored_body, strip_meta_fields};
use crate::digest::{json_text, json_to_string, rev_hash_of_json, rev_hash_spec, serde_err};
use crate::tree::{LeafView, leaf_precedes, built_path, merged_tree, tree_fits, build_path_from_revs, chain_root, is_deleted, merge_tree, tree_conflicts, tree_deleted, tree_leaves, tree_nodes, tree_revisions, tree_winner, winning_rev};
use crate::store::{StoreView, WriteBatch, apply_batch, plan_write};

verus! {

/// The number of revisions each path of a tree keeps.
pub const DEFAULT_REV_LIMIT: u64 = 1000;

/// The outcome reported for one document of a bulk write.
pub struct DocResult {
    pub ok: bool,
    pub id: String,
    pub rev: Option<String>,
    pub error: Option<String>,
    pub reason: Option<String>,
}

/// Whether `r` reports a failure with the given error and reason texts.
pub open spec fn is_failure(r: DocResult, id: Seq<char>, error: Seq<char>, reason: Seq<char>) -> bool {
    &&& !r.ok
    &&& r.id@ == id
    &&& r.rev is None
    &&& r.error matches Some(e) && e@ == error
    &&& r.reason matches Some(m) && m@ == reason
}

/// Whether `r` reports success with revision `rev`.
pub open spec fn is_success(r: DocResult, id: Seq<char>, rev: Seq<char>) -> bool {
    &&& r.ok
    &&& r.id@ == id
    &&& r.rev matches Some(v) && v@ == rev
    &&& r.error is None
    &&& r.reason is None
}

/// Whether `r` reports a storage failure.
pub open spec fn is_db_failure(r: DocResult, id: Seq<char>) -> bool {
    &&& !r.ok
    &&& r.id@ == id
    &&& r.rev is None
    &&& r.error matches Some(e) && e@ == "database_error"@
    &&& r.reason is Some
}

/// The result of a write refused because its revision is not the winner.
pub fn conflict_result(id: String) -> (res: DocResult)
    ensures
        is_failure(res, id@, "conflict"@, "Document update conflict"@),
{
    DocResult {
        ok: false,
        id,
        rev: None,
        error: Some("conflict".to_owned()),
        reason: Some("Document update conflict".to_owned()),
    }
}

/// The `Debug` text of an error taken as `rouchdb_core::error::RouchError`,
/// whose variants this library's errors mirror one for one.
pub uninterp spec fn error_debug_text(e: AdapterError) -> Seq<char>;

/// Formats the error, taken as `rouchdb_core::error::RouchError`, with that
/// type's derived `Debug` impl. The contract names the text
/// `error_debug_text` of the error; Rust leaves the text of a derived
/// `Debug` unspecified, so nothing more is stated of it.
#[verifier::external_body]
fn error_debug(e: AdapterError) -> (res: String)
    ensures
        res@ == error_debug_text(e),
{
    let r = match e {
        AdapterError::NotFound(t) => rouchdb_core::error::RouchError::NotFound(t),
        AdapterError::Conflict => rouchdb_core::error::RouchError::Conflict,
        AdapterError::InvalidRev(t) => rouchdb_core::error::RouchError::InvalidRev(t),
        AdapterError::BadRequest(t) => rouchdb_core::error::RouchError::BadRequest(t),
        AdapterError::DatabaseError(t) => rouchdb_core::error::RouchError::DatabaseError(t),
    };
    format!("{:?}", r)
}

/// The result of a write that the storage layer failed.
pub fn db_err(id: &str, e: AdapterError) -> (res: DocResult)
    ensures
        is_db_failure(res, id@),
        res.reason matches Some(m) && m@ == error_debug_text(e),
{
    DocResult {
        ok: false,
        id: id.to_owned(),
        rev: None,
        error: Some("database_error".to_owned()),
        reason: Some(error_debug(e)),
    }
}

/// What a new edit's check against the stored tree decides.
pub enum Verdict {
    /// The provided revision is not the current winner.
    Conflict,
    /// A revision was provided for a document that does not exist.
    Missing,
    /// The edit goes ahead.
    Proceed,
}

/// The view of an optional revision given as generation and hash.
pub open spec fn rev_opt_view(rev: Option<(u64, String)>) -> Option<(u64, Seq<char>)> {
    match rev {
        Some(r) => Some((r.0, r.1@)),
        None => None,
    }
}

/// The check of a new edit: a revision that differs from the winner
/// conflicts; no revision on a document whose winner is live conflicts; a
/// revision on a document that does not exist is missing.
pub open spec fn new_edit_verdict(rev: Option<(u64, Seq<char>)>, existing: Option<Seq<RevPath>>) -> Verdict {
    match existing {
        Some(t) => match (rev, tree_winner(t)) {
            (Some(p), Some(w)) => if p != w { Verdict::Conflict } else { Verdict::Proceed },
            (None, Some(_)) => if !tree_deleted(t) { Verdict::Conflict } else { Verdict::Proceed },
            _ => Verdict::Proceed,
        },
        None => if rev is Some { Verdict::Missing } else { Verdict::Proceed },
    }
}

/// What a document write comes to: a refusal, or a batch to store and the
/// result to report once it is stored.
pub enum EditPlan {
    Rejected(DocResult),
    Write(WriteBatch, DocResult),
}

/// The generation of the revision a new edit makes.
pub open spec fn new_edit_pos(rev: Option<(u64, Seq<char>)>) -> u64 {
    match rev {
        Some(p) => (p.0 + 1) as u64,
        None => 1,
    }
}

/// The text of the revision a new edit extends, if any.
pub open spec fn prev_rev_text(rev: Option<(u64, Seq<char>)>) -> Option<Seq<char>> {
    match rev {
        Some(p) => Some(rev_text(p.0, p.1)),
        None => None,
    }
}

/// The facts shared by every batch that writes revision `rev` of `doc_id`
/// with deletion flag `deleted` on top of the stored tree `existing`.
pub open spec fn batch_writes(
    b: WriteBatch,
    doc_id: Seq<char>,
    rev: Seq<char>,
    deleted: bool,
    existing: Option<(Seq<RevPath>, u64)>,
    update_seq: u64,
) -> bool {
    &&& b.doc.id@ == doc_id
    &&& b.doc.seq == update_seq + 1
    &&& b.rev.key@ == rev_key_text(doc_id, rev)
    &&& b.rev.doc_id@ == doc_id
    &&& b.rev.rev@ == rev
    &&& b.rev.deleted == deleted
    &&& b.delete_change == (match existing { Some(e) => Some(e.1), None => None::<u64> })
    &&& b.change.seq == update_seq + 1
    &&& b.change.doc_id@ == doc_id
    &&& b.change.deleted == tree_deleted(b.doc.rev_tree@)
    &&& b.meta_value@ == decimal((update_seq + 1) as nat)
}

/// The tree stored before a write, or the empty tree.
pub open spec fn tree_before(existing: Option<(Seq<RevPath>, u64)>) -> Seq<RevPath> {
    match existing {
        Some(e) => e.0,
        None => seq![],
    }
}

/// The view of the stored state of a document.
pub open spec fn existing_view(existing: Option<(Vec<RevPath>, u64)>) -> Option<(Seq<RevPath>, u64)> {
    match existing {
        Some(e) => Some((e.0@, e.1)),
        None => None,
    }
}

fn tree_of(existing: &Option<(Vec<RevPath>, u64)>) -> (res: (Vec<RevPath>, Option<u64>))
    ensures
        res.0@ == tree_before(existing_view(*existing)),
        res.1 == (match existing { Some(e) => Some(e.1), None => None::<u64> }),
{
    match existing {
        Some((t, s)) => {
            let mut copy: Vec<RevPath> = Vec::new();
            let mut i: usize = 0;
            while i < t.len()
                invariant
                    i <= t.len(),
                    copy@ == t@.subrange(0, i as int),
                decreases t.len() - i,
            {
                copy.push(clone_path(&t[i]));
                i = i + 1;
            }
            assert(t@.subrange(0, t@.len() as int) =~= t@);
            (copy, Some(*s))
        },
        None => (Vec::new(), None),
    }
}

/// Clones a rooted path with its `Clone` impl, which copies it.
#[verifier::external_body]
fn clone_path(p: &RevPath) -> (res: RevPath)
    ensures
        res == *p,
{
    p.clone()
}

/// The stored tree of a document, if it is stored.
pub open spec fn stored_tree(existing: Option<(Vec<RevPath>, u64)>) -> Option<Seq<RevPath>> {
    match existing {
        Some(e) => Some(e.0@),
        None => None,
    }
}

/// Whether the stored tree, if any, fits (`tree_fits`).
pub open spec fn existing_fits(existing: Option<(Vec<RevPath>, u64)>) -> bool {
    match existing {
        Some(e) => tree_fits(e.0@),
        None => true,
    }
}

/// The hashes (newest first) of the path a new edit merges: the new hash,
/// then the hash of the revision it extends, if any.
pub open spec fn new_chain(hash: Seq<char>, rev: Option<(u64, Seq<char>)>) -> Seq<Seq<char>> {
    match rev {
        Some(p) => seq![hash, p.1],
        None => seq![hash],
    }
}

/// Checks a new edit against the stored tree: a revision that differs from
/// the winner conflicts; no revision on a document whose winner is live
/// conflicts; a revision on a document that does not exist is missing.
pub fn check_new_edit(rev: &Option<(u64, String)>, existing: &Option<(Vec<RevPath>, u64)>) -> (res: Verdict)
    requires
        existing_fits(*existing),
    ensures
        res == new_edit_verdict(rev_opt_view(*rev), stored_tree(*existing)),
{
    match existing {
        Some((tree, _)) => {
            let winner = winning_rev(tree);
            match (rev, &winner) {
                (Some(prov), Some(curr)) => {
                    if !(prov.0 == curr.0 && prov.1 == curr.1) {
                        return Verdict::Conflict;
                    }
                    assert(rev_opt_view(*rev) == tree_winner(tree@));
                    Verdict::Proceed
                },
                (None, Some(_)) => {
                    if !is_deleted(tree) {
                        Verdict::Conflict
                    } else {
                        Verdict::Proceed
                    }
                },
                _ => Verdict::Proceed,
            }
        },
        None => {
            if rev.is_some() {
                Verdict::Missing
            } else {
                Verdict::Proceed
            }
        },
    }
}

/// Plans a write with new edits. The provided revision must be the winner
/// of the stored tree (or, with none provided, the stored winner must be a
/// deletion); a revision for a document that does not exist is refused. The
/// new revision has the next generation and the MD5 hash of the previous
/// revision, the deletion flag and the serialised body (without the fields
/// kept elsewhere: `_id`, `_rev`, `_deleted`, `_revisions`); it is merged into
/// the tree and written at the sequence after `update_seq`.
pub fn plan_new_edit(
    doc_id: &str,
    rev: &Option<(u64, String)>,
    deleted: bool,
    data: &serde_json::Value,
    existing: &Option<(Vec<RevPath>, u64)>,
    update_seq: u64,
) -> (res: EditPlan)
    requires
        existing_fits(*existing),
        new_edit_verdict(rev_opt_view(*rev), stored_tree(*existing)) is Proceed ==> {
            &&& update_seq < u64::MAX
            &&& rev matches Some(p) ==> p.0 < u64::MAX
        },
    ensures
        new_edit_verdict(rev_opt_view(*rev), stored_tree(*existing))
            is Conflict ==> (res matches EditPlan::Rejected(r)
            && is_failure(r, doc_id@, "conflict"@, "Document update conflict"@)),
        new_edit_verdict(rev_opt_view(*rev), stored_tree(*existing))
            is Missing ==> (res matches EditPlan::Rejected(r)
            && is_failure(r, doc_id@, "not_found"@, "missing"@)),
        new_edit_verdict(rev_opt_view(*rev), stored_tree(*existing))
            is Proceed ==> (res matches EditPlan::Write(b, r) && {
                    let pos = new_edit_pos(rev_opt_view(*rev));
                    let hash = rev_hash_spec(json_text(stored_body(*data)), deleted, prev_rev_text(rev_opt_view(*rev)));
                    &&& batch_writes(b, doc_id@, rev_text(pos, hash), deleted, existing_view(*existing), update_seq)
                    &&& b.rev.data@ == json_text(stored_body(*data))
                    &&& tree_fits(b.doc.rev_tree@)
                    &&& b.doc.rev_tree@ == merged_tree(
                        tree_before(existing_view(*existing)),
                        built_path(pos, new_chain(hash, rev_opt_view(*rev)), deleted),
                        DEFAULT_REV_LIMIT,
                    )
                    &&& is_success(r, doc_id@, rev_text(pos, hash))
                    &&& hash.len() == 32
                    &&& existing is None ==> {
                        &&& tree_nodes(b.doc.rev_tree@) == Multiset::singleton((pos, hash))
                        &&& tree_revisions(b.doc.rev_tree@) == Set::empty().insert((pos, hash))
                        &&& tree_leaves(b.doc.rev_tree@) == Multiset::singleton((pos, hash, deleted))
                        &&& tree_winner(b.doc.rev_tree@) == Some((pos, hash))
                        &&& tree_deleted(b.doc.rev_tree@) == deleted
                    }
                    &&& !tree_revisions(tree_before(existing_view(*existing))).contains((pos, hash)) ==> {
                        &&& tree_revisions(b.doc.rev_tree@).contains((pos, hash))
                        &&& tree_leaves(b.doc.rev_tree@).contains((pos, hash, deleted))
                        &&& !deleted ==> tree_winner(b.doc.rev_tree@) == Some((pos, hash))
                            && !tree_deleted(b.doc.rev_tree@)
                    }
                    &&& forall|x: (u64, Seq<char>)| #[trigger] tree_revisions(b.doc.rev_tree@).contains(x)
                        ==> tree_revisions(tree_before(existing_view(*existing))).contains(x) || x == (pos, hash)
                            || (rev matches Some(p) && x == (p.0, p.1@))
                    &&& forall|x: LeafView| #[trigger] tree_leaves(b.doc.rev_tree@).contains(x)
                        ==> tree_leaves(tree_before(existing_view(*existing))).contains(x) || x == (pos, hash, deleted)
                    &&& forall|x: LeafView| #[trigger] tree_leaves(tree_before(existing_view(*existing))).contains(x)
                        && x.1.len() > 0 && (x.0, x.1) != (pos, hash)
                        && !(rev matches Some(p) && (x.0, x.1) == (p.0, p.1@))
                        ==> tree_leaves(b.doc.rev_tree@).contains(x)
                    &&& (existing matches Some(e) && rev matches Some(p) && deleted
                        && tree_nodes(e.0@).count((p.0, p.1@)) == 1
                        && (forall|x: LeafView| #[trigger] tree_leaves(e.0@).contains(x) ==> x.1.len() > 0)
                        && !tree_revisions(e.0@).contains((pos, hash))
                        && tree_conflicts(e.0@).len() == 0)
                        ==> tree_deleted(b.doc.rev_tree@)
                            && (tree_leaves(tree_before(existing_view(*existing))).len() <= 1
                                ==> tree_winner(b.doc.rev_tree@) == Some((pos, hash)))
                }),
{
    match check_new_edit(rev, existing) {
        Verdict::Conflict => {
            return EditPlan::Rejected(conflict_result(doc_id.to_owned()));
        },
        Verdict::Missing => {
            return EditPlan::Rejected(DocResult {
                ok: false,
                id: doc_id.to_owned(),
                rev: None,
                error: Some("not_found".to_owned()),
                reason: Some("missing".to_owned()),
            });
        },
        Verdict::Proceed => {},
    }
    let new_pos: u64 = match rev {
        Some(p) => p.0 + 1,
        None => 1,
    };
    let prev_rev_str: Option<String> = match rev {
        Some(p) => Some(rev_string(p.0, p.1.as_str())),
        None => None,
    };
    let stored = strip_meta_fields(data);
    let body = match json_to_string(&stored) {
        Ok(b) => b,
        Err(e) => return EditPlan::Rejected(db_err(doc_id, serde_err(&e))),
    };
    let prev_ref: Option<&str> = match &prev_rev_str {
        Some(s) => Some(s.as_str()),
        None => None,
    };
    let new_hash = rev_hash_of_json(body.as_str(), deleted, prev_ref);
    let new_rev_str = rev_string(new_pos, new_hash.as_str());
    let mut rev_hashes: Vec<String> = Vec::new();
    rev_hashes.push(new_hash.clone());
    match rev {
        Some(p) => rev_hashes.push(p.1.clone()),
        None => {},
    }
    assert(rev_hashes@.map_values(|x: String| x@) =~= new_chain(new_hash@, rev_opt_view(*rev)));
    let new_path = build_path_from_revs(new_pos, &rev_hashes, deleted);
    let (existing_tree, existing_seq) = tree_of(existing);
    let merged = merge_tree(&existing_tree, &new_path, DEFAULT_REV_LIMIT);
    proof {
        broadcast use {vstd::multiset::group_multiset_axioms, vstd::multiset::group_multiset_properties};
        let l: LeafView = (new_pos, new_hash@, deleted);
        let n = (new_pos, new_hash@);
        let t = existing_tree@;
        assert(rev_hashes@[0]@ == new_hash@);
        assert(crate::tree::path_leaves(new_path) == Multiset::singleton(l));
        assert(path_leaf_is(new_path, l));
        match rev {
            Some(p) => {
                let a = (p.0, p.1@);
                assert(rev_hashes@.len() == 2 && rev_hashes@[1]@ == p.1@);
                assert(chain_root(new_pos, 2) == p.0);
                assert(crate::tree::path_revisions(new_path) =~= Set::empty().insert(a).insert(n)) by {
                    assert forall|x: (u64, Seq<char>)| #[trigger] crate::tree::path_revisions(new_path).contains(x) <==> x == a || x == n by {
                        if x == a {
                            assert(x == ((chain_root(new_pos, 2) + (2 - 1 - 1)) as u64, rev_hashes@[1]@));
                        }
                        if x == n {
                            assert(x == ((chain_root(new_pos, 2) + (2 - 1 - 0)) as u64, rev_hashes@[0]@));
                        }
                    }
                }
            },
            None => {
                assert(rev_hashes@.len() == 1);
                assert(crate::tree::path_revisions(new_path) =~= Set::empty().insert(n)) by {
                    assert forall|x: (u64, Seq<char>)| #[trigger] crate::tree::path_revisions(new_path).contains(x) <==> x == n by {
                        if x == n {
                            assert(x == ((chain_root(new_pos, 1) + (1 - 1 - 0)) as u64, rev_hashes@[0]@));
                        }
                    }
                }
            },
        }
        crate::tree::lemma_winner_is_first_leaf(t);
        assert forall|x: LeafView| #[trigger] tree_leaves(merged@).contains(x) implies tree_leaves(t).contains(x) || x == l by {
            if !tree_leaves(t).contains(x) {
                assert(crate::tree::path_leaves(new_path).contains(x));
            }
        }
        if existing.is_none() {
            assert(crate::tree::path_revisions(new_path).len() == 1);
            assert(merged@ == seq![new_path]);
            crate::tree::lemma_single_leaf_tree(new_path, l);
            let one = seq![new_path];
            assert(one.drop_last() =~= Seq::<RevPath>::empty());
            assert(crate::tree::path_nodes(new_path) =~= Multiset::singleton(n)) by {
                assert forall|x: (u64, Seq<char>)| crate::tree::path_nodes(new_path).count(x) == Multiset::singleton(n).count(x) by {
                    if x == n {
                        assert(crate::tree::path_revisions(new_path).contains(n));
                        assert(crate::tree::path_nodes(new_path).count(x) <= 1);
                    } else {
                        assert(!crate::tree::path_revisions(new_path).contains(x));
                    }
                }
            }
            assert(one.last() == new_path);
            assert(tree_nodes(one.drop_last()) == Multiset::<(u64, Seq<char>)>::empty());
            assert(tree_nodes(one) == Multiset::<(u64, Seq<char>)>::empty().add(crate::tree::path_nodes(new_path)));
            assert(tree_nodes(one) =~= Multiset::singleton(n));
            assert(tree_leaves(one) =~= Multiset::singleton(l));
            assert(tree_revisions(one) =~= Set::empty().insert(n));
        }
        if !tree_revisions(t).contains(n) {
            assert(crate::tree::path_leaves(new_path).contains(l));
            if !deleted {
                lemma_live_edit_wins(t, merged@, rev_opt_view(*rev), l);
            }
        }
        if existing.is_some() && rev.is_some() && deleted {
            let p = rev.unwrap();
            let a = (p.0, p.1@);
            if tree_nodes(t).count(a) == 1
                && (forall|x: LeafView| #[trigger] tree_leaves(t).contains(x) ==> x.1.len() > 0)
                && !tree_revisions(t).contains(n)
                && tree_conflicts(t).len() == 0 {
                if tree_leaves(t).len() > 0 {
                    assert(tree_winner(t) == Some(a));
                    lemma_update_merge(t, new_path, merged@, p.0, p.1@, l);
                } else {
                    assert(tree_leaves(merged@).contains(l));
                    assert forall|x: LeafView| #[trigger] tree_leaves(merged@).contains(x) && x != l implies leaf_precedes(l, x) by {
                        assert(tree_leaves(t).contains(x));
                    }
                    crate::tree::lemma_first_leaf_wins(merged@, l);
                }
            }
        }
    }
    let new_seq = update_seq + 1;
    let batch = plan_write(doc_id, merged, new_seq, existing_seq, new_rev_str.as_str(), body, deleted);
    let result = DocResult { ok: true, id: doc_id.to_owned(), rev: Some(new_rev_str), error: None, reason: None };
    EditPlan::Write(batch, result)
}

/// The `_revisions` field that a replicated document carries: the
/// generation of its newest revision and the hashes of its history, newest
/// first, each where present.
pub struct RevisionHistory {
    pub start: Option<u64>,
    pub ids: Option<Vec<String>>,
}

/// The generation and hashes (newest first) of the chain that a replicated
/// revision `(pos, hash)` brings: those of its `_revisions` field where given,
/// else the revision alone.
pub open spec fn replica_chain(pos: u64, hash: Seq<char>, history: Option<(Option<u64>, Option<Seq<Seq<char>>>)>) -> (u64, Seq<Seq<char>>) {
    match history {
        Some(h) => (
            match h.0 { Some(s) => s, None => pos },
            match h.1 { Some(ids) => ids, None => seq![hash] },
        ),
        None => (pos, seq![hash]),
    }
}

/// The view of an optional revision history.
pub open spec fn history_view(h: Option<RevisionHistory>) -> Option<(Option<u64>, Option<Seq<Seq<char>>>)> {
    match h {
        Some(r) => Some((r.start, match r.ids {
            Some(v) => Some(v@.map_values(|x: String| x@)),
            None => None,
        })),
        None => None,
    }
}

/// The revisions of a chain of `ids` (newest first) whose newest has
/// generation `start`: the `i`-th hash one generation per step below the
/// leaf.
pub open spec fn chain_revisions(start: u64, ids: Seq<Seq<char>>) -> Set<(u64, Seq<char>)> {
    Set::new(|r: (u64, Seq<char>)| exists|i: int| 0 <= i < ids.len()
        && r == ((chain_root(start, ids.len()) + (ids.len() - 1 - i)) as u64, #[trigger] ids[i]))
}

/// The leaf revision of a chain of `ids` (newest first) whose newest has
/// generation `start`.
pub open spec fn chain_leaf(start: u64, ids: Seq<Seq<char>>) -> (u64, Seq<char>) {
    ((chain_root(start, ids.len()) + (ids.len() - 1)) as u64, ids[0])
}

fn copy_strings(v: &Vec<String>) -> (res: Vec<String>)
    ensures
        res@.map_values(|x: String| x@) == v@.map_values(|x: String| x@),
        res@.len() == v@.len(),
        forall|i: int| 0 <= i < v@.len() ==> #[trigger] res@[i]@ == v@[i]@,
{
    let mut out: Vec<String> = Vec::new();
    let mut i: usize = 0;
    while i < v.len()
        invariant
            i <= v.len(),
            out@.len() == i,
            forall|j: int| 0 <= j < i ==> #[trigger] out@[j]@ == v@[j]@,
        decreases v.len() - i,
    {
        out.push(v[i].clone());
        i = i + 1;
    }
    assert(out@.map_values(|x: String| x@) =~= v@.map_values(|x: String| x@));
    out
}

/// Plans a write in replication mode. A document without a revision is
/// refused; otherwise its revision is taken as it is, the chain of its
/// `_revisions` history (or the revision alone) is merged into the stored
/// tree without a conflict check, and the body is written at the sequence
/// after `update_seq`, without `_revisions` and the other fields kept
/// elsewhere (`_id`, `_rev`, `_deleted`).
pub fn plan_replication(
    doc_id: &str,
    rev: &Option<(u64, String)>,
    deleted: bool,
    data: &serde_json::Value,
    history: &Option<RevisionHistory>,
    existing: &Option<(Vec<RevPath>, u64)>,
    update_seq: u64,
) -> (res: EditPlan)
    requires
        existing_fits(*existing),
        rev is Some ==> update_seq < u64::MAX,
    ensures
        rev is None ==> (res matches EditPlan::Rejected(r)
            && is_failure(r, doc_id@, "bad_request"@, "missing _rev"@)),
        rev matches Some(p) ==> (res matches EditPlan::Write(b, r) && {
                let chain = replica_chain(p.0, p.1@, history_view(*history));
                let leaf = chain_leaf(chain.0, chain.1);
                &&& batch_writes(b, doc_id@, rev_text(p.0, p.1@), deleted, existing_view(*existing), update_seq)
                &&& b.rev.data@ == json_text(stored_body(*data))
                &&& tree_fits(b.doc.rev_tree@)
                &&& b.doc.rev_tree@ == merged_tree(
                    tree_before(existing_view(*existing)),
                    built_path(chain.0, chain.1, deleted),
                    DEFAULT_REV_LIMIT,
                )
                &&& is_success(r, doc_id@, rev_text(p.0, p.1@))
                &&& chain.1.len() > 0 && leaf.1.len() > 0
                    && !tree_revisions(tree_before(existing_view(*existing))).contains(leaf)
                    ==> tree_revisions(b.doc.rev_tree@).contains(leaf)
                        && tree_leaves(b.doc.rev_tree@).contains((leaf.0, leaf.1, deleted))
                &&& chain.1.len() > 0 ==> forall|x: LeafView| #[trigger] tree_leaves(b.doc.rev_tree@).contains(x)
                    ==> tree_leaves(tree_before(existing_view(*existing))).contains(x) || x == (leaf.0, leaf.1, deleted)
                &&& chain.1.len() > 0 ==> forall|x: (u64, Seq<char>)| #[trigger] tree_revisions(b.doc.rev_tree@).contains(x)
                    ==> tree_revisions(tree_before(existing_view(*existing))).contains(x)
                        || chain_revisions(chain.0, chain.1).contains(x)
                &&& (existing is None && 0 < chain.1.len() < DEFAULT_REV_LIMIT
                    && forall|i: int| 0 <= i < chain.1.len() ==> #[trigger] chain.1[i].len() > 0)
                    ==> tree_revisions(b.doc.rev_tree@) == chain_revisions(chain.0, chain.1)
            }),
{
    let (pos, hash) = match rev {
        Some(p) => (p.0, &p.1),
        None => {
            return EditPlan::Rejected(DocResult {
                ok: false,
                id: doc_id.to_owned(),
                rev: None,
                error: Some("bad_request".to_owned()),
                reason: Some("missing _rev".to_owned()),
            });
        },
    };
    let rev_str = rev_string(pos, hash.as_str());
    let (start, ids): (u64, Vec<String>) = match history {
        Some(h) => {
            let s = match h.start {
                Some(s) => s,
                None => pos,
            };
            let ids = match &h.ids {
                Some(v) => copy_strings(v),
                None => {
                    let mut one: Vec<String> = Vec::new();
                    one.push(hash.clone());
                    one
                },
            };
            (s, ids)
        },
        None => {
            let mut one: Vec<String> = Vec::new();
            one.push(hash.clone());
            (pos, one)
        },
    };
    proof {
        let chain = replica_chain(pos, hash@, history_view(*history));
        assert(ids@.map_values(|x: String| x@) =~= chain.1);
        assert(start == chain.0);
    }
    let new_path = build_path_from_revs(start, &ids, deleted);
    let stored = strip_meta_fields(data);
    let body = match json_to_string(&stored) {
        Ok(b) => b,
        Err(e) => return EditPlan::Rejected(db_err(doc_id, serde_err(&e))),
    };
    let (existing_tree, existing_seq) = tree_of(existing);
    let merged = merge_tree(&existing_tree, &new_path, DEFAULT_REV_LIMIT);
    proof {
        broadcast use {vstd::multiset::group_multiset_axioms, vstd::multiset::group_multiset_properties};
        let chain = replica_chain(pos, hash@, history_view(*history));
        if chain.1.len() > 0 {
            let leaf = chain_leaf(chain.0, chain.1);
            let l: LeafView = (leaf.0, leaf.1, deleted);
            assert(chain.1[0] == ids@[0]@);
            assert(path_leaf_is(new_path, l));
            assert(crate::tree::path_revisions(new_path) =~= chain_revisions(chain.0, chain.1)) by {
                assert forall|x: (u64, Seq<char>)| crate::tree::path_revisions(new_path).contains(x)
                    <==> chain_revisions(chain.0, chain.1).contains(x) by {
                    if crate::tree::path_revisions(new_path).contains(x) {
                        let i = choose|i: int| 0 <= i < ids@.len()
                            && x == ((chain_root(start, ids@.len()) + (ids@.len() - 1 - i)) as u64, #[trigger] ids@[i]@);
                        assert(chain.1[i] == ids@[i]@);
                    }
                    if chain_revisions(chain.0, chain.1).contains(x) {
                        let i = choose|i: int| 0 <= i < chain.1.len()
                            && x == ((chain_root(chain.0, chain.1.len()) + (chain.1.len() - 1 - i)) as u64, #[trigger] chain.1[i]);
                        assert(chain.1[i] == ids@[i]@);
                    }
                }
            }
            assert forall|x: LeafView| #[trigger] tree_leaves(merged@).contains(x) implies
                tree_leaves(existing_tree@).contains(x) || x == l by {
                if !tree_leaves(existing_tree@).contains(x) {
                    assert(crate::tree::path_leaves(new_path).contains(x));
                }
            }
            if existing.is_none() && chain.1.len() < DEFAULT_REV_LIMIT
                && forall|i: int| 0 <= i < chain.1.len() ==> #[trigger] chain.1[i].len() > 0 {
                let n = chain.1.len();
                let sq = Seq::new(n, |i: int| ((chain_root(chain.0, n) + (n - 1 - i)) as u64, chain.1[i]));
                assert(sq.to_set() =~= chain_revisions(chain.0, chain.1)) by {
                    assert forall|x: (u64, Seq<char>)| sq.to_set().contains(x)
                        <==> chain_revisions(chain.0, chain.1).contains(x) by {
                        if sq.to_set().contains(x) {
                            let i = choose|i: int| 0 <= i < sq.len() && sq[i] == x;
                            assert(x == ((chain_root(chain.0, n) + (n - 1 - i)) as u64, chain.1[i]));
                        }
                        if chain_revisions(chain.0, chain.1).contains(x) {
                            let i = choose|i: int| 0 <= i < n
                                && x == ((chain_root(chain.0, n) + (n - 1 - i)) as u64, #[trigger] chain.1[i]);
                            assert(sq[i] == x);
                        }
                    }
                }
                sq.lemma_cardinality_of_set();
                assert forall|r: (u64, Seq<char>)| #[trigger] crate::tree::path_revisions(new_path).contains(r)
                    implies r.1.len() > 0 by {
                    let i = choose|i: int| 0 <= i < n
                        && r == ((chain_root(chain.0, n) + (n - 1 - i)) as u64, #[trigger] chain.1[i]);
                }
                assert(merged@ == seq![new_path]);
                let one = seq![new_path];
                assert(one.drop_last() =~= Seq::<RevPath>::empty());
                assert(one.last() == new_path);
                assert(tree_revisions(one) =~= crate::tree::path_revisions(new_path));
            }
        }
    }
    let new_seq = update_seq + 1;
    let batch = plan_write(doc_id, merged, new_seq, existing_seq, rev_str.as_str(), body, deleted);
    let result = DocResult { ok: true, id: doc_id.to_owned(), rev: Some(rev_str), error: None, reason: None };
    EditPlan::Write(batch, result)
}

/// Whether `c` is a lower-case hexadecimal digit.
pub open spec fn is_hex_lower(c: char) -> bool {
    ('0' <= c && c <= '9') || ('a' <= c && c <= 'f')
}

/// Whether `s` has the hyphenated form of a version-4 UUID: 36 characters,
/// hyphens at positions 8, 13, 18 and 23, the version digit `4` at position
/// 14, lower-case hex digits elsewhere.
pub open spec fn is_uuid_text(s: Seq<char>) -> bool {
    &&& s.len() == 36
    &&& s[14] == '4'
    &&& forall|i: int| 0 <= i < 36 ==> if i == 8 || i == 13 || i == 18 || i == 23 {
        #[trigger] s[i] == '-'
    } else {
        is_hex_lower(s[i])
    }
}

/// Generates a random version-4 UUID with `uuid::Uuid::new_v4` and formats
/// it with its `Display` impl. The contract states the hyphenated lower-case
/// form the crate documents; which UUID comes out is left open.
#[verifier::external_body]
fn new_uuid_string() -> (res: String)
    ensures
        is_uuid_text(res@),
{
    uuid::Uuid::new_v4().to_string()
}

/// The id a new edit writes under: the document's own id, or a fresh random
/// UUID where it has none.
pub fn resolve_doc_id(id: &str) -> (res: String)
    ensures
        id@.len() > 0 ==> res@ == id@,
        id@.len() == 0 ==> is_uuid_text(res@),
{
    if id.is_empty() {
        new_uuid_string()
    } else {
        id.to_owned()
    }
}

/// A live new edit whose revision is new to the tree wins the merged tree:
/// every other leaf of the merged tree is a leaf of the old tree, which the
/// new leaf sorts before (the old winner is the revision it extends, or a
/// deletion where it extends none).
proof fn lemma_live_edit_wins(t: Seq<RevPath>, merged: Seq<RevPath>, rev: Option<(u64, Seq<char>)>, l: LeafView)
    requires
        !l.2,
        l.0 == new_edit_pos(rev),
        rev matches Some(p) ==> p.0 < u64::MAX,
        tree_winner(t) matches Some(w) ==> (match rev {
            Some(p) => p == w,
            None => tree_deleted(t),
        }),
        tree_leaves(merged).contains(l),
        forall|x: LeafView| #[trigger] tree_leaves(merged).contains(x) ==> tree_leaves(t).contains(x) || x == l,
    ensures
        tree_winner(merged) == Some((l.0, l.1)),
        !tree_deleted(merged),
{
    crate::tree::lemma_winner_is_first_leaf(t);
    assert forall|x: LeafView| #[trigger] tree_leaves(merged).contains(x) && x != l implies leaf_precedes(l, x) by {
        assert(tree_leaves(t).contains(x));
        let w = tree_winner(t)->0;
        let wl: LeafView = (w.0, w.1, tree_deleted(t));
        assert(!leaf_precedes(x, wl));
    }
    crate::tree::lemma_first_leaf_wins(merged, l);
}

/// Merging the two-revision path that extends the winner of a tree by a new
/// leaf: a live leaf becomes the winner of the merged tree; a deleted one, on
/// a tree without conflicts, leaves the merged tree deleted.
proof fn lemma_update_merge(t: Seq<RevPath>, new_path: RevPath, merged: Seq<RevPath>, ap: u64, ah: Seq<char>, l: LeafView)
    requires
        tree_winner(t) == Some((ap, ah)),
        l.0 == ap + 1,
        l.1.len() > 0,
        crate::tree::path_revisions(new_path) == Set::empty().insert((ap, ah)).insert((l.0, l.1)),
        crate::tree::path_leaves(new_path) == vstd::multiset::Multiset::singleton(l),
        tree_nodes(t).count((ap, ah)) == 1,
        forall|x: LeafView| #[trigger] tree_leaves(t).contains(x) ==> x.1.len() > 0,
        !tree_revisions(t).contains((l.0, l.1)),
        forall|ap2: u64, ah2: Seq<char>, d2: bool, l2: LeafView|
            #![trigger tree_leaves(t).contains((ap2, ah2, d2)), crate::tree::path_leaves(new_path).contains(l2)]
            crate::tree::path_revisions(new_path) == Set::empty().insert((ap2, ah2)).insert((l2.0, l2.1))
            && crate::tree::path_leaves(new_path) == vstd::multiset::Multiset::singleton(l2)
            && ap2 + 1 == l2.0
            && l2.1.len() > 0
            && tree_nodes(t).count((ap2, ah2)) == 1
            && tree_leaves(t).contains((ap2, ah2, d2))
            && !tree_revisions(t).contains((l2.0, l2.1))
            && (forall|x: LeafView| #[trigger] tree_leaves(t).contains(x) ==> x.1.len() > 0)
            ==> tree_leaves(merged) == tree_leaves(t).remove((ap2, ah2, d2)).insert(l2),
    ensures
        !l.2 ==> tree_winner(merged) == Some((l.0, l.1)) && !tree_deleted(merged),
        l.2 && tree_conflicts(t).len() == 0 ==> tree_deleted(merged),
        tree_leaves(t).len() == 1 ==> tree_winner(merged) == Some((l.0, l.1)) && tree_deleted(merged) == l.2,
{
    broadcast use {vstd::multiset::group_multiset_axioms, vstd::multiset::group_multiset_properties};
    crate::tree::lemma_winner_is_first_leaf(t);
    let d = tree_deleted(t);
    let w: LeafView = (ap, ah, d);
    assert(tree_leaves(t).contains(w));
    assert(crate::tree::path_leaves(new_path).contains(l));
    assert(tree_leaves(merged) == tree_leaves(t).remove(w).insert(l));
    let m = tree_leaves(merged);
    if tree_leaves(t).len() == 1 {
        assert(tree_leaves(t).remove(w).len() == 0);
        assert forall|x: LeafView| #[trigger] m.contains(x) && x != l implies leaf_precedes(l, x) by {
            assert(tree_leaves(t).remove(w).contains(x));
        }
        crate::tree::lemma_first_leaf_wins(merged, l);
    }
    if !l.2 {
        assert forall|x: LeafView| #[trigger] m.contains(x) && x != l implies crate::tree::leaf_precedes(l, x) by {
            assert(tree_leaves(t).remove(w).contains(x));
            assert(tree_leaves(t).contains(x));
            assert(!crate::tree::leaf_precedes(x, w));
        }
        crate::tree::lemma_first_leaf_wins(merged, l);
    } else if tree_conflicts(t).len() == 0 {
        crate::tree::lemma_no_conflicts(t);
        crate::tree::lemma_winner_is_first_leaf(merged);
        assert(m.contains(l));
        let v = tree_winner(merged)->0;
        let vl: LeafView = (v.0, v.1, tree_deleted(merged));
        assert(m.contains(vl));
        if vl != l {
            assert(tree_leaves(t).remove(w).contains(vl));
        }
    }
}

/// The tree a new edit creates meets every premise of `plan_new_edit`'s
/// clauses on a following write, so writes chain: an edit that provides the
/// created revision goes ahead (and, without one, is refused as a conflict
/// unless the creation was a deletion); the next generation holds no revision
/// yet, so a live update wins and a deletion leaves the document deleted with
/// the deleting revision as winner; and the tree knows no revision but the
/// created one, so any other is missing.
pub proof fn lemma_writes_chain_after_create(t: Seq<RevPath>, pos: u64, hash: Seq<char>, deleted: bool)
    requires
        tree_nodes(t) == Multiset::singleton((pos, hash)),
        tree_revisions(t) == Set::empty().insert((pos, hash)),
        tree_leaves(t) == Multiset::singleton((pos, hash, deleted)),
        tree_winner(t) == Some((pos, hash)),
        tree_deleted(t) == deleted,
        hash.len() == 32,
    ensures
        new_edit_verdict(Some((pos, hash)), Some(t)) is Proceed,
        new_edit_verdict(None, Some(t)) is Proceed <==> deleted,
        forall|r: (u64, Seq<char>)| #[trigger] tree_revisions(t).contains(r) <==> r == (pos, hash),
        tree_nodes(t).count((pos, hash)) == 1,
        forall|x: LeafView| #[trigger] tree_leaves(t).contains(x) ==> x.1.len() > 0,
        tree_leaves(t).len() == 1,
        tree_conflicts(t).len() == 0,
{
    broadcast use {vstd::multiset::group_multiset_axioms, vstd::seq_lib::group_to_multiset_ensures};
    let leaf: LeafView = (pos, hash, deleted);
    crate::tree::lemma_sorted_leaves_spec(t);
    let srt = crate::tree::sorted_leaves(t);
    vstd::seq_lib::to_multiset_len(srt);
    assert(srt.len() == 1);
    assert(srt.drop_first() =~= Seq::<LeafView>::empty());
    assert(crate::tree::live_revs(Seq::<LeafView>::empty()) =~= Seq::<(u64, Seq<char>)>::empty());
}

/// The batch that either write mode plans for a document, from the state
/// the document store records for it and the stores' update sequence, is one
/// that keeps the changes store consistent: so every write through
/// `plan_new_edit` or `plan_replication` leaves each document with exactly one
/// change entry, at its latest sequence.
pub proof fn lemma_planned_batch_keeps_changes_consistent(
    s: StoreView,
    b: WriteBatch,
    id: Seq<char>,
    rev: Seq<char>,
    deleted: bool,
)
    requires
        crate::store::changes_consistent(s),
        s.update_seq < u64::MAX,
        batch_writes(b, id, rev, deleted,
            if s.docs.contains_key(id) { Some(s.docs[id]) } else { None }, s.update_seq),
    ensures
        crate::store::batch_fits(s, b),
        crate::store::changes_consistent(apply_batch(s, b)),
        apply_batch(s, b).docs[id].1 == s.update_seq + 1,
        apply_batch(s, b).changes[(s.update_seq + 1) as u64].0 == id,
{
    crate::store::lemma_write_keeps_changes_consistent(s, b);
}

/// Whether `leaf` is the single leaf of path `p`.
pub open spec fn path_leaf_is(p: RevPath, leaf: (u64, Seq<char>, bool)) -> bool {
    crate::tree::path_leaves(p).len() == 1 && crate::tree::path_leaves(p).contains(leaf)
}

/// A document written by a new edit reads back at the revision the write
/// reported, from the body the write stored: once the batch is applied, the
/// document's tree has that revision as its winner (which a get without a
/// requested revision reads), and the revision store holds the body under the
/// key of that revision. `plan_new_edit` states when its batch's tree has the
/// new revision as its winner: on a create, and on a live update of the
/// winner.
pub proof fn lemma_get_after_write(
    s: StoreView,
    b: WriteBatch,
    id: Seq<char>,
    pos: u64,
    hash: Seq<char>,
    deleted: bool,
    existing: Option<(Seq<RevPath>, u64)>,
)
    requires
        batch_writes(b, id, rev_text(pos, hash), deleted, existing, s.update_seq),
        tree_winner(b.doc.rev_tree@) == Some((pos, hash)),
    ensures
        apply_batch(s, b).docs.contains_key(id),
        tree_winner(apply_batch(s, b).docs[id].0) == Some((pos, hash)),
        apply_batch(s, b).revs.contains_key(rev_key_text(id, rev_text(pos, hash))),
        apply_batch(s, b).revs[rev_key_text(id, rev_text(pos, hash))] == (id, rev_text(pos, hash), b.rev.data@, deleted),
{
}

} // verus!
