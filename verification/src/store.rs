//! The records kept in the object stores, the batch of records that one
//! document write puts, and the update sequence counter.

use vstd::prelude::*;
use rouchdb_core::rev_tree::RevPath;
use crate::revision::{decimal, meta_seq_spec, lemma_meta_seq_round_trip, rev_key, rev_key_text, u64_to_string};
use crate::tree::{is_deleted, tree_deleted};

verus! {

/// A document's entry in the `docs` store: its revision tree and the
/// sequence of its latest write.
pub struct StoredDoc {
    pub id: String,
    pub rev_tree: Vec<RevPath>,
    pub seq: u64,
}

/// A revision body in the `revs` store, under `key` = id, NUL, revision.
pub struct StoredRev {
    pub key: String,
    pub doc_id: String,
    pub rev: String,
    pub data: String,
    pub deleted: bool,
}

/// An entry of the `changes` store.
pub struct StoredChange {
    pub seq: u64,
    pub doc_id: String,
    pub deleted: bool,
}

/// A non-replicated local document in the `local_docs` store.
pub struct StoredLocalDoc {
    pub id: String,
    pub data: String,
}

/// Everything one document write puts into the stores, in one transaction:
/// the document entry, the revision body, the removal of the document's
/// previous change entry (if any), its new change entry, and the new update
/// sequence for the `meta` store.
pub struct WriteBatch {
    pub doc: StoredDoc,
    pub rev: StoredRev,
    pub delete_change: Option<u64>,
    pub change: StoredChange,
    pub meta_value: String,
}

/// Builds the batch that writes revision `rev_str` of document `doc_id`
/// with body `data_json`, its merged tree `tree`, at sequence `new_seq`,
/// replacing the change entry at `old_seq`.
pub fn plan_write(
    doc_id: &str,
    tree: Vec<RevPath>,
    new_seq: u64,
    old_seq: Option<u64>,
    rev_str: &str,
    data_json: String,
    doc_deleted: bool,
) -> (res: WriteBatch)
    requires
        crate::tree::tree_fits(tree@),
    ensures
        res.doc.id@ == doc_id@,
        res.doc.rev_tree@ == tree@,
        res.doc.seq == new_seq,
        res.rev.key@ == rev_key_text(doc_id@, rev_str@),
        res.rev.doc_id@ == doc_id@,
        res.rev.rev@ == rev_str@,
        res.rev.data@ == data_json@,
        res.rev.deleted == doc_deleted,
        res.delete_change == old_seq,
        res.change.seq == new_seq,
        res.change.doc_id@ == doc_id@,
        res.change.deleted == tree_deleted(tree@),
        res.meta_value@ == decimal(new_seq as nat),
{
    let tree_is_deleted = is_deleted(&tree);
    let key = rev_key(doc_id, rev_str);
    WriteBatch {
        doc: StoredDoc { id: doc_id.to_owned(), rev_tree: tree, seq: new_seq },
        rev: StoredRev {
            key,
            doc_id: doc_id.to_owned(),
            rev: rev_str.to_owned(),
            data: data_json,
            deleted: doc_deleted,
        },
        delete_change: old_seq,
        change: StoredChange { seq: new_seq, doc_id: doc_id.to_owned(), deleted: tree_is_deleted },
        meta_value: u64_to_string(new_seq),
    }
}

/// The content of the document, revision and change stores, and the update
/// sequence, as the laws of the write path speak of them.
pub struct StoreView {
    pub docs: Map<Seq<char>, (Seq<RevPath>, u64)>,
    pub revs: Map<Seq<char>, (Seq<char>, Seq<char>, Seq<char>, bool)>,
    pub changes: Map<u64, (Seq<char>, bool)>,
    pub update_seq: u64,
}

/// The stores after a write batch has been applied.
pub open spec fn apply_batch(s: StoreView, b: WriteBatch) -> StoreView {
    let cleared = match b.delete_change {
        Some(o) => s.changes.remove(o),
        None => s.changes,
    };
    StoreView {
        docs: s.docs.insert(b.doc.id@, (b.doc.rev_tree@, b.doc.seq)),
        revs: s.revs.insert(b.rev.key@, (b.rev.doc_id@, b.rev.rev@, b.rev.data@, b.rev.deleted)),
        changes: cleared.insert(b.change.seq, (b.change.doc_id@, b.change.deleted)),
        update_seq: meta_seq_spec(Some(b.meta_value@)),
    }
}

/// The invariant of the changes store: every document has exactly one change
/// entry, at the sequence of its latest write, and no entry is newer than the
/// update sequence.
pub open spec fn changes_consistent(s: StoreView) -> bool {
    &&& forall|q: u64| #[trigger] s.changes.contains_key(q) ==> {
        &&& s.docs.contains_key(s.changes[q].0)
        &&& s.docs[s.changes[q].0].1 == q
        &&& q <= s.update_seq
    }
    &&& forall|id: Seq<char>| #[trigger] s.docs.contains_key(id) ==> {
        &&& s.changes.contains_key(s.docs[id].1)
        &&& s.changes[s.docs[id].1].0 == id
    }
}

/// Whether a batch is the one that the write path plans for document `id`
/// in store `s`: its previous change entry is the one the document store
/// records, and its sequence is above every sequence of the changes store
/// (the write path takes the one after the update sequence).
pub open spec fn batch_fits(s: StoreView, b: WriteBatch) -> bool {
    &&& b.doc.id@ == b.change.doc_id@
    &&& b.doc.seq == b.change.seq
    &&& forall|q: u64| #[trigger] s.changes.contains_key(q) ==> q < b.doc.seq
    &&& b.meta_value@ == decimal(b.doc.seq as nat)
    &&& b.delete_change == (if s.docs.contains_key(b.doc.id@) { Some(s.docs[b.doc.id@].1) } else { None::<u64> })
}

/// Writing a document keeps the changes store consistent: afterwards the
/// document has exactly one change entry, at its new sequence, and the update
/// sequence is that new sequence.
pub proof fn lemma_write_keeps_changes_consistent(s: StoreView, b: WriteBatch)
    requires
        changes_consistent(s),
        batch_fits(s, b),
    ensures
        changes_consistent(apply_batch(s, b)),
        apply_batch(s, b).update_seq == b.doc.seq,
        apply_batch(s, b).changes[b.doc.seq].0 == b.doc.id@,
        apply_batch(s, b).docs[b.doc.id@].1 == b.doc.seq,
{
    lemma_meta_seq_round_trip(b.doc.seq);
    let t = apply_batch(s, b);
    let id = b.doc.id@;
    let n = b.doc.seq;
    let cleared = match b.delete_change {
        Some(o) => s.changes.remove(o),
        None => s.changes,
    };
    assert forall|q: u64| #[trigger] t.changes.contains_key(q) implies {
        &&& t.docs.contains_key(t.changes[q].0)
        &&& t.docs[t.changes[q].0].1 == q
        &&& q <= t.update_seq
    } by {
        if q != n {
            assert(cleared.contains_key(q));
            assert(s.changes.contains_key(q));
            let d = s.changes[q].0;
            assert(s.docs.contains_key(d));
            if d == id {
                assert(s.docs[id].1 == q);
                assert(b.delete_change == Some(q));
                assert(!cleared.contains_key(q));
            }
        }
    }
    assert forall|d: Seq<char>| #[trigger] t.docs.contains_key(d) implies {
        &&& t.changes.contains_key(t.docs[d].1)
        &&& t.changes[t.docs[d].1].0 == d
    } by {
        if d != id {
            assert(s.docs.contains_key(d));
            let q = s.docs[d].1;
            assert(s.changes.contains_key(q));
            assert(q <= s.update_seq);
            assert(q != n);
            if s.docs.contains_key(id) {
                let o = s.docs[id].1;
                assert(s.changes[o].0 == id);
                assert(o != q);
            }
            assert(cleared.contains_key(q));
        }
    }
}

/// In a consistent changes store no document has two change entries.
pub proof fn lemma_one_change_per_doc(s: StoreView, q1: u64, q2: u64)
    requires
        changes_consistent(s),
        s.changes.contains_key(q1),
        s.changes.contains_key(q2),
        s.changes[q1].0 == s.changes[q2].0,
    ensures
        q1 == q2,
{
}

/// After a write, the revision store holds the written body under the key
/// of the document and revision, and the document store holds the written
/// tree: what a read of that revision finds is what was written.
pub proof fn lemma_written_body_is_stored(s: StoreView, b: WriteBatch)
    requires
        b.rev.key@ == rev_key_text(b.rev.doc_id@, b.rev.rev@),
    ensures
        apply_batch(s, b).revs.contains_key(rev_key_text(b.rev.doc_id@, b.rev.rev@)),
        apply_batch(s, b).revs[rev_key_text(b.rev.doc_id@, b.rev.rev@)]
            == (b.rev.doc_id@, b.rev.rev@, b.rev.data@, b.rev.deleted),
        apply_batch(s, b).docs[b.doc.id@] == (b.doc.rev_tree@, b.doc.seq),
{
}

/// The in-memory update sequence counter.
pub struct SeqCounter {
    pub value: u64,
}

impl SeqCounter {
    /// A counter loaded from the meta store.
    pub fn new(value: u64) -> (res: SeqCounter)
        ensures
            res.value == value,
    {
        SeqCounter { value }
    }

    /// The sequence that the next write takes; the counter does not move
    /// until that write has succeeded.
    pub fn next(&self) -> (res: u64)
        requires
            self.value < u64::MAX,
        ensures
            res == next_seq(*self),
    {
        self.value + 1
    }

    /// Records a write that succeeded at sequence `seq`.
    pub fn commit(&mut self, seq: u64)
        ensures
            final(self).value == seq,
    {
        self.value = seq;
    }

    /// Settles the counter once the write of a batch at sequence `seq` has
    /// been tried: it advances to `seq` only where the write succeeded, and
    /// otherwise keeps the value it had.
    pub fn settle(&mut self, seq: u64, written: bool)
        ensures
            final(self).value == (if written { seq } else { old(self).value }),
    {
        if written {
            self.commit(seq);
        }
    }

    /// Resets the counter when the database is destroyed.
    pub fn reset(&mut self)
        ensures
            *final(self) == reset_counter(),
    {
        self.value = 0;
    }
}

/// The sequence that the next write on counter `c` takes.
pub open spec fn next_seq(c: SeqCounter) -> int {
    c.value + 1
}

/// The counter after the database is destroyed.
pub open spec fn reset_counter() -> SeqCounter {
    SeqCounter { value: 0 }
}

/// The stores after the database is destroyed: every store empty and the
/// update sequence that of a reset counter.
pub open spec fn emptied_store() -> StoreView {
    StoreView { docs: Map::empty(), revs: Map::empty(), changes: Map::empty(), update_seq: reset_counter().value }
}

/// After the database is destroyed, whatever the counter held before, the
/// emptied stores are consistent, a next write may go ahead (`next`'s
/// precondition holds), and it takes sequence 1, above the stores' update
/// sequence.
pub proof fn lemma_destroy_restarts_sequence()
    ensures
        changes_consistent(emptied_store()),
        reset_counter().value < u64::MAX,
        next_seq(reset_counter()) == 1,
        next_seq(reset_counter()) > emptied_store().update_seq,
{
}

} // verus!
