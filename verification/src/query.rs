//! The selections made by the read queries over the records loaded from the
//! stores.

use vstd::prelude::*;
use rouchdb_core::rev_tree::RevPath;
use crate::revision::{AdapterError, chars_of, parse_rev, parse_rev_spec, rev_string, rev_text, string_of};
use crate::tree::{collect_conflicts, collect_leaves, is_deleted, leaf_views, sorted_leaves, tree_conflicts, tree_deleted, tree_winner, winning_rev};
use crate::store::{StoredChange, StoredRev};
use crate::tree::{chain_in_tree, find_rev_ancestry, opt_chain_view, rev_ancestry, rev_exists, tree_fits, tree_revisions};
use crate::order::{sorted_texts, sort_texts, text_less, texts, texts_sorted};
use crate::tree::text_lt;

verus! {

/// The text of an optional string.
pub open spec fn opt_string(o: Option<String>) -> Option<Seq<char>> {
    match o {
        Some(t) => Some(t@),
        None => None,
    }
}

/// The options of an all-documents query.
pub struct AllDocsQuery {
    pub start_key: Option<String>,
    pub end_key: Option<String>,
    pub key: Option<String>,
    pub keys: Option<Vec<String>>,
    pub include_docs: bool,
    pub descending: bool,
    pub skip: u64,
    pub limit: Option<u64>,
    pub inclusive_end: bool,
    pub conflicts: bool,
}

/// One row of an all-documents answer: the document id, its winning
/// revision, whether that is a deletion, whether its body is to be loaded,
/// and the conflicts to list with the body.
pub struct AllDocsRowPlan {
    pub id: String,
    pub rev: String,
    pub deleted: bool,
    pub load_body: bool,
    pub conflicts: Vec<String>,
}

/// An all-documents answer before the bodies are loaded.
pub struct AllDocsPlan {
    pub total_rows: u64,
    pub offset: u64,
    pub rows: Vec<AllDocsRowPlan>,
}

/// The view of a row: id, revision, deleted, body wanted, conflicts.
pub type RowView = (Seq<char>, Seq<char>, bool, bool, Seq<Seq<char>>);

/// The view of a planned row.
pub open spec fn row_view(r: AllDocsRowPlan) -> RowView {
    (r.id@, r.rev@, r.deleted, r.load_body, texts(r.conflicts@))
}

/// Whether key `k` lies in the range that `start` and `end` set, walking in
/// the given direction; `inclusive_end` keeps a key equal to `end`.
pub open spec fn in_key_range(k: Seq<char>, start: Option<Seq<char>>, end: Option<Seq<char>>, descending: bool, inclusive_end: bool) -> bool {
    &&& match start {
        Some(s) => if !descending { !text_lt(k, s) } else { !text_lt(s, k) },
        None => true,
    }
    &&& match end {
        Some(e) => if inclusive_end {
            if !descending { !text_lt(e, k) } else { !text_lt(k, e) }
        } else {
            if !descending { text_lt(k, e) } else { text_lt(e, k) }
        },
        None => true,
    }
}

/// The ids of the stored documents.
pub open spec fn doc_ids(docs: Seq<(String, Vec<RevPath>)>) -> Seq<Seq<char>> {
    docs.map_values(|d: (String, Vec<RevPath>)| d.0@)
}

/// The stored ids in ascending order, or descending where asked.
pub open spec fn ordered_ids(docs: Seq<(String, Vec<RevPath>)>, descending: bool) -> Seq<Seq<char>> {
    let s = sorted_texts(doc_ids(docs).to_multiset());
    if descending { s.reverse() } else { s }
}

/// Whether a key lies in the key range of the query.
pub open spec fn range_pred(q: AllDocsQuery) -> spec_fn(Seq<char>) -> bool {
    |k: Seq<char>| in_key_range(k, opt_string(q.start_key), opt_string(q.end_key), q.descending, q.inclusive_end)
}

/// The keys an all-documents query walks: the given keys, or the single
/// given key, or every stored id in order that lies in the key range.
pub open spec fn candidate_keys(docs: Seq<(String, Vec<RevPath>)>, q: AllDocsQuery) -> Seq<Seq<char>> {
    match q.keys {
        Some(ks) => texts(ks@),
        None => match q.key {
            Some(k) => seq![k@],
            None => ordered_ids(docs, q.descending).filter(range_pred(q)),
        },
    }
}

/// The tree stored under `id` (the last entry with that id, as a map built
/// from the records in order keeps it).
pub open spec fn lookup_tree(docs: Seq<(String, Vec<RevPath>)>, id: Seq<char>) -> Option<Seq<RevPath>>
    decreases docs.len(),
{
    if docs.len() == 0 {
        None
    } else if docs.last().0@ == id {
        Some(docs.last().1@)
    } else {
        lookup_tree(docs.drop_last(), id)
    }
}

/// Whether every stored tree fits (`tree_fits`).
pub open spec fn docs_fit(docs: Seq<(String, Vec<RevPath>)>) -> bool {
    forall|i: int| 0 <= i < docs.len() ==> #[trigger] tree_fits(docs[i].1@)
}

/// Whether an optional tree fits (`tree_fits`) where there is one.
pub open spec fn opt_fits(tree: Option<&Vec<RevPath>>) -> bool {
    match tree {
        Some(t) => tree_fits(t@),
        None => true,
    }
}

/// The texts of revisions given as generation and hash.
pub open spec fn rev_texts(revs: Seq<(u64, Seq<char>)>) -> Seq<Seq<char>> {
    revs.map_values(|r: (u64, Seq<char>)| rev_text(r.0, r.1))
}

/// The row of key `k` whose stored tree is `t`, where its winner is `w`.
pub open spec fn row_of(k: Seq<char>, t: Seq<RevPath>, w: (u64, Seq<char>), q: AllDocsQuery) -> RowView {
    let deleted = tree_deleted(t);
    (
        k,
        rev_text(w.0, w.1),
        deleted,
        q.include_docs && !deleted,
        if q.include_docs && q.conflicts && !deleted { rev_texts(tree_conflicts(t)) } else { seq![] },
    )
}

/// The rows of the given keys, in order: a key without a stored document or
/// without a winner gives no row, nor does a deleted document unless the keys
/// were given explicitly.
pub open spec fn rows_for(keys: Seq<Seq<char>>, docs: Seq<(String, Vec<RevPath>)>, q: AllDocsQuery) -> Seq<RowView>
    decreases keys.len(),
{
    if keys.len() == 0 {
        seq![]
    } else {
        let prev = rows_for(keys.drop_last(), docs, q);
        let k = keys.last();
        match lookup_tree(docs, k) {
            Some(t) => match tree_winner(t) {
                Some(w) => if tree_deleted(t) && q.keys is None { prev } else { prev.push(row_of(k, t, w, q)) },
                None => prev,
            },
            None => prev,
        }
    }
}

/// The rows left after skipping `skip` of them and keeping at most `limit`.
pub open spec fn page<T>(rows: Seq<T>, skip: u64, limit: Option<u64>) -> Seq<T> {
    let after = if skip >= rows.len() { seq![] } else { rows.subrange(skip as int, rows.len() as int) };
    match limit {
        Some(l) => if l < after.len() { after.subrange(0, l as int) } else { after },
        None => after,
    }
}

/// Reverses a vector of strings.
fn reversed(v: Vec<String>) -> (res: Vec<String>)
    ensures
        texts(res@) == texts(v@).reverse(),
{
    let mut out: Vec<String> = Vec::new();
    let mut i: usize = v.len();
    while i > 0
        invariant
            i <= v.len(),
            out@.len() == v.len() - i,
            forall|j: int| 0 <= j < out@.len() ==> #[trigger] out@[j]@ == v@[v.len() - 1 - j]@,
        decreases i,
    {
        i = i - 1;
        out.push(v[i].clone());
    }
    assert(texts(out@) =~= texts(v@).reverse());
    out
}

fn copy_texts(v: &Vec<String>) -> (res: Vec<String>)
    ensures
        texts(res@) == texts(v@),
{
    let mut out: Vec<String> = Vec::new();
    let mut i: usize = 0;
    while i < v.len()
        invariant
            i <= v.len(),
            out@.len() == i,
            forall|j: int| 0 <= j < i ==> #[trigger] out@[j]@ == v@[j]@,
        decreases v.len() - i,
    {
        out.push(v[i].clone());
        i = i + 1;
    }
    assert(texts(out@) =~= texts(v@));
    out
}

/// Whether `k` lies in the key range of the query.
fn key_in_range(k: &String, q: &AllDocsQuery) -> (res: bool)
    ensures
        res == in_key_range(k@, opt_string(q.start_key), opt_string(q.end_key), q.descending, q.inclusive_end),
{
    let start_ok = match &q.start_key {
        Some(s) => if !q.descending { !text_less(k.as_str(), s.as_str()) } else { !text_less(s.as_str(), k.as_str()) },
        None => true,
    };
    let end_ok = match &q.end_key {
        Some(e) => if q.inclusive_end {
            if !q.descending { !text_less(e.as_str(), k.as_str()) } else { !text_less(k.as_str(), e.as_str()) }
        } else {
            if !q.descending { text_less(k.as_str(), e.as_str()) } else { text_less(e.as_str(), k.as_str()) }
        },
        None => true,
    };
    start_ok && end_ok
}

/// The keys that an all-documents query walks.
fn all_docs_keys(docs: &Vec<(String, Vec<RevPath>)>, q: &AllDocsQuery) -> (res: Vec<String>)
    ensures
        texts(res@) == candidate_keys(docs@, *q),
{
    match &q.keys {
        Some(ks) => copy_texts(ks),
        None => match &q.key {
            Some(k) => {
                let mut v: Vec<String> = Vec::new();
                v.push(k.clone());
                assert(texts(v@) =~= seq![k@]);
                v
            },
            None => {
                let mut ids: Vec<String> = Vec::new();
                let mut i: usize = 0;
                while i < docs.len()
                    invariant
                        i <= docs.len(),
                        texts(ids@) == doc_ids(docs@.subrange(0, i as int)),
                    decreases docs.len() - i,
                {
                    let ghost before = texts(ids@);
                    assert(doc_ids(docs@.subrange(0, i + 1)) =~= doc_ids(docs@.subrange(0, i as int)).push(docs@[i as int].0@));
                    ids.push(docs[i].0.clone());
                    assert(texts(ids@) =~= before.push(docs@[i as int].0@));
                    i = i + 1;
                }
                assert(docs@.subrange(0, docs@.len() as int) =~= docs@);
                let sorted = sort_texts(ids);
                let ordered = if q.descending { reversed(sorted) } else { sorted };
                let ghost pred = range_pred(*q);
                let mut out: Vec<String> = Vec::new();
                let mut j: usize = 0;
                while j < ordered.len()
                    invariant
                        j <= ordered.len(),
                        texts(ordered@) == ordered_ids(docs@, q.descending),
                        pred == range_pred(*q),
                        texts(out@) == texts(ordered@).subrange(0, j as int).filter(pred),
                    decreases ordered.len() - j,
                {
                    let ghost prefix = texts(ordered@).subrange(0, j + 1);
                    assert(prefix.drop_last() =~= texts(ordered@).subrange(0, j as int));
                    assert(prefix.last() == ordered@[j as int]@);
                    let ghost before = texts(out@);
                    let inside = key_in_range(&ordered[j], q);
                    assert(inside == pred(ordered@[j as int]@));
                    if inside {
                        out.push(ordered[j].clone());
                        assert(texts(out@) =~= before.push(ordered@[j as int]@));
                    }
                    assert(prefix.filter(pred) == if pred(prefix.last()) { prefix.drop_last().filter(pred).push(prefix.last()) } else { prefix.drop_last().filter(pred) }) by {
                        reveal(Seq::filter);
                    }
                    j = j + 1;
                }
                assert(texts(ordered@).subrange(0, ordered@.len() as int) =~= texts(ordered@));
                out
            },
        },
    }
}

/// Finds the tree stored under `id`, searching from the last record.
fn find_tree<'a>(docs: &'a Vec<(String, Vec<RevPath>)>, id: &String) -> (res: Option<&'a Vec<RevPath>>)
    ensures
        match res {
            Some(t) => lookup_tree(docs@, id@) == Some(t@),
            None => lookup_tree(docs@, id@) is None,
        },
        docs_fit(docs@) ==> (res matches Some(t) ==> tree_fits(t@)),
{
    let mut i: usize = docs.len();
    assert(docs@.subrange(0, docs@.len() as int) =~= docs@);
    while i > 0
        invariant
            i <= docs.len(),
            lookup_tree(docs@, id@) == lookup_tree(docs@.subrange(0, i as int), id@),
        decreases i,
    {
        let ghost sub = docs@.subrange(0, i as int);
        assert(sub.drop_last() =~= docs@.subrange(0, i - 1));
        if docs[i - 1].0 == *id {
            return Some(&docs[i - 1].1);
        }
        i = i - 1;
    }
    None
}

/// The texts of the conflicts of a tree.
fn conflict_texts(tree: &Vec<RevPath>) -> (res: Vec<String>)
    requires
        tree_fits(tree@),
    ensures
        texts(res@) == rev_texts(tree_conflicts(tree@)),
{
    let cs = collect_conflicts(tree);
    let mut out: Vec<String> = Vec::new();
    let mut i: usize = 0;
    while i < cs.len()
        invariant
            i <= cs.len(),
            crate::tree::rev_views(cs@) == tree_conflicts(tree@),
            out@.len() == i,
            forall|j: int| 0 <= j < i ==> #[trigger] out@[j]@ == rev_text(cs@[j].0, cs@[j].1@),
        decreases cs.len() - i,
    {
        out.push(rev_string(cs[i].0, cs[i].1.as_str()));
        i = i + 1;
    }
    assert(texts(out@) =~= rev_texts(tree_conflicts(tree@))) by {
        assert(tree_conflicts(tree@).len() == cs@.len());
        assert forall|j: int| 0 <= j < cs@.len() implies texts(out@)[j] == rev_texts(tree_conflicts(tree@))[j] by {
            assert(tree_conflicts(tree@)[j] == (cs@[j].0, cs@[j].1@));
        }
    }
    out
}

/// Plans the answer of an all-documents query over the stored documents:
/// the rows of the walked keys, the number of rows before paging, and the
/// rows after skipping and limiting.
pub fn select_all_docs(docs: &Vec<(String, Vec<RevPath>)>, q: &AllDocsQuery) -> (res: AllDocsPlan)
    requires
        docs_fit(docs@),
    ensures
        res.total_rows == rows_for(candidate_keys(docs@, *q), docs@, *q).len(),
        res.offset == q.skip,
        res.rows@.map_values(|r: AllDocsRowPlan| row_view(r))
            == page(rows_for(candidate_keys(docs@, *q), docs@, *q), q.skip, q.limit),
{
    let keys = all_docs_keys(docs, q);
    let ghost ks = candidate_keys(docs@, *q);
    let mut rows: Vec<AllDocsRowPlan> = Vec::new();
    let mut i: usize = 0;
    while i < keys.len()
        invariant
            i <= keys.len(),
            texts(keys@) == ks,
            ks == candidate_keys(docs@, *q),
            docs_fit(docs@),
            rows@.map_values(|r: AllDocsRowPlan| row_view(r)) == rows_for(ks.subrange(0, i as int), docs@, *q),
        decreases keys.len() - i,
    {
        let ghost sub = ks.subrange(0, i + 1);
        assert(sub.drop_last() =~= ks.subrange(0, i as int));
        assert(sub.last() == keys@[i as int]@);
        let k = &keys[i];
        match find_tree(docs, k) {
            Some(t) => match winning_rev(t) {
                Some(w) => {
                    let deleted = is_deleted(t);
                    if !(deleted && q.keys.is_none()) {
                        let load_body = q.include_docs && !deleted;
                        let conflicts = if q.include_docs && q.conflicts && !deleted {
                            conflict_texts(t)
                        } else {
                            Vec::new()
                        };
                        let row = AllDocsRowPlan {
                            id: k.clone(),
                            rev: rev_string(w.0, w.1.as_str()),
                            deleted,
                            load_body,
                            conflicts,
                        };
                        proof {
                            if !(q.include_docs && q.conflicts && !deleted) {
                                assert(texts(row.conflicts@) =~= seq![]);
                            }
                        }
                        rows.push(row);
                    }
                },
                None => {},
            },
            None => {},
        }
        i = i + 1;
        assert(rows@.map_values(|r: AllDocsRowPlan| row_view(r)) =~= rows_for(ks.subrange(0, i as int), docs@, *q));
    }
    assert(ks.subrange(0, keys@.len() as int) =~= ks);
    let ghost all = rows@;
    let total_rows = rows.len() as u64;
    let paged = page_vec(rows, q.skip, q.limit);
    proof {
        let views = all.map_values(|r: AllDocsRowPlan| row_view(r));
        let after = if q.skip >= all.len() { Seq::<AllDocsRowPlan>::empty() } else { all.subrange(q.skip as int, all.len() as int) };
        let vafter = if q.skip >= views.len() { Seq::<RowView>::empty() } else { views.subrange(q.skip as int, views.len() as int) };
        assert(after.map_values(|r: AllDocsRowPlan| row_view(r)) =~= vafter);
        match q.limit {
            Some(l) => {
                if l < after.len() {
                    assert(after.subrange(0, l as int).map_values(|r: AllDocsRowPlan| row_view(r)) =~= vafter.subrange(0, l as int));
                }
            },
            None => {},
        }
    }
    AllDocsPlan { total_rows, offset: q.skip, rows: paged }
}

/// Skips `skip` elements and keeps at most `limit` of the rest.
pub fn page_vec<T>(v: Vec<T>, skip: u64, limit: Option<u64>) -> (res: Vec<T>)
    ensures
        res@ == page(v@, skip, limit),
{
    let mut v = v;
    let mut after: Vec<T> = if skip < v.len() as u64 {
        v.split_off(skip as usize)
    } else {
        Vec::new()
    };
    match limit {
        Some(l) => {
            if l < after.len() as u64 {
                after.truncate(l as usize);
            }
        },
        None => {},
    }
    after
}

/// The view of a change entry: sequence, document id, deleted.
pub type ChangeView = (u64, Seq<char>, bool);

/// The views of change entries.
pub open spec fn change_views(v: Seq<StoredChange>) -> Seq<ChangeView> {
    v.map_values(|c: StoredChange| (c.seq, c.doc_id@, c.deleted))
}

/// The options of a changes query.
pub struct ChangesQuery {
    pub since: u64,
    pub descending: bool,
    pub doc_ids: Option<Vec<String>>,
    pub limit: Option<u64>,
}

/// Whether change entries are in ascending order of sequence.
pub open spec fn seq_sorted(s: Seq<ChangeView>) -> bool {
    forall|i: int, j: int| 0 <= i < j < s.len() ==> (#[trigger] s[i]).0 <= (#[trigger] s[j]).0
}

/// The entries newer than `since`, in their order.
pub open spec fn newer_than(s: Seq<ChangeView>, since: u64) -> Seq<ChangeView>
    decreases s.len(),
{
    if s.len() == 0 {
        seq![]
    } else if s.last().0 > since {
        newer_than(s.drop_last(), since).push(s.last())
    } else {
        newer_than(s.drop_last(), since)
    }
}

/// The entries of the given documents (all where none are given), at most
/// `limit` of them, in their order.
pub open spec fn of_docs_limited(s: Seq<ChangeView>, doc_ids: Option<Seq<Seq<char>>>, limit: Option<u64>) -> Seq<ChangeView> {
    let kept = match doc_ids {
        Some(ids) => s.filter(|c: ChangeView| ids.contains(c.1)),
        None => s,
    };
    match limit {
        Some(l) => if l < kept.len() { kept.subrange(0, l as int) } else { kept },
        None => kept,
    }
}

/// The answer of a changes query over the stored entries `all`, given their
/// arrangement `sorted` in ascending order of sequence.
pub open spec fn changes_answer(sorted: Seq<ChangeView>, q: ChangesQuery) -> Seq<ChangeView> {
    let ordered = if q.descending { sorted.reverse() } else { sorted };
    of_docs_limited(ordered, query_ids(q), q.limit)
}

/// The document ids a changes query is restricted to, if any.
pub open spec fn query_ids(q: ChangesQuery) -> Option<Seq<Seq<char>>> {
    match q.doc_ids {
        Some(v) => Some(texts(v@)),
        None => None,
    }
}

fn copy_change(c: &StoredChange) -> (res: StoredChange)
    ensures
        res.seq == c.seq,
        res.doc_id@ == c.doc_id@,
        res.deleted == c.deleted,
{
    StoredChange { seq: c.seq, doc_id: c.doc_id.clone(), deleted: c.deleted }
}

fn contains_text(v: &Vec<String>, t: &String) -> (res: bool)
    ensures
        res == texts(v@).contains(t@),
{
    let mut i: usize = 0;
    while i < v.len()
        invariant
            i <= v.len(),
            forall|j: int| 0 <= j < i ==> v@[j]@ != t@,
        decreases v.len() - i,
    {
        if v[i] == *t {
            assert(texts(v@)[i as int] == t@);
            return true;
        }
        i = i + 1;
    }
    proof {
        if texts(v@).contains(t@) {
            let k = choose|k: int| 0 <= k < texts(v@).len() && texts(v@)[k] == t@;
            assert(v@[k]@ == t@);
        }
    }
    false
}

/// Selects the entries of a changes query: those newer than `since`, in
/// ascending order of sequence (descending where asked), of the given
/// documents only, at most `limit` of them.
pub fn select_changes(changes: &Vec<StoredChange>, q: &ChangesQuery) -> (res: Vec<StoredChange>)
    ensures
        exists|sorted: Seq<ChangeView>| {
            &&& #[trigger] sorted.to_multiset() == newer_than(change_views(changes@), q.since).to_multiset()
            &&& seq_sorted(sorted)
            &&& change_views(res@) == changes_answer(sorted, *q)
        },
{
    broadcast use {vstd::multiset::group_multiset_axioms, vstd::seq_lib::group_to_multiset_ensures};
    let mut sorted: Vec<StoredChange> = Vec::new();
    let mut i: usize = 0;
    while i < changes.len()
        invariant
            i <= changes.len(),
            change_views(sorted@).to_multiset() == newer_than(change_views(changes@.subrange(0, i as int)), q.since).to_multiset(),
            seq_sorted(change_views(sorted@)),
        decreases changes.len() - i,
    {
        let ghost cur = change_views(changes@.subrange(0, i + 1));
        assert(cur.drop_last() =~= change_views(changes@.subrange(0, i as int)));
        assert(cur.last() == (changes@[i as int].seq, changes@[i as int].doc_id@, changes@[i as int].deleted));
        if changes[i].seq > q.since {
            let c = copy_change(&changes[i]);
            let mut k: usize = 0;
            while k < sorted.len() && sorted[k].seq <= c.seq
                invariant
                    k <= sorted.len(),
                    forall|j: int| 0 <= j < k ==> #[trigger] sorted@[j].seq <= c.seq,
                decreases sorted.len() - k,
            {
                k = k + 1;
            }
            let ghost before = change_views(sorted@);
            let ghost cv = (c.seq, c.doc_id@, c.deleted);
            sorted.insert(k, c);
            proof {
                let after = change_views(sorted@);
                assert(after =~= before.insert(k as int, cv));
                vstd::seq_lib::to_multiset_insert(before, k as int, cv);
                assert forall|a: int, b: int| 0 <= a < b < after.len() implies (#[trigger] after[a]).0 <= (#[trigger] after[b]).0 by {
                    if a < k && b == k {
                        assert(after[a] == before[a]);
                    } else if a < k && b > k {
                        assert(after[a] == before[a]);
                        assert(after[b] == before[b - 1]);
                    } else if a == k && b > k {
                        assert(after[b] == before[b - 1]);
                        if k < before.len() {
                            assert(before[k as int].0 > cv.0);
                            if b - 1 > k {
                                assert(before[k as int].0 <= before[b - 1].0);
                            }
                        }
                    } else if a > k {
                        assert(after[a] == before[a - 1]);
                        assert(after[b] == before[b - 1]);
                    } else {
                        assert(after[a] == before[a]);
                        assert(after[b] == before[b]);
                    }
                }
                assert(newer_than(cur, q.since) == newer_than(cur.drop_last(), q.since).push(cur.last()));
                vstd::seq_lib::to_multiset_build(newer_than(cur.drop_last(), q.since), cur.last());
            }
        } else {
            assert(newer_than(cur, q.since) == newer_than(cur.drop_last(), q.since));
        }
        i = i + 1;
    }
    assert(changes@.subrange(0, changes@.len() as int) =~= changes@);
    let ghost sorted_view = change_views(sorted@);
    let ordered: Vec<StoredChange> = if q.descending {
        let mut out: Vec<StoredChange> = Vec::new();
        let mut j: usize = sorted.len();
        while j > 0
            invariant
                j <= sorted.len(),
                change_views(out@) == sorted_view.subrange(j as int, sorted_view.len() as int).reverse(),
                sorted_view == change_views(sorted@),
            decreases j,
        {
            j = j - 1;
            let ghost prev = change_views(out@);
            out.push(copy_change(&sorted[j]));
            assert(change_views(out@) =~= prev.push(sorted_view[j as int]));
            assert(change_views(out@) =~= sorted_view.subrange(j as int, sorted_view.len() as int).reverse());
        }
        assert(sorted_view.subrange(0, sorted_view.len() as int) =~= sorted_view);
        out
    } else {
        sorted
    };
    let ghost ordered_view = change_views(ordered@);
    let ghost ids = query_ids(*q);
    let ghost pred = |c: ChangeView| ids.unwrap().contains(c.1);
    let mut kept: Vec<StoredChange> = Vec::new();
    let mut j: usize = 0;
    while j < ordered.len()
        invariant
            j <= ordered.len(),
            ordered_view == change_views(ordered@),
            ids == query_ids(*q),
            pred == (|c: ChangeView| ids.unwrap().contains(c.1)),
            change_views(kept@) == (match ids {
                Some(xs) => ordered_view.subrange(0, j as int).filter(|c: ChangeView| xs.contains(c.1)),
                None => ordered_view.subrange(0, j as int),
            }),
        decreases ordered.len() - j,
    {
        let ghost prefix = ordered_view.subrange(0, j + 1);
        assert(prefix.drop_last() =~= ordered_view.subrange(0, j as int));
        let ghost before = change_views(kept@);
        let keep = match &q.doc_ids {
            Some(v) => contains_text(v, &ordered[j].doc_id),
            None => true,
        };
        if keep {
            kept.push(copy_change(&ordered[j]));
            assert(change_views(kept@) =~= before.push(ordered_view[j as int]));
        }
        proof {
            match ids {
                Some(xs) => {
                    assert(prefix.filter(|c: ChangeView| xs.contains(c.1)) == if xs.contains(prefix.last().1) {
                        prefix.drop_last().filter(|c: ChangeView| xs.contains(c.1)).push(prefix.last())
                    } else {
                        prefix.drop_last().filter(|c: ChangeView| xs.contains(c.1))
                    }) by {
                        reveal(Seq::filter);
                    }
                },
                None => {},
            }
        }
        j = j + 1;
    }
    assert(ordered_view.subrange(0, ordered_view.len() as int) =~= ordered_view);
    let res = page_vec(kept, 0, q.limit);
    proof {
        let kv = change_views(res@);
        assert(sorted_view.to_multiset() == newer_than(change_views(changes@), q.since).to_multiset());
        assert(seq_sorted(sorted_view));
        assert(change_views(res@) =~= changes_answer(sorted_view, *q));
    }
    res
}

/// The text of the winning revision of an optional tree, or the empty text.
pub open spec fn winner_text(tree: Option<Seq<RevPath>>) -> Seq<char> {
    match tree {
        Some(t) => match tree_winner(t) {
            Some(w) => rev_text(w.0, w.1),
            None => seq![],
        },
        None => seq![],
    }
}

/// The texts of the leaves of a tree, in sorting order.
pub open spec fn leaf_texts(t: Seq<RevPath>) -> Seq<Seq<char>> {
    sorted_leaves(t).map_values(|l: (u64, Seq<char>, bool)| rev_text(l.0, l.1))
}

/// The view of an optional tree.
pub open spec fn opt_tree(tree: Option<&Vec<RevPath>>) -> Option<Seq<RevPath>> {
    match tree {
        Some(t) => Some(t@),
        None => None,
    }
}

/// The texts of the leaves of a tree.
fn leaf_rev_texts(tree: &Vec<RevPath>) -> (res: Vec<String>)
    requires
        tree_fits(tree@),
    ensures
        texts(res@) == leaf_texts(tree@),
{
    let leaves = collect_leaves(tree);
    let mut out: Vec<String> = Vec::new();
    let mut i: usize = 0;
    while i < leaves.len()
        invariant
            i <= leaves.len(),
            leaf_views(leaves@) == sorted_leaves(tree@),
            out@.len() == i,
            forall|j: int| 0 <= j < i ==> #[trigger] out@[j]@ == rev_text(leaves@[j].0, leaves@[j].1@),
        decreases leaves.len() - i,
    {
        out.push(rev_string(leaves[i].0, leaves[i].1.as_str()));
        i = i + 1;
    }
    assert(texts(out@) =~= leaf_texts(tree@)) by {
        assert forall|j: int| 0 <= j < out@.len() implies texts(out@)[j] == leaf_texts(tree@)[j] by {
            assert(sorted_leaves(tree@)[j] == (leaves@[j].0, leaves@[j].1@, leaves@[j].2));
        }
    }
    out
}

/// The revision that a change event reports, and the revisions it lists:
/// every leaf where all leaves are asked for and the tree is known, else the
/// winner alone.
pub fn change_revs(tree: Option<&Vec<RevPath>>, all_leaves: bool) -> (res: (String, Vec<String>))
    requires
        opt_fits(tree),
    ensures
        res.0@ == winner_text(opt_tree(tree)),
        texts(res.1@) == (match tree {
            Some(t) => if all_leaves { leaf_texts(t@) } else { seq![winner_text(opt_tree(tree))] },
            None => seq![winner_text(opt_tree(tree))],
        }),
{
    let rev_str = match tree {
        Some(t) => match winning_rev(t) {
            Some(w) => rev_string(w.0, w.1.as_str()),
            None => String::new(),
        },
        None => String::new(),
    };
    let list = match tree {
        Some(t) => if all_leaves {
            leaf_rev_texts(t)
        } else {
            let mut one: Vec<String> = Vec::new();
            one.push(rev_str.clone());
            assert(texts(one@) =~= seq![rev_str@]);
            one
        },
        None => {
            let mut one: Vec<String> = Vec::new();
            one.push(rev_str.clone());
            assert(texts(one@) =~= seq![rev_str@]);
            one
        },
    };
    (rev_str, list)
}

/// Whether the revision text `r` names a revision of the optional tree.
pub open spec fn rev_known(tree: Option<Seq<RevPath>>, r: Seq<char>) -> bool {
    match (tree, parse_rev_spec(r)) {
        (Some(t), Some(p)) => tree_revisions(t).contains(p),
        _ => false,
    }
}

/// The missing revisions among `revs`, in order.
pub open spec fn missing_revs(tree: Option<Seq<RevPath>>, revs: Seq<Seq<char>>) -> Seq<Seq<char>>
    decreases revs.len(),
{
    if revs.len() == 0 {
        seq![]
    } else if rev_known(tree, revs.last()) {
        missing_revs(tree, revs.drop_last())
    } else {
        missing_revs(tree, revs.drop_last()).push(revs.last())
    }
}

/// The leaves of `t` of a generation below `pos`, as texts, in sorting
/// order.
pub open spec fn leaves_below(t: Seq<RevPath>, pos: u64) -> Seq<Seq<char>> {
    sorted_leaves(t).filter(|l: (u64, Seq<char>, bool)| l.0 < pos).map_values(|l: (u64, Seq<char>, bool)| rev_text(l.0, l.1))
}

/// The possible ancestors listed for the missing revisions among `revs`:
/// for each, the leaves of a lower generation (repeated per missing
/// revision).
pub open spec fn possible_ancestors(tree: Option<Seq<RevPath>>, revs: Seq<Seq<char>>) -> Seq<Seq<char>>
    decreases revs.len(),
{
    if revs.len() == 0 {
        seq![]
    } else {
        let prev = possible_ancestors(tree, revs.drop_last());
        let r = revs.last();
        if rev_known(tree, r) {
            prev
        } else {
            match (tree, parse_rev_spec(r)) {
                (Some(t), Some(p)) => prev + leaves_below(t, p.0),
                _ => prev,
            }
        }
    }
}

/// Whether every revision text in `revs` parses.
pub open spec fn all_parse(revs: Seq<Seq<char>>) -> bool {
    forall|i: int| 0 <= i < revs.len() ==> (#[trigger] parse_rev_spec(revs[i])) is Some
}

/// The revision difference for one document: the revisions it is asked
/// about that its tree does not hold, and for each the leaves of a lower
/// generation as possible ancestors; nothing where none is missing. A
/// revision text that does not parse fails the whole request.
pub fn revs_diff_one(tree: Option<&Vec<RevPath>>, revs: &Vec<String>) -> (res: Result<Option<(Vec<String>, Vec<String>)>, AdapterError>)
    requires
        opt_fits(tree),
    ensures
        all_parse(texts(revs@)) ==> match res {
            Ok(None) => missing_revs(opt_tree(tree), texts(revs@)).len() == 0,
            Ok(Some((m, a))) => {
                &&& texts(m@) == missing_revs(opt_tree(tree), texts(revs@))
                &&& texts(m@).len() > 0
                &&& texts(a@) == possible_ancestors(opt_tree(tree), texts(revs@))
            },
            Err(_) => false,
        },
        !all_parse(texts(revs@)) ==> (res matches Err(AdapterError::InvalidRev(t)) && exists|i: int|
            0 <= i < revs@.len() && #[trigger] revs@[i]@ == t@ && parse_rev_spec(t@) is None
            && all_parse(texts(revs@).subrange(0, i))),
{
    let mut missing: Vec<String> = Vec::new();
    let mut ancestors: Vec<String> = Vec::new();
    let mut i: usize = 0;
    while i < revs.len()
        invariant
            i <= revs.len(),
            opt_fits(tree),
            all_parse(texts(revs@).subrange(0, i as int)),
            texts(missing@) == missing_revs(opt_tree(tree), texts(revs@).subrange(0, i as int)),
            texts(ancestors@) == possible_ancestors(opt_tree(tree), texts(revs@).subrange(0, i as int)),
        decreases revs.len() - i,
    {
        let ghost pre = texts(revs@).subrange(0, i as int);
        let ghost cur = texts(revs@).subrange(0, i + 1);
        assert(cur.drop_last() =~= pre);
        assert(cur.last() == revs@[i as int]@);
        let (pos, hash) = match parse_rev(revs[i].as_str()) {
            Ok(p) => p,
            Err(e) => {
                proof {
                    assert(!all_parse(texts(revs@)) ) by {
                        assert(texts(revs@)[i as int] == revs@[i as int]@);
                    }
                }
                return Err(e);
            },
        };
        let known = match tree {
            Some(t) => rev_exists(t, pos, hash.as_str()),
            None => false,
        };
        if !known {
            let ghost before_m = texts(missing@);
            missing.push(revs[i].clone());
            assert(texts(missing@) =~= before_m.push(revs@[i as int]@));
            match tree {
                Some(t) => {
                    let leaves = collect_leaves(t);
                    let ghost before_a = texts(ancestors@);
                    let ghost below = sorted_leaves(t@).filter(|l: (u64, Seq<char>, bool)| l.0 < pos);
                    let mut k: usize = 0;
                    while k < leaves.len()
                        invariant
                            k <= leaves.len(),
                            leaf_views(leaves@) == sorted_leaves(t@),
                            texts(ancestors@) == before_a + sorted_leaves(t@).subrange(0, k as int)
                                .filter(|l: (u64, Seq<char>, bool)| l.0 < pos)
                                .map_values(|l: (u64, Seq<char>, bool)| rev_text(l.0, l.1)),
                        decreases leaves.len() - k,
                    {
                        let ghost sub = sorted_leaves(t@).subrange(0, k + 1);
                        assert(sub.drop_last() =~= sorted_leaves(t@).subrange(0, k as int));
                        assert(sub.last() == (leaves@[k as int].0, leaves@[k as int].1@, leaves@[k as int].2));
                        assert(sub.filter(|l: (u64, Seq<char>, bool)| l.0 < pos) == if sub.last().0 < pos {
                            sub.drop_last().filter(|l: (u64, Seq<char>, bool)| l.0 < pos).push(sub.last())
                        } else {
                            sub.drop_last().filter(|l: (u64, Seq<char>, bool)| l.0 < pos)
                        }) by {
                            reveal(Seq::filter);
                        }
                        let ghost prev_a = texts(ancestors@);
                        if leaves[k].0 < pos {
                            ancestors.push(rev_string(leaves[k].0, leaves[k].1.as_str()));
                            assert(texts(ancestors@) =~= prev_a.push(rev_text(leaves@[k as int].0, leaves@[k as int].1@)));
                        }
                        k = k + 1;
                        assert(texts(ancestors@) =~= before_a + sorted_leaves(t@).subrange(0, k as int)
                            .filter(|l: (u64, Seq<char>, bool)| l.0 < pos)
                            .map_values(|l: (u64, Seq<char>, bool)| rev_text(l.0, l.1)));
                    }
                    assert(sorted_leaves(t@).subrange(0, leaves@.len() as int) =~= sorted_leaves(t@));
                },
                None => {},
            }
        }
        i = i + 1;
        assert(all_parse(texts(revs@).subrange(0, i as int))) by {
            assert forall|j: int| 0 <= j < cur.len() implies (#[trigger] parse_rev_spec(cur[j])) is Some by {
                if j < pre.len() {
                    assert(cur[j] == pre[j]);
                }
            }
        }
    }
    assert(texts(revs@).subrange(0, revs@.len() as int) =~= texts(revs@));
    if missing.len() == 0 {
        Ok(None)
    } else {
        Ok(Some((missing, ancestors)))
    }
}

/// Chooses the revision that a get reads: the requested one, or the winner
/// where none is requested; with `latest`, a requested revision that is not
/// a leaf gives way to the first leaf in sorting order.
pub fn select_get_rev(id: &str, tree: &Vec<RevPath>, requested: Option<&str>, latest: bool) -> (res: Result<String, AdapterError>)
    requires
        tree_fits(tree@),
    ensures
        requested is None ==> match tree_winner(tree@) {
            Some(w) => res matches Ok(r) && r@ == rev_text(w.0, w.1),
            None => res matches Err(AdapterError::NotFound(t)) && t@ == id@,
        },
        requested matches Some(q) ==> res matches Ok(r) && r@ == (
            if latest && !leaf_texts(tree@).contains(q@) && leaf_texts(tree@).len() > 0 {
                leaf_texts(tree@)[0]
            } else {
                q@
            }),
{
    match requested {
        None => match winning_rev(tree) {
            Some(w) => Ok(rev_string(w.0, w.1.as_str())),
            None => Err(AdapterError::NotFound(id.to_owned())),
        },
        Some(q) => {
            let target = q.to_owned();
            if latest {
                let leaves = leaf_rev_texts(tree);
                if !contains_text(&leaves, &target) && leaves.len() > 0 {
                    return Ok(leaves[0].clone());
                }
            }
            Ok(target)
        },
    }
}

/// Settles what a get returns once the body of `target` has been looked up
/// (`stored` is its deletion flag where the body was found): a deletion read
/// without a requested revision is not found; otherwise the revision is
/// parsed into generation and hash.
pub fn resolve_get(id: &str, requested: bool, target: &str, stored: Option<bool>) -> (res: Result<(u64, String, bool), AdapterError>)
    ensures
        ({
            let deleted = match stored { Some(d) => d, None => false };
            if deleted && !requested {
                res matches Err(AdapterError::NotFound(t)) && t@ == id@
            } else {
                match parse_rev_spec(target@) {
                    Some(p) => res matches Ok((pos, hash, d)) && pos == p.0 && hash@ == p.1 && d == deleted,
                    None => res matches Err(AdapterError::InvalidRev(t)) && t@ == target@,
                }
            }
        }),
{
    let deleted = match stored {
        Some(d) => d,
        None => false,
    };
    if deleted && !requested {
        return Err(AdapterError::NotFound(id.to_owned()));
    }
    match parse_rev(target) {
        Ok((pos, hash)) => Ok((pos, hash, deleted)),
        Err(e) => Err(e),
    }
}

/// The texts of the conflicts of a tree, for the `_conflicts` field.
pub fn conflicts_of(tree: &Vec<RevPath>) -> (res: Vec<String>)
    requires
        tree_fits(tree@),
    ensures
        texts(res@) == rev_texts(tree_conflicts(tree@)),
{
    conflict_texts(tree)
}

/// The error entry of a bulk get for a document or revision not found.
pub struct BulkGetError {
    pub id: String,
    pub rev: String,
    pub error: String,
    pub reason: String,
}

/// The error entry for `id` at `rev`: `not_found`, `missing`.
pub fn bulk_get_missing(id: &str, rev: &str) -> (res: BulkGetError)
    ensures
        res.id@ == id@,
        res.rev@ == rev@,
        res.error@ == "not_found"@,
        res.reason@ == "missing"@,
{
    BulkGetError { id: id.to_owned(), rev: rev.to_owned(), error: "not_found".to_owned(), reason: "missing".to_owned() }
}

/// The revision a bulk get reads for an item: none where the document does
/// not exist; the requested one; or the winner.
pub fn bulk_get_rev(item_rev: Option<&str>, tree: Option<&Vec<RevPath>>) -> (res: Option<String>)
    requires
        opt_fits(tree),
    ensures
        match tree {
            None => res is None,
            Some(t) => match item_rev {
                Some(r) => res matches Some(x) && x@ == r@,
                None => match tree_winner(t@) {
                    Some(w) => res matches Some(x) && x@ == rev_text(w.0, w.1),
                    None => res is None,
                },
            },
        },
{
    match tree {
        None => None,
        Some(t) => match item_rev {
            Some(r) => Some(r.to_owned()),
            None => match winning_rev(t) {
                Some(w) => Some(rev_string(w.0, w.1.as_str())),
                None => None,
            },
        },
    }
}

/// The `_revisions` field of a bulk-get document: the generation of `rev`
/// and its ancestry (newest first, one generation per step), where `rev`
/// parses and is in the tree.
pub fn revisions_field(tree: &Vec<RevPath>, rev_str: &str) -> (res: Option<(u64, Vec<String>)>)
    requires
        tree_fits(tree@),
    ensures
        res is Some <==> (parse_rev_spec(rev_str@) matches Some(p) && tree_revisions(tree@).contains(p)),
        res matches Some((pos, ids)) ==> (parse_rev_spec(rev_str@) matches Some(p) && pos == p.0
            && ids@.len() >= 1 && ids@[0]@ == p.1),
        res matches Some((pos, ids)) ==> chain_in_tree(tree@, pos, ids@),
        res matches Some((pos, ids)) ==> (parse_rev_spec(rev_str@) matches Some(p)
            && Some(texts(ids@)) == rev_ancestry(tree@, p.0, p.1)),
{
    match parse_rev(rev_str) {
        Ok((pos, hash)) => match find_rev_ancestry(tree, pos, hash.as_str()) {
            Some(ids) => {
                assert(opt_chain_view(Some(ids)) == Some(texts(ids@)));
                Some((pos, ids))
            },
            None => None,
        },
        Err(_) => None,
    }
}

/// Whether compaction keeps the body `r`: it is a leaf of its document's
/// tree.
pub open spec fn body_kept(docs: Seq<(String, Vec<RevPath>)>, r: StoredRev) -> bool {
    match lookup_tree(docs, r.doc_id@) {
        Some(t) => leaf_texts(t).contains(r.rev@),
        None => false,
    }
}

/// The keys of the bodies that compaction removes, in order.
pub open spec fn compaction_keys(docs: Seq<(String, Vec<RevPath>)>, revs: Seq<StoredRev>) -> Seq<Seq<char>>
    decreases revs.len(),
{
    if revs.len() == 0 {
        seq![]
    } else if body_kept(docs, revs.last()) {
        compaction_keys(docs, revs.drop_last())
    } else {
        compaction_keys(docs, revs.drop_last()).push(revs.last().key@)
    }
}

/// The keys of the stored bodies that are not leaves of their document's
/// tree (including bodies of documents that are not stored).
pub fn non_leaf_keys(docs: &Vec<(String, Vec<RevPath>)>, revs: &Vec<StoredRev>) -> (res: Vec<String>)
    requires
        docs_fit(docs@),
    ensures
        texts(res@) == compaction_keys(docs@, revs@),
{
    let mut out: Vec<String> = Vec::new();
    let mut i: usize = 0;
    while i < revs.len()
        invariant
            i <= revs.len(),
            docs_fit(docs@),
            texts(out@) == compaction_keys(docs@, revs@.subrange(0, i as int)),
        decreases revs.len() - i,
    {
        let ghost sub = revs@.subrange(0, i + 1);
        assert(sub.drop_last() =~= revs@.subrange(0, i as int));
        let r = &revs[i];
        let kept = match find_tree(docs, &r.doc_id) {
            Some(t) => {
                let leaves = leaf_rev_texts(t);
                contains_text(&leaves, &r.rev)
            },
            None => false,
        };
        if !kept {
            let ghost before = texts(out@);
            out.push(r.key.clone());
            assert(texts(out@) =~= before.push(r.key@));
        }
        i = i + 1;
    }
    assert(revs@.subrange(0, revs@.len() as int) =~= revs@);
    out
}

/// Compaction removes exactly the bodies that are not leaves: a leaf's body
/// is never removed, and every other body is, where each body has its own
/// key.
pub proof fn lemma_compaction_keeps_leaves(docs: Seq<(String, Vec<RevPath>)>, revs: Seq<StoredRev>, i: int)
    requires
        0 <= i < revs.len(),
        forall|a: int, b: int| 0 <= a < b < revs.len() ==> (#[trigger] revs[a]).key@ != (#[trigger] revs[b]).key@,
    ensures
        body_kept(docs, revs[i]) ==> !compaction_keys(docs, revs).contains(revs[i].key@),
        !body_kept(docs, revs[i]) ==> compaction_keys(docs, revs).contains(revs[i].key@),
    decreases revs.len(),
{
    let last = revs.len() - 1;
    let init = revs.drop_last();
    if i < last {
        assert forall|a: int, b: int| 0 <= a < b < init.len() implies (#[trigger] init[a]).key@ != (#[trigger] init[b]).key@ by {
            assert(init[a] == revs[a]);
            assert(init[b] == revs[b]);
        }
        lemma_compaction_keeps_leaves(docs, init, i);
        assert(init[i] == revs[i]);
        assert(revs[i].key@ != revs[last].key@);
        if !body_kept(docs, revs.last()) {
            let prev = compaction_keys(docs, init);
            if body_kept(docs, revs[i]) {
                assert(!prev.push(revs.last().key@).contains(revs[i].key@)) by {
                    if prev.push(revs.last().key@).contains(revs[i].key@) {
                        let k = choose|k: int| 0 <= k < prev.len() + 1 && prev.push(revs.last().key@)[k] == revs[i].key@;
                        if k < prev.len() {
                            assert(prev[k] == revs[i].key@);
                        }
                    }
                }
            } else {
                let k = choose|k: int| 0 <= k < prev.len() && prev[k] == revs[i].key@;
                assert(prev.push(revs.last().key@)[k] == revs[i].key@);
            }
        }
    } else {
        lemma_compaction_keys_from(docs, init, revs[i].key@);
        let prev = compaction_keys(docs, init);
        if !body_kept(docs, revs[i]) {
            assert(prev.push(revs[i].key@)[prev.len() as int] == revs[i].key@);
        } else {
            assert(!prev.contains(revs[i].key@));
        }
    }
}

/// A key that no body of `revs` has is not among the keys compaction
/// removes.
proof fn lemma_compaction_keys_from(docs: Seq<(String, Vec<RevPath>)>, revs: Seq<StoredRev>, k: Seq<char>)
    requires
        forall|a: int| 0 <= a < revs.len() ==> (#[trigger] revs[a]).key@ != k,
    ensures
        !compaction_keys(docs, revs).contains(k),
    decreases revs.len(),
{
    if revs.len() > 0 {
        let init = revs.drop_last();
        assert forall|a: int| 0 <= a < init.len() implies (#[trigger] init[a]).key@ != k by {
            assert(init[a] == revs[a]);
        }
        lemma_compaction_keys_from(docs, init, k);
        let prev = compaction_keys(docs, init);
        if !body_kept(docs, revs.last()) {
            if prev.push(revs.last().key@).contains(k) {
                let j = choose|j: int| 0 <= j < prev.len() + 1 && prev.push(revs.last().key@)[j] == k;
                if j < prev.len() {
                    assert(prev[j] == k);
                }
            }
        }
    }
}

/// The number of documents whose winning revision is not a deletion.
pub open spec fn live_count(trees: Seq<Vec<RevPath>>) -> nat
    decreases trees.len(),
{
    if trees.len() == 0 {
        0
    } else {
        live_count(trees.drop_last()) + if tree_deleted(trees.last()@) { 0nat } else { 1nat }
    }
}

/// Whether every tree of a sequence fits (`tree_fits`).
pub open spec fn trees_fit(trees: Seq<Vec<RevPath>>) -> bool {
    forall|i: int| 0 <= i < trees.len() ==> #[trigger] tree_fits(trees[i]@)
}

/// Counts the documents whose winning revision is not a deletion.
pub fn count_live_docs(trees: &Vec<Vec<RevPath>>) -> (res: u64)
    requires
        trees_fit(trees@),
    ensures
        res == live_count(trees@),
{
    let mut n: usize = 0;
    let mut i: usize = 0;
    while i < trees.len()
        invariant
            i <= trees.len(),
            n == live_count(trees@.subrange(0, i as int)),
            trees_fit(trees@),
            n <= i,
        decreases trees.len() - i,
    {
        let ghost sub = trees@.subrange(0, i + 1);
        assert(sub.drop_last() =~= trees@.subrange(0, i as int));
        if !is_deleted(&trees[i]) {
            n = n + 1;
        }
        i = i + 1;
    }
    assert(trees@.subrange(0, trees@.len() as int) =~= trees@);
    n as u64
}

/// Checks the revision that an attachment change names against the
/// document's winner: a document that does not exist, or has no winner, is
/// not found; another revision conflicts.
pub fn attachment_target(doc_id: &str, tree: Option<&Vec<RevPath>>, rev: &str) -> (res: Result<(u64, String), AdapterError>)
    requires
        opt_fits(tree),
    ensures
        match opt_tree(tree) {
            None => res matches Err(AdapterError::NotFound(t)) && t@ == doc_id@,
            Some(t) => match tree_winner(t) {
                None => res matches Err(AdapterError::NotFound(x)) && x@ == doc_id@,
                Some(w) => if rev_text(w.0, w.1) != rev@ {
                    res matches Err(AdapterError::Conflict)
                } else {
                    res matches Ok((p, h)) && p == w.0 && h@ == w.1
                },
            },
        },
{
    match tree {
        None => Err(AdapterError::NotFound(doc_id.to_owned())),
        Some(t) => match winning_rev(t) {
            None => Err(AdapterError::NotFound(doc_id.to_owned())),
            Some(w) => {
                let text = rev_string(w.0, w.1.as_str());
                if text != rev.to_owned() {
                    Err(AdapterError::Conflict)
                } else {
                    Ok(w)
                }
            },
        },
    }
}

/// The revision whose body holds an attachment's digest: the requested one,
/// or the winner (not found where the document or its winner is missing).
pub fn attachment_rev(doc_id: &str, requested: Option<&str>, tree: Option<&Vec<RevPath>>) -> (res: Result<String, AdapterError>)
    requires
        opt_fits(tree),
    ensures
        match requested {
            Some(r) => res matches Ok(x) && x@ == r@,
            None => match winner_text_opt(opt_tree(tree)) {
                Some(w) => res matches Ok(x) && x@ == w,
                None => res matches Err(AdapterError::NotFound(t)) && t@ == doc_id@,
            },
        },
{
    match requested {
        Some(r) => Ok(r.to_owned()),
        None => match tree {
            None => Err(AdapterError::NotFound(doc_id.to_owned())),
            Some(t) => match winning_rev(t) {
                Some(w) => Ok(rev_string(w.0, w.1.as_str())),
                None => Err(AdapterError::NotFound(doc_id.to_owned())),
            },
        },
    }
}

/// The text of the winner of an optional tree, where there is one.
pub open spec fn winner_text_opt(tree: Option<Seq<RevPath>>) -> Option<Seq<char>> {
    match tree {
        Some(t) => match tree_winner(t) {
            Some(w) => Some(rev_text(w.0, w.1)),
            None => None,
        },
        None => None,
    }
}

/// Joins texts with a separator between them.
fn joined(a: &str, sep: char, b: &str) -> (res: String)
    ensures
        res@ == a@ + seq![sep] + b@,
{
    let mut cs = chars_of(a);
    cs.push(sep);
    let bs = chars_of(b);
    let mut i: usize = 0;
    while i < bs.len()
        invariant
            i <= bs.len(),
            bs@ == b@,
            cs@ == a@ + seq![sep] + b@.subrange(0, i as int),
        decreases bs.len() - i,
    {
        cs.push(bs[i]);
        i = i + 1;
    }
    assert(b@.subrange(0, b@.len() as int) =~= b@);
    string_of(&cs)
}

/// The error for an attachment that is not found: `{doc_id}/{att_id}`.
pub fn attachment_not_found(doc_id: &str, att_id: &str) -> (res: AdapterError)
    ensures
        res matches AdapterError::NotFound(t) && t@ == doc_id@ + seq!['/'] + att_id@,
{
    AdapterError::NotFound(joined(doc_id, '/', att_id))
}

/// The error for a local document that is not found: `_local/{id}`.
pub fn local_not_found(id: &str) -> (res: AdapterError)
    ensures
        res matches AdapterError::NotFound(t) && t@ == seq!['_', 'l', 'o', 'c', 'a', 'l', '/'] + id@,
{
    let mut cs: Vec<char> = Vec::new();
    cs.push('_');
    cs.push('l');
    cs.push('o');
    cs.push('c');
    cs.push('a');
    cs.push('l');
    let head = string_of(&cs);
    AdapterError::NotFound(joined(head.as_str(), '/', id))
}

/// Without explicit keys, an all-documents answer has no deleted document.
pub proof fn lemma_all_docs_skips_deleted(keys: Seq<Seq<char>>, docs: Seq<(String, Vec<RevPath>)>, q: AllDocsQuery, i: int)
    requires
        q.keys is None,
        0 <= i < rows_for(keys, docs, q).len(),
    ensures
        !rows_for(keys, docs, q)[i].2,
    decreases keys.len(),
{
    if keys.len() > 0 {
        let prev = rows_for(keys.drop_last(), docs, q);
        if i < prev.len() {
            lemma_all_docs_skips_deleted(keys.drop_last(), docs, q, i);
        }
    }
}

/// Every entry that `newer_than` keeps is newer than `since`.
proof fn lemma_newer_than_newer(s: Seq<ChangeView>, since: u64, i: int)
    requires
        0 <= i < newer_than(s, since).len(),
    ensures
        newer_than(s, since)[i].0 > since,
    decreases s.len(),
{
    if s.len() > 0 {
        let prev = newer_than(s.drop_last(), since);
        if i < prev.len() {
            lemma_newer_than_newer(s.drop_last(), since, i);
        }
    }
}

/// Every element that a filter keeps comes from the filtered sequence.
proof fn lemma_filter_from<A>(s: Seq<A>, pred: spec_fn(A) -> bool, i: int)
    requires
        0 <= i < s.filter(pred).len(),
    ensures
        s.contains(s.filter(pred)[i]),
    decreases s.len(),
{
    reveal(Seq::filter);
    if s.len() > 0 {
        let prev = s.drop_last().filter(pred);
        if i < prev.len() {
            lemma_filter_from(s.drop_last(), pred, i);
            let k = choose|k: int| 0 <= k < s.drop_last().len() && s.drop_last()[k] == prev[i];
            assert(s[k] == prev[i]);
        } else {
            assert(s[s.len() - 1] == s.filter(pred)[i]);
        }
    }
}

/// A changes query returns only entries newer than `since`: the answer of
/// every arrangement in sequence order of the entries newer than `since` has
/// only such entries.
pub proof fn lemma_changes_newer_than_since(stored: Seq<ChangeView>, sorted: Seq<ChangeView>, q: ChangesQuery, i: int)
    requires
        sorted.to_multiset() == newer_than(stored, q.since).to_multiset(),
        0 <= i < changes_answer(sorted, q).len(),
    ensures
        changes_answer(sorted, q)[i].0 > q.since,
{
    broadcast use {vstd::multiset::group_multiset_axioms, vstd::seq_lib::group_to_multiset_ensures};
    let ordered = if q.descending { sorted.reverse() } else { sorted };
    let kept = match query_ids(q) {
        Some(ids) => ordered.filter(|c: ChangeView| ids.contains(c.1)),
        None => ordered,
    };
    let x = changes_answer(sorted, q)[i];
    assert(kept.contains(x)) by {
        match q.limit {
            Some(l) => if l < kept.len() {
                assert(kept.subrange(0, l as int)[i] == kept[i]);
            } else {
                assert(kept[i] == x);
            },
            None => {
                assert(kept[i] == x);
            },
        }
    }
    assert(ordered.contains(x)) by {
        match query_ids(q) {
            Some(ids) => {
                let k = choose|k: int| 0 <= k < kept.len() && kept[k] == x;
                lemma_filter_from(ordered, |c: ChangeView| ids.contains(c.1), k);
            },
            None => {},
        }
    }
    assert(sorted.contains(x)) by {
        let k = choose|k: int| 0 <= k < ordered.len() && ordered[k] == x;
        if q.descending {
            assert(sorted[sorted.len() - 1 - k] == x);
        }
    }
    assert(sorted.to_multiset().contains(x));
    assert(newer_than(stored, q.since).contains(x));
    let k = choose|k: int| 0 <= k < newer_than(stored, q.since).len() && newer_than(stored, q.since)[k] == x;
    lemma_newer_than_newer(stored, q.since, k);
}

/// A revision that the tree holds is never reported missing.
pub proof fn lemma_known_revs_not_missing(tree: Option<Seq<RevPath>>, revs: Seq<Seq<char>>, i: int)
    requires
        0 <= i < missing_revs(tree, revs).len(),
    ensures
        !rev_known(tree, missing_revs(tree, revs)[i]),
    decreases revs.len(),
{
    if revs.len() > 0 {
        let prev = missing_revs(tree, revs.drop_last());
        if i < prev.len() {
            lemma_known_revs_not_missing(tree, revs.drop_last(), i);
        }
    }
}

/// The ids of rows.
pub open spec fn row_ids(rows: Seq<RowView>) -> Seq<Seq<char>> {
    rows.map_values(|r: RowView| r.0)
}

/// Every row id comes from the walked keys.
proof fn lemma_row_ids_from_keys(keys: Seq<Seq<char>>, docs: Seq<(String, Vec<RevPath>)>, q: AllDocsQuery, i: int)
    requires
        0 <= i < rows_for(keys, docs, q).len(),
    ensures
        keys.contains(rows_for(keys, docs, q)[i].0),
    decreases keys.len(),
{
    if keys.len() > 0 {
        let prev = rows_for(keys.drop_last(), docs, q);
        if i < prev.len() {
            lemma_row_ids_from_keys(keys.drop_last(), docs, q, i);
            let k = choose|k: int| 0 <= k < keys.drop_last().len() && keys.drop_last()[k] == prev[i].0;
            assert(keys[k] == prev[i].0);
        } else {
            assert(keys[keys.len() - 1] == rows_for(keys, docs, q)[i].0);
        }
    }
}

/// Rows of keys in ascending order come in ascending order of id.
proof fn lemma_rows_sorted(keys: Seq<Seq<char>>, docs: Seq<(String, Vec<RevPath>)>, q: AllDocsQuery)
    requires
        texts_sorted(keys),
    ensures
        texts_sorted(row_ids(rows_for(keys, docs, q))),
    decreases keys.len(),
{
    if keys.len() > 0 {
        let init = keys.drop_last();
        assert(texts_sorted(init)) by {
            assert forall|a: int, b: int| 0 <= a < b < init.len() implies !crate::tree::text_lt(#[trigger] init[b], #[trigger] init[a]) by {
                assert(init[a] == keys[a] && init[b] == keys[b]);
            }
        }
        lemma_rows_sorted(init, docs, q);
        let prev = rows_for(init, docs, q);
        let cur = rows_for(keys, docs, q);
        if cur.len() > prev.len() {
            let ids = row_ids(cur);
            assert forall|a: int, b: int| 0 <= a < b < ids.len() implies !crate::tree::text_lt(#[trigger] ids[b], #[trigger] ids[a]) by {
                if b < prev.len() {
                    assert(ids[a] == row_ids(prev)[a] && ids[b] == row_ids(prev)[b]);
                } else {
                    assert(ids[b] == keys.last());
                    assert(ids[a] == prev[a].0);
                    lemma_row_ids_from_keys(init, docs, q, a);
                    let k = choose|k: int| 0 <= k < init.len() && init[k] == prev[a].0;
                    assert(keys[k] == ids[a]);
                    assert(!crate::tree::text_lt(keys[keys.len() - 1], keys[k]));
                }
            }
        } else {
            assert(row_ids(cur) =~= row_ids(prev));
        }
    }
}

/// Filtering keeps texts in ascending order.
proof fn lemma_filter_sorted(s: Seq<Seq<char>>, pred: spec_fn(Seq<char>) -> bool)
    requires
        texts_sorted(s),
    ensures
        texts_sorted(s.filter(pred)),
    decreases s.len(),
{
    reveal(Seq::filter);
    if s.len() > 0 {
        let init = s.drop_last();
        assert(texts_sorted(init)) by {
            assert forall|a: int, b: int| 0 <= a < b < init.len() implies !crate::tree::text_lt(#[trigger] init[b], #[trigger] init[a]) by {
                assert(init[a] == s[a] && init[b] == s[b]);
            }
        }
        lemma_filter_sorted(init, pred);
        let prev = init.filter(pred);
        if pred(s.last()) {
            let f = prev.push(s.last());
            assert forall|a: int, b: int| 0 <= a < b < f.len() implies !crate::tree::text_lt(#[trigger] f[b], #[trigger] f[a]) by {
                if b == prev.len() {
                    lemma_filter_from(init, pred, a);
                    let k = choose|k: int| 0 <= k < init.len() && init[k] == prev[a];
                    assert(s[k] == f[a]);
                }
            }
        }
    }
}

/// Without explicit keys and walking in ascending order, an all-documents
/// answer lists its rows in ascending order of id.
pub proof fn lemma_all_docs_ascending(docs: Seq<(String, Vec<RevPath>)>, q: AllDocsQuery)
    requires
        q.keys is None,
        q.key is None,
        !q.descending,
    ensures
        texts_sorted(row_ids(page(rows_for(candidate_keys(docs, q), docs, q), q.skip, q.limit))),
{
    crate::order::lemma_sorted_texts_exist(doc_ids(docs));
    let sorted = sorted_texts(doc_ids(docs).to_multiset());
    lemma_filter_sorted(sorted, range_pred(q));
    let rows = rows_for(candidate_keys(docs, q), docs, q);
    lemma_rows_sorted(candidate_keys(docs, q), docs, q);
    let ids = row_ids(rows);
    let paged = page(rows, q.skip, q.limit);
    let after = if q.skip >= rows.len() { seq![] } else { rows.subrange(q.skip as int, rows.len() as int) };
    assert forall|a: int, b: int| 0 <= a < b < row_ids(paged).len() implies !crate::tree::text_lt(#[trigger] row_ids(paged)[b], #[trigger] row_ids(paged)[a]) by {
        assert(row_ids(paged)[a] == ids[a + q.skip]);
        assert(row_ids(paged)[b] == ids[b + q.skip]);
    }
}

/// Every stored change entry newer than `since` is kept, whatever its
/// deletion flag.
proof fn lemma_newer_than_complete(s: Seq<ChangeView>, since: u64, i: int)
    requires
        0 <= i < s.len(),
        s[i].0 > since,
    ensures
        newer_than(s, since).contains(s[i]),
    decreases s.len(),
{
    let last = s.len() - 1;
    if i < last {
        lemma_newer_than_complete(s.drop_last(), since, i);
        assert(s.drop_last()[i] == s[i]);
        let prev = newer_than(s.drop_last(), since);
        let k = choose|k: int| 0 <= k < prev.len() && prev[k] == s[i];
        if s.last().0 > since {
            assert(newer_than(s, since)[k] == s[i]);
        }
    } else {
        let prev = newer_than(s.drop_last(), since);
        assert(newer_than(s, since)[prev.len() as int] == s[i]);
    }
}

/// The changes feed reports every stored change entry whose sequence is
/// above `since`, deletions included: with no limit, an entry of a requested
/// document (every document where none are named) newer than `since` is in
/// the answer of `select_changes`, in either direction.
pub proof fn lemma_changes_report_every_newer_entry(stored: Seq<ChangeView>, sorted: Seq<ChangeView>, q: ChangesQuery, i: int)
    requires
        sorted.to_multiset() == newer_than(stored, q.since).to_multiset(),
        0 <= i < stored.len(),
        stored[i].0 > q.since,
        q.limit is None,
        query_ids(q) matches Some(ids) ==> ids.contains(stored[i].1),
    ensures
        changes_answer(sorted, q).contains(stored[i]),
{
    broadcast use {vstd::multiset::group_multiset_axioms, vstd::seq_lib::group_to_multiset_ensures};
    let x = stored[i];
    lemma_newer_than_complete(stored, q.since, i);
    assert(newer_than(stored, q.since).to_multiset().contains(x));
    assert(sorted.contains(x));
    let k = choose|k: int| 0 <= k < sorted.len() && sorted[k] == x;
    let ordered = if q.descending { sorted.reverse() } else { sorted };
    let j = if q.descending { sorted.len() - 1 - k } else { k };
    assert(ordered[j] == x);
    match query_ids(q) {
        Some(ids) => {
            let pred = |c: ChangeView| ids.contains(c.1);
            assert(pred(x));
            assert(ordered.contains(x));
            ordered.lemma_filter_contains_rev(pred, x);
        },
        None => {},
    }
}

/// A revision asked about that does not name a revision of the stored tree
/// (or names any revision of a document that is not stored) is reported
/// missing, whatever else is asked.
pub proof fn lemma_unknown_revs_missing(tree: Option<Seq<RevPath>>, revs: Seq<Seq<char>>, i: int)
    requires
        0 <= i < revs.len(),
        match tree {
            Some(t) => match parse_rev_spec(revs[i]) {
                Some(p) => !tree_revisions(t).contains(p),
                None => true,
            },
            None => true,
        },
    ensures
        missing_revs(tree, revs).contains(revs[i]),
    decreases revs.len(),
{
    let last = revs.len() - 1;
    let prev = missing_revs(tree, revs.drop_last());
    if i < last {
        lemma_unknown_revs_missing(tree, revs.drop_last(), i);
        assert(revs.drop_last()[i] == revs[i]);
        let k = choose|k: int| 0 <= k < prev.len() && prev[k] == revs[i];
        assert(missing_revs(tree, revs)[k] == revs[i]);
    } else {
        assert(!rev_known(tree, revs.last()));
        assert(missing_revs(tree, revs)[prev.len() as int] == revs[i]);
    }
}

/// Compaction never removes the body of a leaf: a stored body (with keys
/// unique among the stored bodies) whose revision is the text of some leaf of
/// its document's tree keeps its key out of the keys `non_leaf_keys` removes,
/// however many leaves the tree has; and a body whose revision is no leaf of
/// its document's tree, or whose document is not stored, is removed.
pub proof fn lemma_compaction_keeps_every_leaf(docs: Seq<(String, Vec<RevPath>)>, revs: Seq<StoredRev>, i: int)
    requires
        0 <= i < revs.len(),
        forall|a: int, b: int| 0 <= a < b < revs.len() ==> (#[trigger] revs[a]).key@ != (#[trigger] revs[b]).key@,
    ensures
        (lookup_tree(docs, revs[i].doc_id@) matches Some(t) && exists|l: (u64, Seq<char>, bool)|
            #[trigger] crate::tree::tree_leaves(t).contains(l) && rev_text(l.0, l.1) == revs[i].rev@)
            ==> !compaction_keys(docs, revs).contains(revs[i].key@),
        (match lookup_tree(docs, revs[i].doc_id@) {
            Some(t) => forall|l: (u64, Seq<char>, bool)|
                #[trigger] crate::tree::tree_leaves(t).contains(l) ==> rev_text(l.0, l.1) != revs[i].rev@,
            None => true,
        }) ==> compaction_keys(docs, revs).contains(revs[i].key@),
{
    broadcast use {vstd::multiset::group_multiset_axioms, vstd::seq_lib::group_to_multiset_ensures};
    lemma_compaction_keeps_leaves(docs, revs, i);
    match lookup_tree(docs, revs[i].doc_id@) {
        Some(t) => {
            crate::tree::lemma_sorted_leaves_spec(t);
            let sl = sorted_leaves(t);
            if exists|l: (u64, Seq<char>, bool)| #[trigger] crate::tree::tree_leaves(t).contains(l) && rev_text(l.0, l.1) == revs[i].rev@ {
                let l = choose|l: (u64, Seq<char>, bool)| #[trigger] crate::tree::tree_leaves(t).contains(l) && rev_text(l.0, l.1) == revs[i].rev@;
                assert(sl.to_multiset().contains(l));
                let k = choose|k: int| 0 <= k < sl.len() && sl[k] == l;
                assert(leaf_texts(t)[k] == revs[i].rev@);
                assert(body_kept(docs, revs[i]));
            }
            if leaf_texts(t).contains(revs[i].rev@) {
                let k = choose|k: int| 0 <= k < leaf_texts(t).len() && leaf_texts(t)[k] == revs[i].rev@;
                let l = sl[k];
                assert(sl.contains(l));
                assert(crate::tree::tree_leaves(t).contains(l));
            }
        },
        None => {},
    }
}

/// The live-document count of `info` is the number of stored documents
/// whose winning revision (the leaf that sorts first) is not a deletion: a
/// document counts exactly when its winner is live (or it has no leaf),
/// whatever its other leaves are.
pub proof fn lemma_live_count_counts_live_winners(trees: Seq<Vec<RevPath>>)
    ensures
        live_count(trees) == trees.filter(|t: Vec<RevPath>| !tree_deleted(t@)).len(),
    decreases trees.len(),
{
    reveal(Seq::filter);
    if trees.len() > 0 {
        lemma_live_count_counts_live_winners(trees.drop_last());
    }
}

/// The rows of a walk include a row for every walked key whose stored
/// document has a live winner.
proof fn lemma_rows_include_live_key(keys: Seq<Seq<char>>, docs: Seq<(String, Vec<RevPath>)>, q: AllDocsQuery, j: int)
    requires
        0 <= j < keys.len(),
        lookup_tree(docs, keys[j]) matches Some(t) && tree_winner(t) is Some && !tree_deleted(t),
    ensures
        row_ids(rows_for(keys, docs, q)).contains(keys[j]),
    decreases keys.len(),
{
    let prev = rows_for(keys.drop_last(), docs, q);
    let rows = rows_for(keys, docs, q);
    if j < keys.len() - 1 {
        assert(keys.drop_last()[j] == keys[j]);
        lemma_rows_include_live_key(keys.drop_last(), docs, q, j);
        let m = choose|m: int| 0 <= m < row_ids(prev).len() && row_ids(prev)[m] == keys[j];
        assert(rows[m] == prev[m]);
        assert(row_ids(rows)[m] == keys[j]);
    } else {
        assert(rows[prev.len() as int].0 == keys[j]);
        assert(row_ids(rows)[prev.len() as int] == keys[j]);
    }
}

/// An all-documents query without `key`/`keys` lists every stored document
/// whose winner is live and whose id lies in the range: in ascending order an
/// id at or after `start_key` (the start is inclusive) and before `end_key`
/// (or equal to it with `inclusive_end`); in descending order the same with
/// the comparisons turned round.
pub proof fn lemma_all_docs_lists_live_docs_in_range(docs: Seq<(String, Vec<RevPath>)>, q: AllDocsQuery, i: int)
    requires
        0 <= i < docs.len(),
        q.keys is None,
        q.key is None,
        lookup_tree(docs, docs[i].0@) matches Some(t) && tree_winner(t) is Some && !tree_deleted(t),
        q.start_key matches Some(s) ==> if !q.descending { !text_lt(docs[i].0@, s@) } else { !text_lt(s@, docs[i].0@) },
        q.end_key matches Some(e) ==> if q.inclusive_end {
            if !q.descending { !text_lt(e@, docs[i].0@) } else { !text_lt(docs[i].0@, e@) }
        } else {
            if !q.descending { text_lt(docs[i].0@, e@) } else { text_lt(e@, docs[i].0@) }
        },
    ensures
        row_ids(rows_for(candidate_keys(docs, q), docs, q)).contains(docs[i].0@),
{
    broadcast use {vstd::multiset::group_multiset_axioms, vstd::seq_lib::group_to_multiset_ensures};
    let k = docs[i].0@;
    let ids = doc_ids(docs);
    assert(ids[i] == k);
    assert(ids.to_multiset().contains(k));
    crate::order::lemma_sorted_texts_exist(ids);
    let sorted = sorted_texts(ids.to_multiset());
    assert(sorted.to_multiset().contains(k));
    assert(sorted.contains(k));
    let a = choose|a: int| 0 <= a < sorted.len() && sorted[a] == k;
    let ordered = ordered_ids(docs, q.descending);
    let b = if q.descending { sorted.len() - 1 - a } else { a };
    assert(ordered[b] == k);
    assert(range_pred(q)(k));
    ordered.lemma_filter_contains(range_pred(q), b);
    let keys = candidate_keys(docs, q);
    assert(keys.contains(k));
    let j = choose|j: int| 0 <= j < keys.len() && keys[j] == k;
    lemma_rows_include_live_key(keys, docs, q, j);
}

/// An all-documents query without `key`/`keys` lists only stored ids in
/// its range: every row's id is the id of a stored document, at or after
/// `start_key` and before `end_key` (or equal to it with `inclusive_end`) in
/// the walking direction.
pub proof fn lemma_all_docs_rows_in_range(docs: Seq<(String, Vec<RevPath>)>, q: AllDocsQuery, m: int)
    requires
        q.keys is None,
        q.key is None,
        0 <= m < rows_for(candidate_keys(docs, q), docs, q).len(),
    ensures
        ({
            let k = rows_for(candidate_keys(docs, q), docs, q)[m].0;
            &&& exists|i: int| 0 <= i < docs.len() && #[trigger] docs[i].0@ == k
            &&& q.start_key matches Some(s) ==> if !q.descending { !text_lt(k, s@) } else { !text_lt(s@, k) }
            &&& q.end_key matches Some(e) ==> if q.inclusive_end {
                if !q.descending { !text_lt(e@, k) } else { !text_lt(k, e@) }
            } else {
                if !q.descending { text_lt(k, e@) } else { text_lt(e@, k) }
            }
        }),
{
    broadcast use {vstd::multiset::group_multiset_axioms, vstd::seq_lib::group_to_multiset_ensures};
    let keys = candidate_keys(docs, q);
    let k = rows_for(keys, docs, q)[m].0;
    lemma_row_ids_from_keys(keys, docs, q, m);
    let j = choose|j: int| 0 <= j < keys.len() && keys[j] == k;
    let ordered = ordered_ids(docs, q.descending);
    ordered.lemma_filter_pred(range_pred(q), j);
    ordered.lemma_filter_contains_rev(range_pred(q), k);
    let ids = doc_ids(docs);
    crate::order::lemma_sorted_texts_exist(ids);
    let sorted = sorted_texts(ids.to_multiset());
    assert(sorted.contains(k)) by {
        let b = choose|b: int| 0 <= b < ordered.len() && ordered[b] == k;
        if q.descending {
            assert(sorted[sorted.len() - 1 - b] == k);
        }
    }
    assert(sorted.to_multiset().contains(k));
    assert(ids.contains(k));
    let i = choose|i: int| 0 <= i < ids.len() && ids[i] == k;
    assert(docs[i].0@ == k);
}

/// revs_diff reports as missing only revisions it was asked about that the
/// stored tree does not hold (every revision of a document not stored).
pub proof fn lemma_missing_revs_are_unknown(tree: Option<Seq<RevPath>>, revs: Seq<Seq<char>>, m: int)
    requires
        0 <= m < missing_revs(tree, revs).len(),
    ensures
        revs.contains(missing_revs(tree, revs)[m]),
        match tree {
            Some(t) => match parse_rev_spec(missing_revs(tree, revs)[m]) {
                Some(p) => !tree_revisions(t).contains(p),
                None => true,
            },
            None => true,
        },
    decreases revs.len(),
{
    lemma_known_revs_not_missing(tree, revs, m);
    let prev = missing_revs(tree, revs.drop_last());
    if m < prev.len() {
        lemma_missing_revs_are_unknown(tree, revs.drop_last(), m);
        let k = choose|k: int| 0 <= k < revs.drop_last().len() && revs.drop_last()[k] == prev[m];
        assert(revs[k] == prev[m]);
    } else {
        assert(revs[revs.len() - 1] == missing_revs(tree, revs)[m]);
    }
}

} // verus!
