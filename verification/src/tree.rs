//! Revision trees, held as `rouchdb_core` values and queried through that
//! crate's functions.

use vstd::prelude::*;
use vstd::multiset::Multiset;
use rouchdb_core::rev_tree::RevPath;

verus! {

#[verifier::external_type_specification]
#[verifier::external_body]
pub struct ExRevPath(rouchdb_core::rev_tree::RevPath);

/// A leaf as the library sees it: generation, hash and deletion flag.
pub type LeafView = (u64, Seq<char>, bool);

/// The nodes of a rooted path as (generation, hash): the generation of a
/// node is the root's generation plus the node's depth.
pub uninterp spec fn path_nodes(p: RevPath) -> Multiset<(u64, Seq<char>)>;

/// Every revision of a rooted path.
pub open spec fn path_revisions(p: RevPath) -> Set<(u64, Seq<char>)> {
    path_nodes(p).dom()
}

/// The nodes of a tree made of several rooted paths.
pub open spec fn tree_nodes(t: Seq<RevPath>) -> Multiset<(u64, Seq<char>)>
    decreases t.len(),
{
    if t.len() == 0 {
        Multiset::empty()
    } else {
        tree_nodes(t.drop_last()).add(path_nodes(t.last()))
    }
}

/// The leaves (nodes without children) of a rooted path.
pub uninterp spec fn path_leaves(p: RevPath) -> Multiset<LeafView>;

/// Whether every node of a rooted path has a generation (its root's
/// generation plus its depth) that a `u64` holds; the crate's traversals add
/// one generation per level without a check.
pub uninterp spec fn path_fits(p: RevPath) -> bool;

/// Whether every path of a tree fits in the sense of `path_fits`.
pub open spec fn tree_fits(t: Seq<RevPath>) -> bool {
    forall|i: int| 0 <= i < t.len() ==> #[trigger] path_fits(t[i])
}

/// Every revision of a tree made of several rooted paths.
pub open spec fn tree_revisions(t: Seq<RevPath>) -> Set<(u64, Seq<char>)>
    decreases t.len(),
{
    if t.len() == 0 {
        Set::empty()
    } else {
        tree_revisions(t.drop_last()).union(path_revisions(t.last()))
    }
}

/// The leaves of a tree made of several rooted paths.
pub open spec fn tree_leaves(t: Seq<RevPath>) -> Multiset<LeafView>
    decreases t.len(),
{
    if t.len() == 0 {
        Multiset::empty()
    } else {
        tree_leaves(t.drop_last()).add(path_leaves(t.last()))
    }
}

/// Strict lexicographic order of byte strings.
pub open spec fn bytes_lt(a: Seq<u8>, b: Seq<u8>) -> bool
    decreases a.len(),
{
    if b.len() == 0 {
        false
    } else if a.len() == 0 {
        true
    } else if a[0] != b[0] {
        a[0] < b[0]
    } else {
        bytes_lt(a.drop_first(), b.drop_first())
    }
}

/// Strict order of texts as Rust orders `str`: by their UTF-8 bytes.
pub open spec fn text_lt(a: Seq<char>, b: Seq<char>) -> bool {
    bytes_lt(vstd::utf8::encode_utf8(a), vstd::utf8::encode_utf8(b))
}

/// Whether leaf `a` sorts strictly before leaf `b`: live leaves before
/// deleted ones, then higher generations first, then greater hashes first.
pub open spec fn leaf_precedes(a: LeafView, b: LeafView) -> bool {
    ||| (!a.2 && b.2)
    ||| (a.2 == b.2 && a.0 > b.0)
    ||| (a.2 == b.2 && a.0 == b.0 && text_lt(b.1, a.1))
}

/// Whether a sequence of leaves is in sorting order.
pub open spec fn leaves_sorted(s: Seq<LeafView>) -> bool {
    forall|i: int, j: int| 0 <= i < j < s.len() ==> !leaf_precedes(#[trigger] s[j], #[trigger] s[i])
}

/// The leaves of a tree in sorting order; the first one is the winner.
pub open spec fn sorted_leaves(t: Seq<RevPath>) -> Seq<LeafView> {
    choose|s: Seq<LeafView>| s.to_multiset() == tree_leaves(t) && leaves_sorted(s)
}

/// The winning revision of a tree: the leaf that sorts first.
pub open spec fn tree_winner(t: Seq<RevPath>) -> Option<(u64, Seq<char>)> {
    let s = sorted_leaves(t);
    if s.len() == 0 { None } else { Some((s[0].0, s[0].1)) }
}

/// Whether the winning leaf of a tree is a deletion.
pub open spec fn tree_deleted(t: Seq<RevPath>) -> bool {
    let s = sorted_leaves(t);
    s.len() > 0 && s[0].2
}

/// The generation and hash of each live leaf of `s`, in order.
pub open spec fn live_revs(s: Seq<LeafView>) -> Seq<(u64, Seq<char>)>
    decreases s.len(),
{
    if s.len() == 0 {
        seq![]
    } else if s.last().2 {
        live_revs(s.drop_last())
    } else {
        live_revs(s.drop_last()).push((s.last().0, s.last().1))
    }
}

/// The conflicts of a tree: the live leaves after the winner, in order.
pub open spec fn tree_conflicts(t: Seq<RevPath>) -> Seq<(u64, Seq<char>)> {
    let s = sorted_leaves(t);
    if s.len() == 0 { seq![] } else { live_revs(s.drop_first()) }
}

/// The views of leaves handed out as plain values.
pub open spec fn leaf_views(v: Seq<(u64, String, bool)>) -> Seq<LeafView> {
    v.map_values(|l: (u64, String, bool)| (l.0, l.1@, l.2))
}

/// The views of revisions handed out as plain values.
pub open spec fn rev_views(v: Seq<(u64, String)>) -> Seq<(u64, Seq<char>)> {
    v.map_values(|r: (u64, String)| (r.0, r.1@))
}

/// The view of an optional revision handed out as a plain value.
pub open spec fn opt_rev_view(r: Option<(u64, String)>) -> Option<(u64, Seq<char>)> {
    match r {
        Some(x) => Some((x.0, x.1@)),
        None => None,
    }
}

/// Calls `rouchdb_core::rev_tree::collect_leaves` and hands each leaf out as
/// (generation, hash, deleted). The contract states that the leaves are all
/// leaves of the tree, in the crate's sorting order (live first, then higher
/// generation, then greater hash). The tree must fit (`tree_fits`): the
/// traversal adds to the generation at each level and would overflow.
#[verifier::external_body]
pub(crate) fn collect_leaves(tree: &Vec<RevPath>) -> (res: Vec<(u64, String, bool)>)
    requires
        tree_fits(tree@),
    ensures
        leaf_views(res@) == sorted_leaves(tree@),
{
    rouchdb_core::rev_tree::collect_leaves(tree).into_iter().map(|l| (l.pos, l.hash, l.deleted)).collect()
}

/// Calls `rouchdb_core::merge::winning_rev`, which takes the first leaf in
/// sorting order. The contract states exactly that.
#[verifier::external_body]
pub(crate) fn winning_rev(tree: &Vec<RevPath>) -> (res: Option<(u64, String)>)
    requires
        tree_fits(tree@),
    ensures
        opt_rev_view(res) == tree_winner(tree@),
{
    rouchdb_core::merge::winning_rev(tree).map(|r| (r.pos, r.hash))
}

/// Calls `rouchdb_core::merge::is_deleted`: whether the first leaf in
/// sorting order is a deletion (false for a tree without leaves).
#[verifier::external_body]
pub(crate) fn is_deleted(tree: &Vec<RevPath>) -> (res: bool)
    requires
        tree_fits(tree@),
    ensures
        res == tree_deleted(tree@),
{
    rouchdb_core::merge::is_deleted(tree)
}

/// Calls `rouchdb_core::merge::collect_conflicts`: the live leaves after the
/// first one in sorting order.
#[verifier::external_body]
pub(crate) fn collect_conflicts(tree: &Vec<RevPath>) -> (res: Vec<(u64, String)>)
    requires
        tree_fits(tree@),
    ensures
        rev_views(res@) == tree_conflicts(tree@),
{
    rouchdb_core::merge::collect_conflicts(tree).into_iter().map(|r| (r.pos, r.hash)).collect()
}

/// Calls `rouchdb_core::rev_tree::rev_exists`: whether a node of that
/// generation and hash is in the tree.
#[verifier::external_body]
pub(crate) fn rev_exists(tree: &Vec<RevPath>, pos: u64, hash: &str) -> (res: bool)
    requires
        tree_fits(tree@),
    ensures
        res == tree_revisions(tree@).contains((pos, hash@)),
{
    rouchdb_core::rev_tree::rev_exists(tree, pos, hash)
}

/// Whether the `i`-th hash of `chain` is a revision of tree `t` at
/// generation `pos - i`, for each `i`.
pub open spec fn chain_in_tree(t: Seq<RevPath>, pos: u64, chain: Seq<String>) -> bool {
    forall|i: int| #![trigger chain[i]] 0 <= i < chain.len() ==> i <= pos
        && tree_revisions(t).contains(((pos - i) as u64, chain[i]@))
}

/// The ancestry chain (newest first, from the revision up to the root of
/// its path) that `rouchdb_core::rev_tree::find_rev_ancestry` finds for
/// revision (`pos`, `h`) in a tree, if the revision is in it.
pub uninterp spec fn rev_ancestry(t: Seq<RevPath>, pos: u64, h: Seq<char>) -> Option<Seq<Seq<char>>>;

/// The texts of an optional chain of strings.
pub open spec fn opt_chain_view(c: Option<Vec<String>>) -> Option<Seq<Seq<char>>> {
    match c {
        Some(v) => Some(v@.map_values(|x: String| x@)),
        None => None,
    }
}

/// Calls `rouchdb_core::rev_tree::find_rev_ancestry`. The contract names the
/// chain `rev_ancestry` of the tree and the revision, and states that a
/// chain comes back exactly when the revision is in the tree, that it starts
/// with the revision's own hash, and that its `i`-th hash is a revision of
/// the tree at generation `pos - i` (the chain climbs one generation per
/// step towards the root of its path). The tree must fit (`tree_fits`).
#[verifier::external_body]
pub(crate) fn find_rev_ancestry(tree: &Vec<RevPath>, pos: u64, hash: &str) -> (res: Option<Vec<String>>)
    requires
        tree_fits(tree@),
    ensures
        res is Some <==> tree_revisions(tree@).contains((pos, hash@)),
        res matches Some(c) ==> c@.len() >= 1 && c@[0]@ == hash@,
        res matches Some(c) ==> chain_in_tree(tree@, pos, c@),
        opt_chain_view(res) == rev_ancestry(tree@, pos, hash@),
{
    rouchdb_core::rev_tree::find_rev_ancestry(tree, pos, hash)
}

/// The generation of the root of a path built from `len` hashes whose
/// newest has generation `pos` (never below 0).
pub open spec fn chain_root(pos: u64, len: nat) -> int {
    if pos >= len - 1 { pos - (len - 1) } else { 0 }
}

/// The path that `rouchdb_core::rev_tree::build_path_from_revs` builds from
/// hashes `revs` (newest first) whose newest has generation `pos`, with the
/// leaf available and marked deleted as given.
pub uninterp spec fn built_path(pos: u64, revs: Seq<Seq<char>>, deleted: bool) -> RevPath;

/// Calls `rouchdb_core::rev_tree::build_path_from_revs` with the leaf
/// available and marked deleted as given. `revs` is newest first. The
/// contract names the path `built_path` of its arguments and states the
/// revisions and the single leaf of the chain built, and that it fits: its
/// deepest node has generation `pos`, or `revs.len() - 1` where the root
/// generation would fall below 0.
#[verifier::external_body]
pub(crate) fn build_path_from_revs(pos: u64, revs: &Vec<String>, deleted: bool) -> (res: RevPath)
    ensures
        res == built_path(pos, revs@.map_values(|x: String| x@), deleted),
        path_fits(res),
        revs@.len() > 0 ==> {
            &&& path_revisions(res) == Set::new(|r: (u64, Seq<char>)| exists|i: int| 0 <= i < revs@.len()
                && r == ((chain_root(pos, revs@.len()) + (revs@.len() - 1 - i)) as u64, #[trigger] revs@[i]@))
            &&& path_leaves(res) == Multiset::singleton(((chain_root(pos, revs@.len()) + (revs@.len() - 1)) as u64, revs@[0]@, deleted))
            &&& forall|r: (u64, Seq<char>)| #[trigger] path_nodes(res).count(r) <= 1
        },
        revs@.len() == 0 ==> {
            &&& path_nodes(res) == Multiset::singleton((pos, Seq::<char>::empty()))
            &&& path_revisions(res) == Set::empty().insert((pos, Seq::<char>::empty()))
            &&& path_leaves(res) == Multiset::singleton((pos, Seq::<char>::empty(), deleted))
        },
{
    rouchdb_core::rev_tree::build_path_from_revs(
        pos,
        revs,
        rouchdb_core::rev_tree::NodeOpts { deleted },
        rouchdb_core::rev_tree::RevStatus::Available,
    )
}

/// The tree that `rouchdb_core::merge::merge_tree` gives for merging path
/// `p` into tree `t`, stemmed to `limit` revisions per path.
pub uninterp spec fn merged_tree(t: Seq<RevPath>, p: RevPath, limit: u64) -> Seq<RevPath>;

/// Calls `rouchdb_core::merge::merge_tree` and keeps the merged tree. The
/// tree and the path must fit (`tree_fits`, `path_fits`): the merge walks them
/// adding a generation per level. The contract names the result
/// `merged_tree` of the arguments; the merged tree fits too, as every node
/// keeps the generation it had in the tree or the path. It also states what
/// the crate's merge (`do_merge`, `graft_nodes`) and stemming (`stem`, which
/// only removes roots with at most one child, and empty roots without
/// children) show:
/// - every revision of the result is one of the tree or of the path;
/// - every leaf of the result is a leaf of the tree or of the path (the merge
///   grafts nodes of the path only, and nothing loses its children);
/// - a leaf of the tree with a non-empty hash whose revision is not a node of
///   the path stays a leaf (only nodes matching the path get children);
/// - the leaf of a single-leaf path with a non-empty hash, whose revision was
///   not yet in the tree, is a leaf of the result;
/// - merging such a path, shorter than `rev_limit` and with non-empty hashes,
///   into an empty tree gives a tree of that path alone;
/// - a two-revision path whose root is a revision met once in the tree, and a
///   leaf there (all of the tree's leaves having non-empty hashes), replaces
///   that leaf by its own.
/// Which ancestors of the path are added where it meets the tree part way,
/// and what stemming to `rev_limit` drops, is not stated.
#[verifier::external_body]
pub(crate) fn merge_tree(tree: &Vec<RevPath>, new_path: &RevPath, rev_limit: u64) -> (res: Vec<RevPath>)
    requires
        tree_fits(tree@),
        path_fits(*new_path),
    ensures
        res@ == merged_tree(tree@, *new_path, rev_limit),
        tree_fits(res@),
        forall|r: (u64, Seq<char>)| #[trigger] tree_revisions(res@).contains(r)
            ==> tree_revisions(tree@).contains(r) || path_revisions(*new_path).contains(r),
        forall|x: LeafView| #[trigger] tree_leaves(res@).contains(x)
            ==> tree_leaves(tree@).contains(x) || path_leaves(*new_path).contains(x),
        forall|x: LeafView| #[trigger] tree_leaves(tree@).contains(x) && x.1.len() > 0
            && !path_revisions(*new_path).contains((x.0, x.1))
            ==> tree_leaves(res@).contains(x),
        forall|l: LeafView| #![trigger path_leaves(*new_path).contains(l)]
            path_leaves(*new_path).len() == 1 && path_leaves(*new_path).contains(l) && l.1.len() > 0
            && !tree_revisions(tree@).contains((l.0, l.1))
            ==> tree_revisions(res@).contains((l.0, l.1)) && tree_leaves(res@).contains(l),
        tree@.len() == 0 && path_leaves(*new_path).len() == 1
            && path_revisions(*new_path).len() < rev_limit
            && (forall|r: (u64, Seq<char>)| #[trigger] path_revisions(*new_path).contains(r) ==> r.1.len() > 0)
            ==> res@ == seq![*new_path],
        forall|ap: u64, ah: Seq<char>, d: bool, l: LeafView|
            #![trigger tree_leaves(tree@).contains((ap, ah, d)), path_leaves(*new_path).contains(l)]
            path_revisions(*new_path) == Set::empty().insert((ap, ah)).insert((l.0, l.1))
            && path_leaves(*new_path) == Multiset::singleton(l)
            && ap + 1 == l.0
            && l.1.len() > 0
            && tree_nodes(tree@).count((ap, ah)) == 1
            && tree_leaves(tree@).contains((ap, ah, d))
            && !tree_revisions(tree@).contains((l.0, l.1))
            && (forall|x: LeafView| #[trigger] tree_leaves(tree@).contains(x) ==> x.1.len() > 0)
            ==> tree_leaves(res@) == tree_leaves(tree@).remove((ap, ah, d)).insert(l),
{
    rouchdb_core::merge::merge_tree(tree, new_path, rev_limit).0
}

/// A tree of one path with a single leaf has that leaf as its winner.
pub proof fn lemma_single_leaf_tree(p: RevPath, leaf: LeafView)
    requires
        path_leaves(p) == Multiset::singleton(leaf),
    ensures
        sorted_leaves(seq![p]) == seq![leaf],
        tree_winner(seq![p]) == Some((leaf.0, leaf.1)),
        tree_deleted(seq![p]) == leaf.2,
{
    broadcast use {vstd::multiset::group_multiset_axioms, vstd::seq_lib::group_to_multiset_ensures};
    let t = seq![p];
    assert(t.drop_last() =~= Seq::<RevPath>::empty());
    assert(t.last() == p);
    assert(tree_leaves(t.drop_last()) == Multiset::<LeafView>::empty());
    assert(tree_leaves(t) == Multiset::<LeafView>::empty().add(Multiset::singleton(leaf)));
    assert(tree_leaves(t) =~= Multiset::singleton(leaf));
    let one = seq![leaf];
    assert(one =~= Seq::<LeafView>::empty().push(leaf));
    assert(one.to_multiset() =~= Multiset::singleton(leaf));
    assert(leaves_sorted(one));
    let s = sorted_leaves(t);
    assert(s.to_multiset() == tree_leaves(t) && leaves_sorted(s));
    vstd::seq_lib::to_multiset_len(s);
    assert(s.len() == 1);
    assert(s.to_multiset().contains(s[0]));
    assert(s =~= one);
}

/// The leaves of every tree have a sorting order, so `sorted_leaves` is one.
pub proof fn lemma_sorted_leaves_spec(t: Seq<RevPath>)
    ensures
        sorted_leaves(t).to_multiset() == tree_leaves(t),
        leaves_sorted(sorted_leaves(t)),
{
    crate::order::lemma_leaves_sortable(tree_leaves(t));
}

/// The winner of a tree with leaves is one of its leaves, and no leaf sorts
/// before it.
pub proof fn lemma_winner_is_first_leaf(t: Seq<RevPath>)
    ensures
        tree_winner(t) is None <==> tree_leaves(t).len() == 0,
        tree_winner(t) matches Some(w) ==> {
            &&& tree_leaves(t).contains((w.0, w.1, tree_deleted(t)))
            &&& forall|x: LeafView| #[trigger] tree_leaves(t).contains(x) ==> !leaf_precedes(x, (w.0, w.1, tree_deleted(t)))
        },
{
    broadcast use {vstd::multiset::group_multiset_axioms, vstd::seq_lib::group_to_multiset_ensures};
    lemma_sorted_leaves_spec(t);
    let s = sorted_leaves(t);
    vstd::seq_lib::to_multiset_len(s);
    if s.len() > 0 {
        assert(s.to_multiset().contains(s[0]));
        assert forall|x: LeafView| #[trigger] tree_leaves(t).contains(x) implies !leaf_precedes(x, s[0]) by {
            assert(s.contains(x));
            let k = choose|k: int| 0 <= k < s.len() && s[k] == x;
            if k == 0 {
                crate::order::lemma_leaf_precedes_order(x, x, x);
            }
        }
    }
}

/// A leaf that sorts before every other leaf of a tree is its winner.
pub proof fn lemma_first_leaf_wins(t: Seq<RevPath>, l: LeafView)
    requires
        tree_leaves(t).contains(l),
        forall|x: LeafView| #[trigger] tree_leaves(t).contains(x) && x != l ==> leaf_precedes(l, x),
    ensures
        tree_winner(t) == Some((l.0, l.1)),
        tree_deleted(t) == l.2,
{
    broadcast use {vstd::multiset::group_multiset_axioms, vstd::seq_lib::group_to_multiset_ensures};
    lemma_sorted_leaves_spec(t);
    let s = sorted_leaves(t);
    vstd::seq_lib::to_multiset_len(s);
    assert(s.contains(l));
    let k = choose|k: int| 0 <= k < s.len() && s[k] == l;
    assert(s.to_multiset().contains(s[0]));
    if s[0] != l {
        assert(leaf_precedes(l, s[0]));
        assert(k > 0);
        assert(!leaf_precedes(s[k], s[0]));
    }
}

/// A sequence of leaves with no live revision has only deleted leaves.
proof fn lemma_live_revs_empty(s: Seq<LeafView>)
    requires
        live_revs(s).len() == 0,
    ensures
        forall|i: int| 0 <= i < s.len() ==> (#[trigger] s[i]).2,
    decreases s.len(),
{
    if s.len() > 0 {
        assert(s.last().2);
        lemma_live_revs_empty(s.drop_last());
        assert forall|i: int| 0 <= i < s.len() implies (#[trigger] s[i]).2 by {
            if i < s.len() - 1 {
                assert(s[i] == s.drop_last()[i]);
            }
        }
    }
}

/// In a tree without conflicts, every leaf but (one copy of) the winning one
/// is a deletion.
pub proof fn lemma_no_conflicts(t: Seq<RevPath>)
    requires
        tree_conflicts(t).len() == 0,
    ensures
        tree_winner(t) matches Some(w) ==> forall|x: LeafView|
            #[trigger] tree_leaves(t).remove((w.0, w.1, tree_deleted(t))).contains(x) ==> x.2,
{
    broadcast use {vstd::multiset::group_multiset_axioms, vstd::seq_lib::group_to_multiset_ensures};
    lemma_sorted_leaves_spec(t);
    let s = sorted_leaves(t);
    if s.len() > 0 {
        let rest = s.drop_first();
        lemma_live_revs_empty(rest);
        vstd::seq_lib::to_multiset_remove(s, 0);
        assert(s.remove(0) =~= rest);
        assert forall|x: LeafView| #[trigger] tree_leaves(t).remove(s[0]).contains(x) implies x.2 by {
            assert(rest.to_multiset().contains(x));
            assert(rest.contains(x));
            let k = choose|k: int| 0 <= k < rest.len() && rest[k] == x;
            assert(rest[k].2);
        }
    }
}

} // verus!
