//! The order of texts (as Rust orders `str`) and sorting by it, and the
//! order in which the leaves of a revision tree are ranked.

use vstd::prelude::*;
use vstd::multiset::Multiset;
use crate::tree::{LeafView, bytes_lt, leaf_precedes, leaves_sorted, text_lt};

verus! {

/// Comparing two byte strings after a common prefix gives the same answer as
/// comparing them whole.
proof fn lemma_bytes_lt_skip(a: Seq<u8>, b: Seq<u8>, i: int)
    requires
        0 <= i <= a.len(),
        i <= b.len(),
        a.subrange(0, i) == b.subrange(0, i),
    ensures
        bytes_lt(a, b) == bytes_lt(a.subrange(i, a.len() as int), b.subrange(i, b.len() as int)),
    decreases i,
{
    if i > 0 {
        assert(a[0] == a.subrange(0, i)[0]);
        assert(b[0] == b.subrange(0, i)[0]);
        assert(a.drop_first().subrange(0, i - 1) =~= a.subrange(0, i).drop_first());
        assert(b.drop_first().subrange(0, i - 1) =~= b.subrange(0, i).drop_first());
        lemma_bytes_lt_skip(a.drop_first(), b.drop_first(), i - 1);
        assert(a.drop_first().subrange(i - 1, a.len() - 1) =~= a.subrange(i, a.len() as int));
        assert(b.drop_first().subrange(i - 1, b.len() - 1) =~= b.subrange(i, b.len() as int));
    } else {
        assert(a.subrange(0, a.len() as int) =~= a);
        assert(b.subrange(0, b.len() as int) =~= b);
    }
}

/// Whether byte string `a` sorts strictly before `b`.
pub fn bytes_less(a: &[u8], b: &[u8]) -> (res: bool)
    ensures
        res == bytes_lt(a@, b@),
{
    let mut i: usize = 0;
    while i < a.len() && i < b.len() && a[i] == b[i]
        invariant
            i <= a.len(),
            i <= b.len(),
            a@.subrange(0, i as int) == b@.subrange(0, i as int),
        decreases a.len() - i,
    {
        proof {
            assert(a@.subrange(0, i + 1) =~= a@.subrange(0, i as int).push(a@[i as int]));
            assert(b@.subrange(0, i + 1) =~= b@.subrange(0, i as int).push(b@[i as int]));
        }
        i = i + 1;
    }
    proof {
        lemma_bytes_lt_skip(a@, b@, i as int);
    }
    if i == b.len() {
        false
    } else if i == a.len() {
        true
    } else {
        a[i] < b[i]
    }
}

/// Whether text `a` sorts strictly before `b`.
pub fn text_less(a: &str, b: &str) -> (res: bool)
    ensures
        res == text_lt(a@, b@),
{
    bytes_less(a.as_bytes(), b.as_bytes())
}

/// `bytes_lt` is irreflexive and transitive.
proof fn lemma_bytes_lt_order(a: Seq<u8>, b: Seq<u8>, c: Seq<u8>)
    ensures
        !bytes_lt(a, a),
        bytes_lt(a, b) ==> !bytes_lt(b, a),
        bytes_lt(a, b) && bytes_lt(b, c) ==> bytes_lt(a, c),
    decreases a.len(),
{
    if a.len() > 0 && b.len() > 0 && c.len() > 0 {
        lemma_bytes_lt_order(a.drop_first(), b.drop_first(), c.drop_first());
    }
    if a.len() > 0 {
        lemma_bytes_lt_order(a.drop_first(), a.drop_first(), a.drop_first());
    }
    if a.len() > 0 && b.len() > 0 {
        lemma_bytes_lt_order(a.drop_first(), b.drop_first(), b.drop_first());
    }
}

/// `text_lt` is irreflexive and transitive.
pub proof fn lemma_text_lt_order(a: Seq<char>, b: Seq<char>, c: Seq<char>)
    ensures
        !text_lt(a, a),
        text_lt(a, b) ==> !text_lt(b, a),
        text_lt(a, b) && text_lt(b, c) ==> text_lt(a, c),
{
    lemma_bytes_lt_order(
        vstd::utf8::encode_utf8(a),
        vstd::utf8::encode_utf8(b),
        vstd::utf8::encode_utf8(c),
    );
}

/// The texts of a sequence of strings.
pub open spec fn texts(v: Seq<String>) -> Seq<Seq<char>> {
    v.map_values(|s: String| s@)
}

/// Whether texts are in ascending order.
pub open spec fn texts_sorted(s: Seq<Seq<char>>) -> bool {
    forall|i: int, j: int| 0 <= i < j < s.len() ==> !text_lt(#[trigger] s[j], #[trigger] s[i])
}

/// Two byte strings that neither sorts before the other are equal.
proof fn lemma_bytes_lt_total(a: Seq<u8>, b: Seq<u8>)
    ensures
        bytes_lt(a, b) || bytes_lt(b, a) || a == b,
    decreases a.len(),
{
    if a.len() > 0 && b.len() > 0 {
        lemma_bytes_lt_total(a.drop_first(), b.drop_first());
        if a[0] == b[0] && a.drop_first() == b.drop_first() {
            assert(a =~= seq![a[0]] + a.drop_first());
            assert(b =~= seq![b[0]] + b.drop_first());
        }
    } else if a.len() == 0 && b.len() == 0 {
        assert(a =~= b);
    }
}

/// Two texts that neither sorts before the other are equal.
pub proof fn lemma_text_lt_total(a: Seq<char>, b: Seq<char>)
    ensures
        text_lt(a, b) || text_lt(b, a) || a == b,
{
    broadcast use vstd::utf8::encode_utf8_decode_utf8;
    lemma_bytes_lt_total(vstd::utf8::encode_utf8(a), vstd::utf8::encode_utf8(b));
    if vstd::utf8::encode_utf8(a) == vstd::utf8::encode_utf8(b) {
        vstd::utf8::encode_utf8_decode_utf8(a);
        vstd::utf8::encode_utf8_decode_utf8(b);
    }
}

/// A sorted sequence of texts is determined by its multiset.
pub proof fn lemma_sorted_texts_unique(s1: Seq<Seq<char>>, s2: Seq<Seq<char>>)
    requires
        texts_sorted(s1),
        texts_sorted(s2),
        s1.to_multiset() == s2.to_multiset(),
    ensures
        s1 == s2,
    decreases s1.len(),
{
    broadcast use {vstd::multiset::group_multiset_axioms, vstd::seq_lib::group_to_multiset_ensures};
    vstd::seq_lib::to_multiset_len(s1);
    vstd::seq_lib::to_multiset_len(s2);
    if s1.len() > 0 {
        let a = s1[0];
        let b = s2[0];
        assert(s1.to_multiset().contains(a));
        assert(s2.to_multiset().contains(b));
        assert(s2.contains(a));
        assert(s1.contains(b));
        let j = choose|j: int| 0 <= j < s2.len() && s2[j] == a;
        let k = choose|k: int| 0 <= k < s1.len() && s1[k] == b;
        if j > 0 {
            assert(!text_lt(s2[j], s2[0]));
        }
        if k > 0 {
            assert(!text_lt(s1[k], s1[0]));
        }
        lemma_text_lt_total(a, b);
        assert(a == b);
        vstd::seq_lib::to_multiset_remove(s1, 0);
        vstd::seq_lib::to_multiset_remove(s2, 0);
        assert(s1.remove(0) =~= s1.drop_first());
        assert(s2.remove(0) =~= s2.drop_first());
        lemma_sorted_texts_unique(s1.drop_first(), s2.drop_first());
        assert(s1 =~= seq![a] + s1.drop_first());
        assert(s2 =~= seq![b] + s2.drop_first());
    } else {
        assert(s1 =~= s2);
    }
}

/// `s` with `x` inserted before the first element it sorts before.
pub open spec fn insert_text(s: Seq<Seq<char>>, x: Seq<char>) -> Seq<Seq<char>>
    decreases s.len(),
{
    if s.len() == 0 {
        seq![x]
    } else if text_lt(x, s[0]) {
        seq![x] + s
    } else {
        seq![s[0]] + insert_text(s.drop_first(), x)
    }
}

/// Insertion keeps a sorted sequence sorted and adds `x` to its multiset.
proof fn lemma_insert_text(s: Seq<Seq<char>>, x: Seq<char>)
    requires
        texts_sorted(s),
    ensures
        texts_sorted(insert_text(s, x)),
        insert_text(s, x).to_multiset() == s.to_multiset().insert(x),
        forall|y: Seq<char>| insert_text(s, x).contains(y) ==> y == x || s.contains(y),
    decreases s.len(),
{
    broadcast use {vstd::multiset::group_multiset_axioms, vstd::seq_lib::group_to_multiset_ensures};
    if s.len() == 0 {
        assert(seq![x].to_multiset() =~= Multiset::empty().insert(x)) by {
            assert(seq![x] =~= Seq::<Seq<char>>::empty().push(x));
        }
        assert forall|y: Seq<char>| insert_text(s, x).contains(y) implies y == x || s.contains(y) by {
            assert(insert_text(s, x)[0] == x);
        }
    } else if text_lt(x, s[0]) {
        let r = seq![x] + s;
        assert forall|a: int, b: int| 0 <= a < b < r.len() implies !text_lt(#[trigger] r[b], #[trigger] r[a]) by {
            if a == 0 {
                lemma_text_lt_order(x, s[0], r[b]);
                if b > 1 {
                    assert(!text_lt(s[b - 1], s[0]));
                    lemma_text_lt_order(s[b - 1], x, s[0]);
                } else {
                    lemma_text_lt_order(s[0], x, s[0]);
                }
            } else {
                assert(r[a] == s[a - 1] && r[b] == s[b - 1]);
            }
        }
        assert(r =~= s.insert(0, x));
        vstd::seq_lib::to_multiset_insert(s, 0, x);
        assert forall|y: Seq<char>| r.contains(y) implies y == x || s.contains(y) by {
            let k = choose|k: int| 0 <= k < r.len() && r[k] == y;
            if k > 0 {
                assert(s[k - 1] == y);
            }
        }
    } else {
        let t = s.drop_first();
        assert(texts_sorted(t)) by {
            assert forall|a: int, b: int| 0 <= a < b < t.len() implies !text_lt(#[trigger] t[b], #[trigger] t[a]) by {
                assert(t[a] == s[a + 1] && t[b] == s[b + 1]);
            }
        }
        lemma_insert_text(t, x);
        let it = insert_text(t, x);
        let r = seq![s[0]] + it;
        assert forall|a: int, b: int| 0 <= a < b < r.len() implies !text_lt(#[trigger] r[b], #[trigger] r[a]) by {
            if a == 0 {
                let y = it[b - 1];
                assert(r[b] == y);
                assert(it.contains(y));
                assert(y == x || t.contains(y));
                if y != x {
                    assert(t.contains(y));
                    let k = choose|k: int| 0 <= k < t.len() && t[k] == y;
                    assert(s[k + 1] == t[k]);
                    assert(!text_lt(s[k + 1], s[0]));
                } else {
                    assert(!text_lt(x, s[0]));
                }
            } else {
                assert(r[a] == it[a - 1] && r[b] == it[b - 1]);
            }
        }
        assert(s =~= seq![s[0]] + t);
        vstd::seq_lib::lemma_multiset_commutative(seq![s[0]], t);
        vstd::seq_lib::lemma_multiset_commutative(seq![s[0]], it);
        assert(seq![s[0]].to_multiset() =~= Multiset::empty().insert(s[0])) by {
            assert(seq![s[0]] =~= Seq::<Seq<char>>::empty().push(s[0]));
        }
        assert forall|y: Seq<char>| r.contains(y) implies y == x || s.contains(y) by {
            let k = choose|k: int| 0 <= k < r.len() && r[k] == y;
            if k > 0 {
                let z = it[k - 1];
                assert(z == y);
                assert(it.contains(z));
                assert(z == x || t.contains(z));
                if z != x {
                    assert(t.contains(z));
                    let m = choose|m: int| 0 <= m < t.len() && t[m] == z;
                    assert(s[m + 1] == y);
                }
            } else {
                assert(s[0] == y);
            }
        }
    }
}

/// Insertion sort of texts, as a specification.
pub open spec fn sort_spec(s: Seq<Seq<char>>) -> Seq<Seq<char>>
    decreases s.len(),
{
    if s.len() == 0 {
        seq![]
    } else {
        insert_text(sort_spec(s.drop_last()), s.last())
    }
}

/// Every sequence of texts has an ascending arrangement.
pub proof fn lemma_sorted_texts_exist(s: Seq<Seq<char>>)
    ensures
        sort_spec(s).to_multiset() == s.to_multiset(),
        texts_sorted(sort_spec(s)),
        sorted_texts(s.to_multiset()) == sort_spec(s),
    decreases s.len(),
{
    broadcast use {vstd::multiset::group_multiset_axioms, vstd::seq_lib::group_to_multiset_ensures};
    if s.len() == 0 {
        assert(sort_spec(s).to_multiset() =~= s.to_multiset());
    } else {
        lemma_sorted_texts_exist(s.drop_last());
        lemma_insert_text(sort_spec(s.drop_last()), s.last());
        assert(s =~= s.drop_last().push(s.last()));
    }
    let ms = s.to_multiset();
    assert(exists|t: Seq<Seq<char>>| t.to_multiset() == ms && texts_sorted(t)) by {
        assert(sort_spec(s).to_multiset() == ms && texts_sorted(sort_spec(s)));
    }
    lemma_sorted_texts_unique(sorted_texts(ms), sort_spec(s));
}

/// The ascending arrangement of a multiset of texts.
pub open spec fn sorted_texts(ms: Multiset<Seq<char>>) -> Seq<Seq<char>> {
    choose|s: Seq<Seq<char>>| s.to_multiset() == ms && texts_sorted(s)
}

/// Sorts strings in ascending order (the order of `str`).
pub fn sort_texts(v: Vec<String>) -> (res: Vec<String>)
    ensures
        texts(res@).to_multiset() == texts(v@).to_multiset(),
        texts_sorted(texts(res@)),
        texts(res@) == sorted_texts(texts(v@).to_multiset()),
{
    let out = insertion_sort_texts(v);
    proof {
        let ms = texts(v@).to_multiset();
        assert(exists|s: Seq<Seq<char>>| s.to_multiset() == ms && texts_sorted(s)) by {
            assert(texts(out@).to_multiset() == ms && texts_sorted(texts(out@)));
        }
        lemma_sorted_texts_unique(texts(out@), sorted_texts(ms));
    }
    out
}

#[verifier::rlimit(40)]
fn insertion_sort_texts(v: Vec<String>) -> (res: Vec<String>)
    ensures
        texts(res@).to_multiset() == texts(v@).to_multiset(),
        texts_sorted(texts(res@)),
{
    let mut out: Vec<String> = Vec::new();
    let mut i: usize = 0;
    proof {
        broadcast use vstd::seq_lib::group_to_multiset_ensures;
        assert(texts(out@) =~= texts(v@.subrange(0, 0)));
    }
    while i < v.len()
        invariant
            i <= v.len(),
            texts(out@).to_multiset() == texts(v@.subrange(0, i as int)).to_multiset(),
            texts_sorted(texts(out@)),
        decreases v.len() - i,
    {
        let x = v[i].clone();
        let mut k: usize = 0;
        while k < out.len() && !text_less(x.as_str(), out[k].as_str())
            invariant
                k <= out.len(),
                forall|j: int| 0 <= j < k ==> !text_lt(x@, #[trigger] out@[j]@),
            decreases out.len() - k,
        {
            k = k + 1;
        }
        let ghost before = out@;
        out.insert(k, x);
        proof {
            broadcast use {vstd::multiset::group_multiset_axioms, vstd::seq_lib::group_to_multiset_ensures};
            let tb = texts(before);
            let ta = texts(out@);
            assert(ta =~= tb.insert(k as int, x@));
            assert(texts(v@.subrange(0, i + 1)) =~= texts(v@.subrange(0, i as int)).push(v@[i as int]@));
            vstd::seq_lib::lemma_seq_union_to_multiset_commutative(tb.subrange(0, k as int), tb.subrange(k as int, tb.len() as int));
            assert(tb =~= tb.subrange(0, k as int) + tb.subrange(k as int, tb.len() as int));
            assert(ta =~= tb.subrange(0, k as int).push(x@) + tb.subrange(k as int, tb.len() as int));
            vstd::seq_lib::lemma_multiset_commutative(tb.subrange(0, k as int).push(x@), tb.subrange(k as int, tb.len() as int));
            vstd::seq_lib::lemma_multiset_commutative(tb.subrange(0, k as int), tb.subrange(k as int, tb.len() as int));
            assert(ta.to_multiset() =~= tb.to_multiset().insert(x@));
            assert forall|a: int, b: int| 0 <= a < b < ta.len() implies !text_lt(#[trigger] ta[b], #[trigger] ta[a]) by {
                if a < k && b < k {
                } else if a < k && b == k {
                } else if a < k && b > k {
                    assert(ta[b] == tb[b - 1]);
                    assert(ta[a] == tb[a]);
                } else if a == k {
                    assert(ta[b] == tb[b - 1]);
                    assert(text_lt(x@, tb[k as int]));
                    lemma_text_lt_order(tb[b - 1], x@, tb[k as int]);
                    if b - 1 > k {
                        assert(!text_lt(tb[b - 1], tb[k as int]));
                    }
                } else {
                    assert(ta[b] == tb[b - 1]);
                    assert(ta[a] == tb[a - 1]);
                }
            }
        }
        i = i + 1;
    }
    proof {
        assert(v@.subrange(0, v@.len() as int) =~= v@);
    }
    out
}

/// `leaf_precedes` is irreflexive and transitive.
pub proof fn lemma_leaf_precedes_order(a: LeafView, b: LeafView, c: LeafView)
    ensures
        !leaf_precedes(a, a),
        leaf_precedes(a, b) && leaf_precedes(b, c) ==> leaf_precedes(a, c),
{
    lemma_text_lt_order(a.1, a.1, a.1);
    lemma_text_lt_order(c.1, b.1, a.1);
}

/// `s` with leaf `x` inserted before the first leaf it precedes.
pub open spec fn insert_leaf(s: Seq<LeafView>, x: LeafView) -> Seq<LeafView>
    decreases s.len(),
{
    if s.len() == 0 {
        seq![x]
    } else if leaf_precedes(x, s[0]) {
        seq![x] + s
    } else {
        seq![s[0]] + insert_leaf(s.drop_first(), x)
    }
}

/// Insertion keeps a sorted sequence of leaves sorted and adds `x` to its
/// multiset.
proof fn lemma_insert_leaf(s: Seq<LeafView>, x: LeafView)
    requires
        leaves_sorted(s),
    ensures
        leaves_sorted(insert_leaf(s, x)),
        insert_leaf(s, x).to_multiset() == s.to_multiset().insert(x),
        forall|y: LeafView| insert_leaf(s, x).contains(y) ==> y == x || s.contains(y),
    decreases s.len(),
{
    broadcast use {vstd::multiset::group_multiset_axioms, vstd::seq_lib::group_to_multiset_ensures};
    if s.len() == 0 {
        assert(seq![x].to_multiset() =~= Multiset::empty().insert(x)) by {
            assert(seq![x] =~= Seq::<LeafView>::empty().push(x));
        }
        assert forall|y: LeafView| insert_leaf(s, x).contains(y) implies y == x || s.contains(y) by {
            assert(insert_leaf(s, x)[0] == x);
        }
    } else if leaf_precedes(x, s[0]) {
        let r = seq![x] + s;
        assert forall|a: int, b: int| 0 <= a < b < r.len() implies !leaf_precedes(#[trigger] r[b], #[trigger] r[a]) by {
            if a == 0 {
                lemma_leaf_precedes_order(s[0], x, s[0]);
                if b > 1 {
                    assert(!leaf_precedes(s[b - 1], s[0]));
                    lemma_leaf_precedes_order(s[b - 1], x, s[0]);
                }
            } else {
                assert(r[a] == s[a - 1] && r[b] == s[b - 1]);
            }
        }
        assert(r =~= s.insert(0, x));
        vstd::seq_lib::to_multiset_insert(s, 0, x);
        assert forall|y: LeafView| r.contains(y) implies y == x || s.contains(y) by {
            let k = choose|k: int| 0 <= k < r.len() && r[k] == y;
            if k > 0 {
                assert(s[k - 1] == y);
            }
        }
    } else {
        let t = s.drop_first();
        assert(leaves_sorted(t)) by {
            assert forall|a: int, b: int| 0 <= a < b < t.len() implies !leaf_precedes(#[trigger] t[b], #[trigger] t[a]) by {
                assert(t[a] == s[a + 1] && t[b] == s[b + 1]);
            }
        }
        lemma_insert_leaf(t, x);
        let it = insert_leaf(t, x);
        let r = seq![s[0]] + it;
        assert forall|a: int, b: int| 0 <= a < b < r.len() implies !leaf_precedes(#[trigger] r[b], #[trigger] r[a]) by {
            if a == 0 {
                let y = it[b - 1];
                assert(r[b] == y);
                assert(it.contains(y));
                if y != x {
                    assert(t.contains(y));
                    let k = choose|k: int| 0 <= k < t.len() && t[k] == y;
                    assert(s[k + 1] == t[k]);
                    assert(!leaf_precedes(s[k + 1], s[0]));
                }
            } else {
                assert(r[a] == it[a - 1] && r[b] == it[b - 1]);
            }
        }
        assert(s =~= seq![s[0]] + t);
        vstd::seq_lib::lemma_multiset_commutative(seq![s[0]], t);
        vstd::seq_lib::lemma_multiset_commutative(seq![s[0]], it);
        assert(seq![s[0]].to_multiset() =~= Multiset::empty().insert(s[0])) by {
            assert(seq![s[0]] =~= Seq::<LeafView>::empty().push(s[0]));
        }
        assert forall|y: LeafView| r.contains(y) implies y == x || s.contains(y) by {
            let k = choose|k: int| 0 <= k < r.len() && r[k] == y;
            if k > 0 {
                let z = it[k - 1];
                assert(it.contains(z));
                if z != x {
                    assert(t.contains(z));
                    let m = choose|m: int| 0 <= m < t.len() && t[m] == z;
                    assert(s[m + 1] == y);
                }
            } else {
                assert(s[0] == y);
            }
        }
    }
}

/// Every multiset of leaves has an arrangement in sorting order.
pub proof fn lemma_leaves_sortable(m: Multiset<LeafView>)
    ensures
        exists|s: Seq<LeafView>| s.to_multiset() == m && leaves_sorted(s),
    decreases m.len(),
{
    broadcast use {vstd::multiset::group_multiset_axioms, vstd::seq_lib::group_to_multiset_ensures};
    if m.len() == 0 {
        let e = Seq::<LeafView>::empty();
        assert(e.to_multiset() =~= m);
        assert(leaves_sorted(e));
    } else {
        let x = m.choose();
        let rest = m.remove(x);
        assert(rest.len() == m.len() - 1);
        lemma_leaves_sortable(rest);
        let s0 = choose|s: Seq<LeafView>| s.to_multiset() == rest && leaves_sorted(s);
        lemma_insert_leaf(s0, x);
        assert(rest.insert(x) =~= m);
        assert(insert_leaf(s0, x).to_multiset() == m && leaves_sorted(insert_leaf(s0, x)));
    }
}

} // verus!
