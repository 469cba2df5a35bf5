//! Laws of the adaptive Huffman tree: how the weights of its leaves change.

use crate::io::huffman;
use crate::io::huffman::TreeView;
use vstd::prelude::*;

verus! {

/// The leaf at node `j` is found by its code.
proof fn lemma_leaf_weight(t: TreeView, j: int, code: int)
    requires
        t.wf(),
        0 <= code < 314,
        0 <= j < 627,
        t.son[j] == code + 627,
    ensures
        t.owner(code + 627) == j,
        t.leaf_weight(code) == t.freq[j],
{
    assert(t.owns(j, code + 627));
    huffman::lemma_owner_unique(t, j, code + 627);
}

/// Where the leaf at node `j` stands among the leaves of the first `n` nodes.
proof fn lemma_leaf_halved(t: TreeView, n: int, j: int) -> (a: int)
    requires
        t.wf(),
        0 <= j < n <= 627,
        t.son[j] >= 627,
    ensures
        0 <= a < t.leaves(n).son.len(),
        t.leaves(n).son[a] == t.son[j],
        t.leaves(n).freq[a] == (t.freq[j] + 1) / 2,
    decreases n,
{
    huffman::lemma_leaves(t, n);
    huffman::lemma_leaves(t, n - 1);
    if j == n - 1 {
        t.leaves(n - 1).son.len() as int
    } else {
        lemma_leaf_halved(t, n - 1, j)
    }
}

/// Where the leaf at node `a` stands when all nodes have been paired off.
proof fn lemma_leaf_grown(t: TreeView, i: int, a: int) -> (b: int)
    requires
        t.growing(i),
        0 <= a < t.son.len(),
        t.son[a] >= 627,
    ensures
        0 <= b < t.grow(i).son.len(),
        t.grow(i).son[b] == t.son[a],
        t.grow(i).freq[b] == t.freq[a],
    decreases 627 - t.freq.len(),
{
    if t.freq.len() < 627 {
        huffman::lemma_grow_step(t, i);
        let f = t.freq[i] + t.freq[i + 1];
        let k = huffman::slot(t.freq, f);
        let t2 = TreeView { freq: t.freq.insert(k, f), son: t.son.insert(k, i) };
        let a2 = if a < k { a } else { a + 1 };
        lemma_leaf_grown(t2, i + 2, a2)
    } else {
        a
    }
}

/// Rebuilding loses no leaf and halves the weight of each, rounded up.
pub proof fn law_rebuilding_halves(t: TreeView, code: int)
    requires
        t.wf(),
        0 <= code < 314,
    ensures
        t.rebuilt().wf(),
        t.rebuilt().son.contains(code + 627),
        t.rebuilt().leaf_weight(code) == (t.leaf_weight(code) + 1) / 2,
{
    huffman::lemma_rebuilt_wf(t);
    huffman::lemma_leaves_growing(t);
    huffman::lemma_owner(t, code + 627);
    let j = t.owner(code + 627);
    let a = lemma_leaf_halved(t, 627, j);
    let b = lemma_leaf_grown(t.leaves(627), 0, a);
    lemma_leaf_weight(t.rebuilt(), b, code);
}

/// Where the leaf at node `j` stands after node `n` and all above it have been counted.
proof fn lemma_leaf_raised(t: TreeView, n: int, j: int) -> (b: int)
    requires
        t.raising(n),
        0 <= j < 627,
        t.son[j] >= 627,
    ensures
        0 <= b < 627,
        t.raise(n).son[b] == t.son[j],
        t.raise(n).freq[b] == t.freq[j] + (if j == n { 1int } else { 0 }),
    decreases 627 - n,
{
    huffman::lemma_raise_step(t, n);
    huffman::lemma_leader(t.freq, n);
    let m = huffman::leader(t.freq, n);
    let t2 = t.stepped(n);
    let moved = if j == n { m } else if j == m { n } else { j };
    assert(t2.son[moved] == t.son[j]);
    assert(t2.freq[moved] == t.freq[j] + (if j == n { 1int } else { 0 }));
    if m < 626 {
        let up = t2.owner(m);
        assert(t2.owns(up, m));
        assert(moved != up);
        lemma_leaf_raised(t2, up, moved)
    } else {
        moved
    }
}

/// A use of a code adds 1 to the weight of its leaf and leaves all other leaves as they were,
/// once their weights have been halved where the tree is full.
pub proof fn law_update_counts_one_leaf(t: TreeView, code: int, other: int)
    requires
        t.wf(),
        0 <= code < 314,
        0 <= other < 314,
    ensures
        t.updated(code).wf(),
        ({
            let before = if t.freq[626] == 0x8000 { t.rebuilt() } else { t };
            t.updated(code).leaf_weight(other) == before.leaf_weight(other) + (if other == code { 1int } else { 0 })
        }),
        t.freq[626] == 0x8000 ==> t.rebuilt().leaf_weight(other) == (t.leaf_weight(other) + 1) / 2,
{
    let before = if t.freq[626] == 0x8000 { t.rebuilt() } else { t };
    huffman::lemma_rebuilt_wf(t);
    huffman::lemma_updated_wf(t, code);
    law_rebuilding_halves(t, other);
    huffman::lemma_leaf_raising(before, code);
    huffman::lemma_owner(before, other + 627);
    let n = before.owner(code + 627);
    let j = before.owner(other + 627);
    let b = lemma_leaf_raised(before, n, j);
    lemma_leaf_weight(t.updated(code), b, other);
}

/// Counting node `n` changes nothing below it.
proof fn lemma_raise_keeps(t: TreeView, n: int, j: int)
    requires
        t.raising(n),
        0 <= j < n,
    ensures
        t.raise(n).son[j] == t.son[j],
        t.raise(n).freq[j] == t.freq[j],
    decreases 627 - n,
{
    huffman::lemma_raise_step(t, n);
    huffman::lemma_leader(t.freq, n);
    let m = huffman::leader(t.freq, n);
    let t2 = t.stepped(n);
    if m < 626 {
        let up = t2.owner(m);
        lemma_raise_keeps(t2, up, j);
    }
}

/// The leaf that is counted stands last among the nodes that weighed as much as it did.
proof fn lemma_leaf_leads(t: TreeView, n: int) -> (m: int)
    requires
        t.raising(n),
    ensures
        n <= m < 627,
        t.freq[m] == t.freq[n],
        m < 626 ==> t.freq[m + 1] > t.freq[n],
        t.raise(n).son[m] == t.son[n],
{
    huffman::lemma_raise_step(t, n);
    huffman::lemma_leader(t.freq, n);
    let m = huffman::leader(t.freq, n);
    let t2 = t.stepped(n);
    if m < 626 {
        let up = t2.owner(m);
        lemma_raise_keeps(t2, up, m);
    }
    m
}

/// A code that is used moves behind all nodes that weighed as much as its leaf, so that the next
/// node is heavier.
pub proof fn law_used_leaf_moves_up(t: TreeView, code: int) -> (m: int)
    requires
        t.wf(),
        0 <= code < 314,
    ensures
        ({
            let before = if t.freq[626] == 0x8000 { t.rebuilt() } else { t };
            &&& 0 <= m < 627
            &&& before.freq[m] == before.leaf_weight(code)
            &&& m < 626 ==> before.freq[m + 1] > before.leaf_weight(code)
            &&& t.updated(code).son[m] == code + 627
            &&& t.updated(code).freq[m] == before.leaf_weight(code) + 1
        }),
{
    let before = if t.freq[626] == 0x8000 { t.rebuilt() } else { t };
    huffman::lemma_rebuilt_wf(t);
    huffman::lemma_updated_wf(t, code);
    huffman::lemma_leaf_raising(before, code);
    huffman::lemma_owner(before, code + 627);
    let n = before.owner(code + 627);
    let m = lemma_leaf_leads(before, n);
    law_update_counts_one_leaf(t, code, code);
    lemma_leaf_weight(t.updated(code), m, code);
    m
}

/// Where nothing is heavier than the next pair, pairs are put at the end.
proof fn lemma_grow_appends(t: TreeView, i: int)
    requires
        t.growing(i),
        t.freq.len() < 627 ==> t.freq.last() <= t.freq[i] + t.freq[i + 1],
    ensures
        t.grow(i).son.len() == 627,
        forall|j: int|
            0 <= j < 627 ==> #[trigger] t.grow(i).son[j] == (if j < t.son.len() { t.son[j] } else { i + 2 * (j - t.son.len()) }),
    decreases 627 - t.freq.len(),
{
    if t.freq.len() < 627 {
        huffman::lemma_grow_step(t, i);
        let f = t.freq[i] + t.freq[i + 1];
        let k = huffman::slot(t.freq, f);
        assert(k == t.freq.len());
        let t2 = TreeView { freq: t.freq.insert(k, f), son: t.son.insert(k, i) };
        assert(t2.freq =~= t.freq.push(f));
        assert(t2.son =~= t.son.push(i));
        if t2.freq.len() < 627 {
            assert(t2.freq[i] <= t2.freq[i + 2] && t2.freq[i + 1] <= t2.freq[i + 3]);
        }
        lemma_grow_appends(t2, i + 2);
    }
}

/// At the start all codes weigh 1 and stand in their order, and behind them the pairs, the
/// first two nodes first.
pub proof fn law_initial_tree(j: int, code: int)
    requires
        0 <= j < 627,
        0 <= code < 314,
    ensures
        TreeView::initial().wf(),
        TreeView::initial().son[j] == (if j < 314 { j + 627 } else { 2 * (j - 314) }),
        TreeView::initial().leaf_weight(code) == 1,
{
    let start = TreeView { freq: Seq::new(314, |i: int| 1), son: Seq::new(314, |i: int| i + 627) };
    huffman::lemma_initial_wf();
    huffman::lemma_initial_growing();
    lemma_grow_appends(start, 0);
    let b = lemma_leaf_grown(start, 0, code);
    lemma_leaf_weight(TreeView::initial(), b, code);
}

/// Where two leaves stand among the leaves of the first `n` nodes: in the same order.
proof fn lemma_leaves_in_order(t: TreeView, n: int, i: int, j: int) -> (r: (int, int))
    requires
        t.wf(),
        0 <= i < j < n <= 627,
        t.son[i] >= 627,
        t.son[j] >= 627,
    ensures
        0 <= r.0 < r.1 < t.leaves(n).son.len(),
        t.leaves(n).son[r.0] == t.son[i],
        t.leaves(n).son[r.1] == t.son[j],
    decreases n,
{
    huffman::lemma_leaves(t, n);
    huffman::lemma_leaves(t, n - 1);
    if j == n - 1 {
        let a = lemma_leaf_halved(t, n - 1, i);
        (a, t.leaves(n - 1).son.len() as int)
    } else {
        lemma_leaves_in_order(t, n - 1, i, j)
    }
}

/// Where two leaves stand when all nodes have been paired off: in the same order.
proof fn lemma_grown_in_order(t: TreeView, i: int, a: int, b: int) -> (r: (int, int))
    requires
        t.growing(i),
        0 <= a < b < t.son.len(),
        t.son[a] >= 627,
        t.son[b] >= 627,
    ensures
        0 <= r.0 < r.1 < t.grow(i).son.len(),
        t.grow(i).son[r.0] == t.son[a],
        t.grow(i).son[r.1] == t.son[b],
    decreases 627 - t.freq.len(),
{
    if t.freq.len() < 627 {
        huffman::lemma_grow_step(t, i);
        let f = t.freq[i] + t.freq[i + 1];
        let k = huffman::slot(t.freq, f);
        let t2 = TreeView { freq: t.freq.insert(k, f), son: t.son.insert(k, i) };
        lemma_grown_in_order(t2, i + 2, if a < k { a } else { a + 1 }, if b < k { b } else { b + 1 })
    } else {
        (a, b)
    }
}

/// Whether pairs stand behind the leaves that weigh as much, and in the order in which they were
/// made.
pub open spec fn settled(t: TreeView) -> bool {
    &&& forall|p: int, q: int|
        0 <= p < t.son.len() && 0 <= q < t.son.len() && #[trigger] t.son[p] >= 627 && #[trigger] t.son[q] < 627 && t.freq[p]
            == t.freq[q] ==> p < q
    &&& forall|p: int, q: int|
        0 <= p < q < t.son.len() && #[trigger] t.son[p] < 627 && #[trigger] t.son[q] < 627 ==> t.son[p] < t.son[q]
}

proof fn lemma_grow_settles(t: TreeView, i: int)
    requires
        t.growing(i),
        settled(t),
        forall|q: int|
            0 <= q < t.son.len() && #[trigger] t.son[q] < 627 ==> t.son[q] < i && (t.freq.len() < 627 ==> t.freq[q] <= t.freq[i]
                + t.freq[i + 1]),
    ensures
        settled(t.grow(i)),
    decreases 627 - t.freq.len(),
{
    if t.freq.len() < 627 {
        huffman::lemma_grow_step(t, i);
        let f = t.freq[i] + t.freq[i + 1];
        huffman::lemma_slot(t.freq, f);
        let k = huffman::slot(t.freq, f);
        let t2 = TreeView { freq: t.freq.insert(k, f), son: t.son.insert(k, i) };
        assert forall|p: int| 0 <= p < t2.son.len() implies #[trigger] t2.son[p] == (if p < k {
            t.son[p]
        } else if p == k {
            i
        } else {
            t.son[p - 1]
        }) && t2.freq[p] == (if p < k {
            t.freq[p]
        } else if p == k {
            f
        } else {
            t.freq[p - 1]
        }) by {}
        assert forall|p: int, q: int|
            0 <= p < t2.son.len() && 0 <= q < t2.son.len() && #[trigger] t2.son[p] >= 627 && #[trigger] t2.son[q] < 627 && t2.freq[p]
                == t2.freq[q] implies p < q by {
            let x = if p < k { p } else { p - 1 };
            let y = if q < k { q } else { q - 1 };
            assert(t2.son[p] == t.son[x]);
            if q != k {
                assert(t2.son[q] == t.son[y]);
                assert(t.freq[x] == t.freq[y]);
                assert(x < y);
            }
        }
        assert forall|p: int, q: int| 0 <= p < q < t2.son.len() && #[trigger] t2.son[p] < 627 && #[trigger] t2.son[q] < 627 implies t2.son[p]
            < t2.son[q] by {
            let x = if p < k { p } else { p - 1 };
            let y = if q < k { q } else { q - 1 };
            if q != k {
                assert(t2.son[q] == t.son[y]);
            }
            if p != k {
                assert(t2.son[p] == t.son[x]);
            }
            if p == k {
                assert(t.freq[y] > f);
            }
        }
        assert forall|q: int| 0 <= q < t2.son.len() && #[trigger] t2.son[q] < 627 implies t2.son[q] < i + 2 && (t2.freq.len() < 627
            ==> t2.freq[q] <= t2.freq[i + 2] + t2.freq[i + 3]) by {
            if q != k {
                let y = if q < k { q } else { q - 1 };
                assert(t2.son[q] == t.son[y]);
            }
            assert(t2.freq[q] <= f);
            if t2.freq.len() < 627 {
                assert(t2.freq[i] == t.freq[i] && t2.freq[i + 1] == t.freq[i + 1]);
                assert(t2.freq[i] <= t2.freq[i + 2] && t2.freq[i + 1] <= t2.freq[i + 3]);
            }
        }
        lemma_grow_settles(t2, i + 2);
    }
}

/// Rebuilding keeps the leaves in their order. Each pair stands behind the leaves that weigh as
/// much, and pairs stand in the order of the nodes that they are made of.
pub proof fn law_rebuilding_keeps_order(t: TreeView, a: int, b: int)
    requires
        t.wf(),
        0 <= a < 314,
        0 <= b < 314,
        t.owner(a + 627) < t.owner(b + 627),
    ensures
        t.rebuilt().wf(),
        t.rebuilt().owner(a + 627) < t.rebuilt().owner(b + 627),
        settled(t.rebuilt()),
{
    huffman::lemma_rebuilt_wf(t);
    huffman::lemma_leaves_growing(t);
    huffman::lemma_leaves(t, 627);
    huffman::lemma_owner(t, a + 627);
    huffman::lemma_owner(t, b + 627);
    let (x, y) = lemma_leaves_in_order(t, 627, t.owner(a + 627), t.owner(b + 627));
    let (p, q) = lemma_grown_in_order(t.leaves(627), 0, x, y);
    lemma_leaf_weight(t.rebuilt(), p, a);
    lemma_leaf_weight(t.rebuilt(), q, b);
    lemma_grow_settles(t.leaves(627), 0);
}

}
