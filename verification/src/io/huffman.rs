//! The adaptive Huffman tree of the LZHUF method.
//!
//! The tree has 314 leaves (256 literal bytes and 58 match lengths) and is kept
//! as a list of 627 nodes in order of weight. The two children of an inner node
//! stand side by side, so one index names both.

use crate::io::huffman_laws;
use vstd::prelude::*;

verus! {

/// Number of codes, and so of leaves.
pub const LEAF_COUNT: usize = 314;

/// Number of nodes.
pub const NODE_COUNT: usize = 627;

/// Index of the root: the heaviest node comes last.
pub const ROOT: usize = 626;

/// Upper bound of the child values: the leaf of code `c` is written `c + 627`.
pub const CHILD_LIMIT: usize = 941;

/// Weight of the root at which all weights are halved.
pub const MAX_WEIGHT: u16 = 0x8000;

/// The sum of a list of weights.
pub open spec fn total(w: Seq<int>) -> int
    decreases w.len(),
{
    if w.len() == 0 {
        0
    } else {
        total(w.drop_last()) + w.last()
    }
}

/// The mathematical tree: the weight of each node, and what hangs below it
/// (the index of the first of two children, or a leaf).
#[verifier::ext_equal]
pub struct TreeView {
    pub freq: Seq<int>,
    pub son: Seq<int>,
}

/// Where a node of weight `f` joins a list ordered by weight: behind the last
/// node that is not heavier.
pub open spec fn slot(freq: Seq<int>, f: int) -> int
    decreases freq.len(),
{
    if freq.len() == 0 {
        0
    } else if freq.last() <= f {
        freq.len() as int
    } else {
        slot(freq.drop_last(), f)
    }
}

/// The last node of the run of nodes that weigh as much as node `n`.
pub open spec fn leader(freq: Seq<int>, n: int) -> int
    decreases freq.len() - n,
{
    if 0 <= n && n + 1 < freq.len() && freq[n + 1] == freq[n] {
        leader(freq, n + 1)
    } else {
        n
    }
}

impl TreeView {
    /// Pairs off the nodes from index `i` on, lightest first, until the list is
    /// a whole tree.
    pub open spec fn grow(self, i: int) -> TreeView
        decreases 627 - self.freq.len(),
    {
        if self.freq.len() >= 627 || i < 0 || i + 1 >= self.freq.len() {
            self
        } else {
            let f = self.freq[i] + self.freq[i + 1];
            let k = slot(self.freq, f);
            proof {
                lemma_slot_range(self.freq, f);
            }
            TreeView { freq: self.freq.insert(k, f), son: self.son.insert(k, i) }.grow(i + 2)
        }
    }

    /// The tree in which every code has been seen once.
    pub open spec fn initial() -> TreeView {
        TreeView {
            freq: Seq::new(314, |i: int| 1),
            son: Seq::new(314, |i: int| i + 627),
        }.grow(0)
    }

    /// The leaves among the first `n` nodes, each with half its weight (rounded up).
    pub open spec fn leaves(self, n: int) -> TreeView
        decreases n,
    {
        if n <= 0 {
            TreeView { freq: Seq::empty(), son: Seq::empty() }
        } else {
            let rest = self.leaves(n - 1);
            if self.son[n - 1] >= 627 {
                TreeView {
                    freq: rest.freq.push((self.freq[n - 1] + 1) / 2),
                    son: rest.son.push(self.son[n - 1]),
                }
            } else {
                rest
            }
        }
    }

    /// The tree built anew from its leaves, with halved weights.
    pub open spec fn rebuilt(self) -> TreeView {
        self.leaves(627).grow(0)
    }

    /// The node below which the node or leaf `x` hangs.
    pub open spec fn owner(self, x: int) -> int {
        choose|j: int| self.owns(j, x)
    }

    /// Whether `x` is a leaf or one of two children of node `j`.
    pub open spec fn owns(self, j: int, x: int) -> bool {
        &&& 0 <= j < self.son.len()
        &&& self.son[j] == x || (self.son[j] < 627 && self.son[j] + 1 == x)
    }

    /// One more use of node `n`: it trades places with the last node of equal
    /// weight and is counted there; the same then befalls the node above.
    pub open spec fn raise(self, n: int) -> TreeView
        decreases 627 - n,
    {
        let next = self.stepped(n);
        let m = leader(self.freq, n);
        let up = next.owner(m);
        if 0 <= n <= m < 626 && m < up < 627 {
            next.raise(up)
        } else {
            next
        }
    }

    /// The first step of `raise`.
    pub open spec fn stepped(self, n: int) -> TreeView {
        let m = leader(self.freq, n);
        TreeView {
            freq: self.freq.update(m, self.freq[m] + 1),
            son: self.son.update(n, self.son[m]).update(m, self.son[n]),
        }
    }

    /// The tree after code `c` has been decoded.
    pub open spec fn updated(self, c: int) -> TreeView {
        let t = if self.freq[626] == 0x8000 { self.rebuilt() } else { self };
        t.raise(t.owner(c + 627))
    }

    /// The weights of the leaves, with 0 for the inner nodes.
    pub open spec fn leaf_weights(self) -> Seq<int> {
        Seq::new(self.freq.len(), |j: int| if self.son[j] >= 627 { self.freq[j] } else { 0int })
    }

    /// The weight of the leaf of a code.
    pub open spec fn leaf_weight(self, code: int) -> int {
        self.freq[self.owner(code + 627)]
    }

    /// Ordered by weight, with no weight below 1.
    pub open spec fn ordered(self) -> bool {
        &&& self.freq.len() == self.son.len()
        &&& forall|j: int| 0 <= j < self.freq.len() ==> #[trigger] self.freq[j] >= 1
        &&& forall|i: int, j: int| 0 <= i <= j < self.freq.len() ==> self.freq[i] <= self.freq[j]
    }

    /// Inner nodes point to pairs before them and below `limit`; nothing hangs
    /// below two nodes.
    pub open spec fn linked(self, limit: int) -> bool {
        &&& forall|j: int| 0 <= j < self.son.len() ==> {
            ||| 627 <= #[trigger] self.son[j] < 941
            ||| 0 <= self.son[j] < limit && self.son[j] % 2 == 0 && self.son[j] + 1 < j
        }
        &&& forall|i: int, j: int| 0 <= i < self.son.len() && 0 <= j < self.son.len()
            && self.son[i] == self.son[j] ==> i == j
    }

    /// Every pair below `limit`, and every leaf, hangs below some node.
    pub open spec fn complete(self, limit: int) -> bool {
        &&& forall|x: int| 0 <= x < limit && x % 2 == 0 ==> #[trigger] self.son.contains(x)
        &&& forall|x: int| 627 <= x < 941 ==> #[trigger] self.son.contains(x)
    }

    /// The children of `j` weigh `extra` more than `j` records.
    pub open spec fn balanced_at(self, j: int, extra: int) -> bool {
        self.son[j] < 627 ==> self.freq[j] + extra == self.freq[self.son[j]]
            + self.freq[self.son[j] + 1]
    }

    /// A well-formed tree: ordered by weight, every inner node as heavy as its two
    /// children, every code at exactly one leaf, the root as heavy as all leaves.
    pub open spec fn wf(self) -> bool {
        &&& self.freq.len() == 627
        &&& self.ordered()
        &&& self.linked(626)
        &&& self.complete(626)
        &&& forall|j: int| 0 <= j < 627 ==> #[trigger] self.balanced_at(j, 0)
        &&& total(self.leaf_weights()) == self.freq[626]
        &&& self.freq[626] <= 0x8000
    }

    /// A tree in which the use of a leaf has been counted everywhere below node
    /// `n`, but not yet at `n` or above it.
    pub open spec fn raising(self, n: int) -> bool {
        &&& 0 <= n < 627
        &&& self.freq.len() == 627
        &&& self.ordered()
        &&& self.linked(626)
        &&& self.complete(626)
        &&& forall|j: int| 0 <= j < 627 && j != n ==> #[trigger] self.balanced_at(j, 0)
        &&& self.balanced_at(n, 1)
        &&& total(self.leaf_weights()) == self.freq[626] + (if self.son[n] >= 627 { 0int } else { 1 })
        &&& self.freq[626] < 0x8000
    }

    /// A list of nodes whose first `i` have been paired off.
    pub open spec fn growing(self, i: int) -> bool {
        &&& 314 <= self.freq.len() <= 627
        &&& i == 2 * (self.freq.len() - 314)
        &&& self.ordered()
        &&& self.linked(i)
        &&& self.complete(i)
        &&& forall|j: int| 0 <= j < self.freq.len() ==> #[trigger] self.balanced_at(j, 0)
        &&& total(self.leaf_weights()) == total(self.freq.subrange(i, self.freq.len() as int))
    }
}

pub proof fn lemma_total_update(w: Seq<int>, i: int, v: int)
    requires
        0 <= i < w.len(),
    ensures
        total(w.update(i, v)) == total(w) - w[i] + v,
    decreases w.len(),
{
    if i == w.len() - 1 {
        assert(w.update(i, v).drop_last() =~= w.drop_last());
    } else {
        assert(w.update(i, v).drop_last() =~= w.drop_last().update(i, v));
        lemma_total_update(w.drop_last(), i, v);
    }
}

pub proof fn lemma_total_insert(w: Seq<int>, i: int, v: int)
    requires
        0 <= i <= w.len(),
    ensures
        total(w.insert(i, v)) == total(w) + v,
    decreases w.len(),
{
    if i == w.len() {
        assert(w.insert(i, v).drop_last() =~= w);
    } else {
        assert(w.insert(i, v).drop_last() =~= w.drop_last().insert(i, v));
        lemma_total_insert(w.drop_last(), i, v);
    }
}

pub proof fn lemma_total_bound(w: Seq<int>)
    requires
        forall|j: int| 0 <= j < w.len() ==> #[trigger] w[j] >= 0,
    ensures
        total(w) >= 0,
        forall|j: int| 0 <= j < w.len() ==> #[trigger] w[j] <= total(w),
    decreases w.len(),
{
    if w.len() > 0 {
        lemma_total_bound(w.drop_last());
        assert forall|j: int| 0 <= j < w.len() implies #[trigger] w[j] <= total(w) by {
            if j < w.len() - 1 {
                assert(w.drop_last()[j] == w[j]);
            }
        }
    }
}

pub proof fn lemma_slot_range(freq: Seq<int>, f: int)
    ensures
        0 <= slot(freq, f) <= freq.len(),
    decreases freq.len(),
{
    if freq.len() > 0 && freq.last() > f {
        lemma_slot_range(freq.drop_last(), f);
    }
}

pub proof fn lemma_slot(freq: Seq<int>, f: int)
    requires
        forall|i: int, j: int| 0 <= i <= j < freq.len() ==> freq[i] <= freq[j],
    ensures
        0 <= slot(freq, f) <= freq.len(),
        forall|j: int| 0 <= j < slot(freq, f) ==> #[trigger] freq[j] <= f,
        forall|j: int| slot(freq, f) <= j < freq.len() ==> #[trigger] freq[j] > f,
    decreases freq.len(),
{
    if freq.len() > 0 && freq.last() > f {
        lemma_slot(freq.drop_last(), f);
        assert forall|j: int| 0 <= j < slot(freq, f) implies #[trigger] freq[j] <= f by {
            assert(freq.drop_last()[j] == freq[j]);
        }
        assert forall|j: int| slot(freq, f) <= j < freq.len() implies #[trigger] freq[j] > f by {
            if j < freq.len() - 1 {
                assert(freq.drop_last()[j] == freq[j]);
            }
        }
    }
}

pub proof fn lemma_leader(freq: Seq<int>, n: int)
    requires
        0 <= n < freq.len(),
        forall|i: int, j: int| 0 <= i <= j < freq.len() ==> freq[i] <= freq[j],
    ensures
        n <= leader(freq, n) < freq.len(),
        freq[leader(freq, n)] == freq[n],
        forall|j: int| leader(freq, n) < j < freq.len() ==> #[trigger] freq[j] > freq[n],
    decreases freq.len() - n,
{
    if n + 1 < freq.len() && freq[n + 1] == freq[n] {
        lemma_leader(freq, n + 1);
    }
}

/// One more pair keeps a list of nodes in shape.
pub proof fn lemma_grow_step(t: TreeView, i: int)
    requires
        t.growing(i),
        t.freq.len() < 627,
    ensures
        ({
            let f = t.freq[i] + t.freq[i + 1];
            let k = slot(t.freq, f);
            let t2 = TreeView { freq: t.freq.insert(k, f), son: t.son.insert(k, i) };
            &&& i + 1 < k <= t.freq.len()
            &&& f <= total(t.leaf_weights())
            &&& t2.growing(i + 2)
            &&& total(t2.leaf_weights()) == total(t.leaf_weights())
        }),
{
    let n = t.freq.len() as int;
    let f = t.freq[i] + t.freq[i + 1];
    let k = slot(t.freq, f);
    let t2 = TreeView { freq: t.freq.insert(k, f), son: t.son.insert(k, i) };
    lemma_slot(t.freq, f);
    assert(t.freq[i + 1] <= f);
    assert(k > i + 1);
    assert forall|a: int, b: int| 0 <= a <= b < t2.freq.len() implies t2.freq[a] <= t2.freq[b] by {
        assert(t2.freq[a] == if a < k { t.freq[a] } else if a == k { f } else { t.freq[a - 1] });
        assert(t2.freq[b] == if b < k { t.freq[b] } else if b == k { f } else { t.freq[b - 1] });
    }
    assert forall|j: int| 0 <= j < t2.freq.len() implies #[trigger] t2.freq[j] >= 1 by {
        assert(t2.freq[j] == if j < k { t.freq[j] } else if j == k { f } else { t.freq[j - 1] });
    }
    assert forall|j: int| 0 <= j < t2.son.len() implies {
        ||| 627 <= #[trigger] t2.son[j] < 941
        ||| 0 <= t2.son[j] < i + 2 && t2.son[j] % 2 == 0 && t2.son[j] + 1 < j
    } by {
        assert(t2.son[j] == if j < k { t.son[j] } else if j == k { i } else { t.son[j - 1] });
    }
    assert forall|a: int, b: int| 0 <= a < t2.son.len() && 0 <= b < t2.son.len()
        && t2.son[a] == t2.son[b] implies a == b by {
        assert(t2.son[a] == if a < k { t.son[a] } else if a == k { i } else { t.son[a - 1] });
        assert(t2.son[b] == if b < k { t.son[b] } else if b == k { i } else { t.son[b - 1] });
    }
    assert forall|x: int| t.son.contains(x) || x == i implies #[trigger] t2.son.contains(x) by {
        if x == i {
            assert(t2.son[k] == i);
        } else {
            let j = choose|j: int| 0 <= j < t.son.len() && t.son[j] == x;
            let j2 = if j < k { j } else { j + 1 };
            assert(t2.son[j2] == x);
        }
    }
    assert(t2.complete(i + 2)) by {
        assert forall|x: int| 0 <= x < i + 2 && x % 2 == 0 implies #[trigger] t2.son.contains(x) by {
            if x < i {
                assert(t.son.contains(x));
            }
        }
        assert forall|x: int| 627 <= x < 941 implies #[trigger] t2.son.contains(x) by {
            assert(t.son.contains(x));
        }
    }
    assert forall|j: int| 0 <= j < t2.freq.len() implies #[trigger] t2.balanced_at(j, 0) by {
        let old_j = if j < k { j } else { j - 1 };
        if j != k {
            assert(t.balanced_at(old_j, 0));
            assert(t2.son[j] == t.son[old_j]);
            assert(t2.freq[j] == t.freq[old_j]);
        }
        if t2.son[j] < 627 {
            let c = t2.son[j];
            assert(c + 1 < k);
            assert(t2.freq[c] == t.freq[c] && t2.freq[c + 1] == t.freq[c + 1]);
        }
    }
    assert(t2.leaf_weights() =~= t.leaf_weights().insert(k, 0int));
    lemma_total_insert(t.leaf_weights(), k, 0);
    let s = t.freq.subrange(i, n);
    let s1 = t.freq.subrange(i + 1, n);
    let s2 = t.freq.subrange(i + 2, n);
    assert(s =~= s1.insert(0, t.freq[i]));
    assert(s1 =~= s2.insert(0, t.freq[i + 1]));
    lemma_total_insert(s1, 0, t.freq[i]);
    lemma_total_insert(s2, 0, t.freq[i + 1]);
    assert(t2.freq.subrange(i + 2, n + 1) =~= s2.insert(k - (i + 2), f));
    lemma_total_insert(s2, k - (i + 2), f);
    assert forall|j: int| 0 <= j < s2.len() implies #[trigger] s2[j] >= 0 by {
        assert(s2[j] == t.freq[j + i + 2]);
    }
    lemma_total_bound(s2);
}

/// A list of leaves grows into a well-formed tree.
pub proof fn lemma_grow(t: TreeView, i: int)
    requires
        t.growing(i),
        total(t.leaf_weights()) <= 0x8000,
    ensures
        t.grow(i).wf(),
        t.grow(i).freq[626] == total(t.leaf_weights()),
    decreases 627 - t.freq.len(),
{
    if t.freq.len() < 627 {
        lemma_grow_step(t, i);
        let f = t.freq[i] + t.freq[i + 1];
        let k = slot(t.freq, f);
        lemma_grow(TreeView { freq: t.freq.insert(k, f), son: t.son.insert(k, i) }, i + 2);
    } else {
        let s = t.freq.subrange(626, 627);
        assert(s.len() == 1);
        assert(s.drop_last() =~= Seq::<int>::empty());
        assert(total(s.drop_last()) == 0);
        assert(total(s) == t.freq[626]);
        assert(t.grow(i) == t);
    }
}


/// The starting list of leaves is ready to be paired off.
pub proof fn lemma_initial_growing()
    ensures
        ({
            let t = TreeView {
                freq: Seq::new(314, |i: int| 1),
                son: Seq::new(314, |i: int| i + 627),
            };
            t.growing(0) && total(t.leaf_weights()) == 314
        }),
{
    let t = TreeView {
        freq: Seq::new(314, |i: int| 1),
        son: Seq::new(314, |i: int| i + 627),
    };
    lemma_ones(t.freq);
    assert(t.leaf_weights() =~= t.freq);
    assert(t.freq.subrange(0, 314) =~= t.freq);
    assert forall|x: int| 627 <= x < 941 implies #[trigger] t.son.contains(x) by {
        assert(t.son[x - 627] == x);
    }
    assert(t.complete(0));
}

/// The starting tree is well-formed.
pub proof fn lemma_initial_wf()
    ensures
        TreeView::initial().wf(),
{
    lemma_initial_growing();
    lemma_grow(
        TreeView { freq: Seq::new(314, |i: int| 1), son: Seq::new(314, |i: int| i + 627) },
        0,
    );
}

proof fn lemma_ones(w: Seq<int>)
    requires
        forall|j: int| 0 <= j < w.len() ==> #[trigger] w[j] == 1,
    ensures
        total(w) == w.len(),
    decreases w.len(),
{
    if w.len() > 0 {
        lemma_ones(w.drop_last());
    }
}

/// What is left of the first `n` nodes when only the leaves stay.
pub proof fn lemma_leaves(t: TreeView, n: int)
    requires
        t.wf(),
        0 <= n <= 627,
    ensures
        ({
            let l = t.leaves(n);
            &&& l.freq.len() == l.son.len() <= n
            &&& l.ordered()
            &&& l.linked(0)
            &&& forall|j: int| 0 <= j < l.freq.len() && n > 0 ==> #[trigger] l.freq[j] <= (t.freq[n - 1] + 1) / 2
            &&& forall|j: int| 0 <= j < l.son.len() ==> 627 <= #[trigger] l.son[j] < 941
            &&& forall|x: int| #[trigger] l.son.contains(x) <==> exists|j: int| 0 <= j < n && t.son[j] == x && x >= 627
            &&& 2 * total(l.freq) <= total(t.leaf_weights().take(n)) + l.freq.len()
        }),
    decreases n,
{
    let l = t.leaves(n);
    if n == 0 {
        assert(t.leaf_weights().take(0) =~= Seq::<int>::empty());
    } else {
        lemma_leaves(t, n - 1);
        let r = t.leaves(n - 1);
        assert(t.leaf_weights().take(n).drop_last() =~= t.leaf_weights().take(n - 1));
        assert(t.leaf_weights().take(n).last() == t.leaf_weights()[n - 1]);
        if n > 1 {
            assert(t.freq[n - 2] <= t.freq[n - 1]);
        }
        if t.son[n - 1] >= 627 {
            assert(l.freq.drop_last() =~= r.freq);
            assert forall|a: int, b: int| 0 <= a <= b < l.freq.len() implies l.freq[a] <= l.freq[b] by {
                if b < r.freq.len() {
                    assert(r.freq[a] <= r.freq[b]);
                } else if a < r.freq.len() {
                    assert(r.freq[a] <= (t.freq[n - 2] + 1) / 2);
                }
            }
            assert forall|a: int, b: int| 0 <= a < l.son.len() && 0 <= b < l.son.len()
                && l.son[a] == l.son[b] implies a == b by {
                if a < r.son.len() && b < r.son.len() {
                    assert(r.son[a] == r.son[b]);
                } else if a < r.son.len() {
                    assert(r.son.contains(r.son[a]));
                } else if b < r.son.len() {
                    assert(r.son.contains(r.son[b]));
                }
            }
            assert forall|x: int| #[trigger] l.son.contains(x) <==> exists|j: int| 0 <= j < n && t.son[j] == x && x >= 627 by {
                if l.son.contains(x) {
                    let a = choose|a: int| 0 <= a < l.son.len() && l.son[a] == x;
                    if a < r.son.len() {
                        assert(r.son[a] == x);
                        assert(r.son.contains(x));
                    } else {
                        assert(t.son[n - 1] == x);
                    }
                }
                if exists|j: int| 0 <= j < n && t.son[j] == x && x >= 627 {
                    let j = choose|j: int| 0 <= j < n && t.son[j] == x && x >= 627;
                    if j < n - 1 {
                        assert(r.son.contains(x));
                        let a = choose|a: int| 0 <= a < r.son.len() && r.son[a] == x;
                        assert(l.son[a] == x);
                    } else {
                        assert(l.son[l.son.len() - 1] == x);
                    }
                }
            }
        } else {
            assert forall|x: int| #[trigger] l.son.contains(x) <==> exists|j: int| 0 <= j < n && t.son[j] == x && x >= 627 by {
                if exists|j: int| 0 <= j < n && t.son[j] == x && x >= 627 {
                    let j = choose|j: int| 0 <= j < n && t.son[j] == x && x >= 627;
                    assert(j < n - 1);
                    assert(r.son.contains(x));
                }
                if l.son.contains(x) {
                    assert(r.son.contains(x));
                }
            }
        }
    }
}

/// A tree with every code at one leaf has 314 leaves, ready to be paired off.
pub proof fn lemma_leaves_growing(t: TreeView)
    requires
        t.wf(),
    ensures
        t.leaves(627).growing(0),
        2 * total(t.leaves(627).leaf_weights()) <= t.freq[626] + 314,
{
    let l = t.leaves(627);
    lemma_leaves(t, 627);
    assert(l.son.len() == 314) by {
        assert(l.son.no_duplicates());
        l.son.unique_seq_to_set();
        assert(l.son.to_set() =~= vstd::set_lib::set_int_range(627, 941)) by {
            assert forall|x: int| 627 <= x < 941 implies #[trigger] l.son.contains(x) by {
                assert(t.son.contains(x));
            }
        }
        vstd::set_lib::lemma_int_range(627, 941);
    }
    assert forall|x: int| 627 <= x < 941 implies #[trigger] l.son.contains(x) by {
        assert(t.son.contains(x));
    }
    assert(l.complete(0));
    assert(l.leaf_weights() =~= l.freq);
    assert(l.freq.subrange(0, 314) =~= l.freq);
    assert(t.leaf_weights().take(627) =~= t.leaf_weights());
}

/// Rebuilding keeps the tree well-formed and makes the root lighter.
pub proof fn lemma_rebuilt_wf(t: TreeView)
    requires
        t.wf(),
    ensures
        t.rebuilt().wf(),
        t.rebuilt().freq[626] < 0x8000,
{
    lemma_leaves_growing(t);
    lemma_grow(t.leaves(627), 0);
}

/// Nothing has two owners.
pub proof fn lemma_owner_unique(t: TreeView, j: int, x: int)
    requires
        t.son.len() == 627,
        t.linked(626),
        t.owns(j, x),
    ensures
        t.owner(x) == j,
{
    let k = t.owner(x);
    assert(t.owns(k, x));
    assert(t.son[j] == t.son[k]);
}

/// Every leaf, and every node but the root, has an owner; it stands behind the nodes it owns.
pub proof fn lemma_owner(t: TreeView, x: int)
    requires
        t.son.len() == 627,
        t.linked(626),
        t.complete(626),
        0 <= x < 626 || 627 <= x < 941,
    ensures
        t.owns(t.owner(x), x),
        x < 626 ==> t.owner(x) > x,
{
    let first = if x < 626 { x - x % 2 } else { x };
    assert(t.son.contains(first));
    let j = choose|j: int| 0 <= j < t.son.len() && t.son[j] == first;
    assert(t.owns(j, x));
}

/// One step up the tree.
pub proof fn lemma_raise_step(t: TreeView, n: int)
    requires
        t.raising(n),
    ensures
        ({
            let m = leader(t.freq, n);
            let t2 = t.stepped(n);
            &&& n <= m < 627
            &&& m == 626 ==> n == 626 && t2.wf()
            &&& m < 626 ==> t2.owns(t2.owner(m), m) && m < t2.owner(m) < 627 && t2.raising(t2.owner(m))
        }),
{
    let m = leader(t.freq, n);
    let t2 = t.stepped(n);
    lemma_leader(t.freq, n);
    // The other node of the run has lighter children, which stand before the run.
    if m != n {
        assert(t.balanced_at(m, 0));
        if t.son[m] < 627 {
            let c = t.son[m];
            assert(t.freq[c] >= 1 && t.freq[c + 1] >= 1);
            assert(t.freq[c + 1] < t.freq[n]);
            assert(c + 1 < n);
        }
    }
    assert forall|i: int, j: int| 0 <= i <= j < 627 implies t2.freq[i] <= t2.freq[j] by {
        assert(t.freq[i] <= t.freq[j]);
    }
    assert(t2.ordered());
    assert(t2.linked(626)) by {
        assert forall|j: int| 0 <= j < t2.son.len() implies {
            ||| 627 <= #[trigger] t2.son[j] < 941
            ||| 0 <= t2.son[j] < 626 && t2.son[j] % 2 == 0 && t2.son[j] + 1 < j
        } by {
            let old_j = if j == m { n } else if j == n { m } else { j };
            assert(t2.son[j] == t.son[old_j]);
        }
        assert forall|i: int, j: int| 0 <= i < t2.son.len() && 0 <= j < t2.son.len()
            && t2.son[i] == t2.son[j] implies i == j by {
            let old_i = if i == m { n } else if i == n { m } else { i };
            let old_j = if j == m { n } else if j == n { m } else { j };
            assert(t2.son[i] == t.son[old_i]);
            assert(t2.son[j] == t.son[old_j]);
        }
    }
    assert(t2.complete(626)) by {
        assert forall|x: int| t.son.contains(x) implies #[trigger] t2.son.contains(x) by {
            let j = choose|j: int| 0 <= j < t.son.len() && t.son[j] == x;
            let new_j = if j == m { n } else if j == n { m } else { j };
            assert(t2.son[new_j] == x);
        }
        assert forall|x: int| 0 <= x < 626 && x % 2 == 0 implies #[trigger] t2.son.contains(x) by {
            assert(t.son.contains(x));
        }
        assert forall|x: int| 627 <= x < 941 implies #[trigger] t2.son.contains(x) by {
            assert(t.son.contains(x));
        }
    }
    // The weights of the leaves.
    let w = t.leaf_weights();
    let at_n = if t.son[m] >= 627 { t2.freq[n] } else { 0int };
    let at_m = if t.son[n] >= 627 { t2.freq[m] } else { 0int };
    assert(t2.leaf_weights() =~= w.update(n, at_n).update(m, at_m)) by {
        assert forall|j: int| 0 <= j < 627 implies t2.leaf_weights()[j] == w.update(n, at_n).update(m, at_m)[j] by {
            let old_j = if j == m { n } else if j == n { m } else { j };
            assert(t2.son[j] == t.son[old_j]);
        }
    }
    lemma_total_update(w, n, at_n);
    lemma_total_update(w.update(n, at_n), m, at_m);
    // The children of each inner node, seen from where it now stands.
    assert forall|j: int| 0 <= j < 627 && !t2.owns(j, m) implies #[trigger] t2.balanced_at(j, 0) by {
        let old_j = if j == m { n } else if j == n { m } else { j };
        assert(t2.son[j] == t.son[old_j]);
        if t2.son[j] < 627 {
            let c = t2.son[j];
            assert(c != m && c + 1 != m);
            assert(t2.freq[c] == t.freq[c] && t2.freq[c + 1] == t.freq[c + 1]);
            if j == m {
                assert(t.balanced_at(n, 1));
            } else {
                assert(t.balanced_at(old_j, 0));
            }
        }
    }
    // The root is heavier than every other node that is counted in full.
    if m == 626 && n != 626 {
        lemma_owner(t, 625);
        assert(t.owner(625) == 626);
        assert(t.balanced_at(626, 0));
        assert(t.son[626] == 624 || t.son[626] == 625);
        assert(t.freq[624] >= 1);
        assert(t.freq[n] <= t.freq[625]);
        assert(false);
    }
    if m == 626 {
        assert forall|j: int| 0 <= j < 627 implies !t2.owns(j, 626) by {
        }
        assert forall|j: int| 0 <= j < 627 implies #[trigger] t2.balanced_at(j, 0) by {
        }
        assert(t.son[626] < 627) by {
            lemma_owner(t, 625);
        }
    } else {
        lemma_owner(t2, m);
        let up = t2.owner(m);
        assert(up != m && up != n);
        assert(t2.son[up] == t.son[up]);
        assert(t.balanced_at(up, 0));
        let c = t2.son[up];
        assert(c < 627);
        assert(t2.balanced_at(up, 1));
        assert forall|j: int| 0 <= j < 627 && j != up implies #[trigger] t2.balanced_at(j, 0) by {
            if t2.owns(j, m) {
                lemma_owner_unique(t2, j, m);
            }
        }
    }
}

/// Counting a leaf, from where it stands up to the root, keeps the tree well-formed.
pub proof fn lemma_raise_wf(t: TreeView, n: int)
    requires
        t.raising(n),
    ensures
        t.raise(n).wf(),
    decreases 627 - n,
{
    lemma_raise_step(t, n);
    let m = leader(t.freq, n);
    let t2 = t.stepped(n);
    if m < 626 {
        lemma_raise_wf(t2, t2.owner(m));
    }
}

/// A well-formed tree is ready for one more use of any of its leaves.
pub proof fn lemma_leaf_raising(t: TreeView, c: int)
    requires
        t.wf(),
        t.freq[626] < 0x8000,
        0 <= c < 314,
    ensures
        t.raising(t.owner(c + 627)),
        t.son[t.owner(c + 627)] == c + 627,
{
    lemma_owner(t, c + 627);
    let n = t.owner(c + 627);
    assert(t.son[n] == c + 627);
    assert(t.balanced_at(n, 1));
}

/// Decoding a code keeps the tree well-formed.
pub proof fn lemma_updated_wf(t: TreeView, c: int)
    requires
        t.wf(),
        0 <= c < 314,
    ensures
        t.updated(c).wf(),
{
    let t1 = if t.freq[626] == 0x8000 { t.rebuilt() } else { t };
    lemma_rebuilt_wf(t);
    lemma_leaf_raising(t1, c);
    lemma_raise_wf(t1, t1.owner(c + 627));
}


/// The adaptive tree as it is kept in memory: weights, children, and for each node
/// and leaf the node above it.
#[derive(Debug)]
pub struct HuffmanTree {
    /// Weights of the nodes, and a sentinel heavier than all of them.
    freq: Vec<u16>,
    son: Vec<usize>,
    parent: Vec<usize>,
}

impl View for HuffmanTree {
    type V = TreeView;

    closed spec fn view(&self) -> TreeView {
        TreeView {
            freq: Seq::new(627, |j: int| self.freq@[j] as int),
            son: Seq::new(627, |j: int| self.son@[j] as int),
        }
    }
}

impl HuffmanTree {
    /// The arrays have their sizes, and the sentinel is in place.
    spec fn sized(&self) -> bool {
        &&& self.freq@.len() == 628
        &&& self.son@.len() == 627
        &&& self.parent@.len() == 941
        &&& self.freq@[627] == 0xFFFF
    }

    /// The upward links agree with the children.
    spec fn backed(&self) -> bool {
        &&& self.parent@[626] == 0
        &&& forall|j: int| 0 <= j < 627 ==> self.parent@[#[trigger] self.son@[j] as int] == j
        &&& forall|j: int| 0 <= j < 627 && #[trigger] self.son@[j] < 627 ==> self.parent@[self.son@[j] + 1] == j
    }

    /// A well-formed tree with links that agree.
    pub closed spec fn wf(&self) -> bool {
        &&& self.sized()
        &&& self@.wf()
        &&& self.backed()
    }

    /// A tree with links that agree is a well-formed tree.
    pub proof fn law_well_formed(&self)
        requires
            self.wf(),
        ensures
            self@.wf(),
    {
    }

    /// The first `n` nodes are those of `t`.
    spec fn holds(&self, t: TreeView, n: int) -> bool {
        &&& t.freq.len() == t.son.len() == n
        &&& forall|j: int| 0 <= j < n ==> #[trigger] self.freq@[j] == t.freq[j]
        &&& forall|j: int| 0 <= j < n ==> #[trigger] self.son@[j] == t.son[j]
    }

    /// A tree in which every code has been seen once.
    pub fn start_huffman() -> (tree: HuffmanTree)
        ensures
            tree.wf(),
            tree@ == TreeView::initial(),
    {
        let mut tree = HuffmanTree {
            freq: vec![0; 628],
            son: vec![0; 627],
            parent: vec![0; 941],
        };
        let mut c: usize = 0;
        while c < 314
            invariant
                c <= 314,
                tree.freq@.len() == 628,
                tree.son@.len() == 627,
                tree.parent@.len() == 941,
                forall|j: int| 0 <= j < c ==> #[trigger] tree.freq@[j] == 1,
                forall|j: int| 0 <= j < c ==> #[trigger] tree.son@[j] == j + 627,
            decreases 314 - c,
        {
            tree.freq[c] = 1;
            tree.son[c] = c + 627;
            c = c + 1;
        }
        let ghost start = TreeView {
            freq: Seq::new(314, |i: int| 1),
            son: Seq::new(314, |i: int| i + 627),
        };
        proof {
            lemma_initial_growing();
        }
        tree.grow_from(Ghost(start));
        proof {
            lemma_initial_wf();
        }
        tree
    }

    /// Pairs off the 314 leaves at the front until they form a tree, and sets the links.
    fn grow_from(&mut self, start: Ghost<TreeView>)
        requires
            old(self).freq@.len() == 628,
            old(self).son@.len() == 627,
            old(self).parent@.len() == 941,
            old(self).holds(start@, 314),
            start@.growing(0),
            total(start@.leaf_weights()) <= 0x8000,
        ensures
            final(self).wf(),
            final(self)@ == start@.grow(0),
    {
        let mut i: usize = 0;
        let mut j: usize = 314;
        let ghost mut t = start@;
        while j < 627
            invariant
                314 <= j <= 627,
                i == 2 * (j - 314),
                self.freq@.len() == 628,
                self.son@.len() == 627,
                self.parent@.len() == 941,
                self.holds(t, j as int),
                t.growing(i as int),
                total(t.leaf_weights()) == total(start@.leaf_weights()) <= 0x8000,
                t.grow(i as int) == start@.grow(0),
            decreases 627 - j,
        {
            proof {
                lemma_grow_step(t, i as int);
                lemma_slot(t.freq, t.freq[i as int] + t.freq[i + 1]);
            }
            assert(self.freq@[i as int] == t.freq[i as int]);
            assert(self.freq@[i + 1] == t.freq[i + 1]);
            let frequency: u16 = self.freq[i] + self.freq[i + 1];
            let ghost slot_index = slot(t.freq, frequency as int);
            let mut k: usize = j;
            while k > 0 && frequency < self.freq[k - 1]
                invariant
                    slot_index <= k <= j <= 626,
                    0 <= slot_index,
                    self.freq@.len() == 628,
                    self.holds(t, j as int),
                    slot_index == slot(t.freq, frequency as int),
                    forall|x: int| 0 <= x < slot_index ==> #[trigger] t.freq[x] <= frequency,
                decreases k,
            {
                assert(self.freq@[k - 1] == t.freq[k - 1]);
                k = k - 1;
            }
            assert(k == slot_index) by {
                if k > slot_index {
                    assert(self.freq@[k - 1] == t.freq[k - 1]);
                }
            }
            let mut index: usize = j;
            let ghost before = *self;
            while index > k
                invariant
                    k <= index <= j <= 626,
                    self.freq@.len() == 628,
                    self.son@.len() == 627,
                    self.parent@.len() == 941,
                    before.freq@.len() == 628,
                    before.son@.len() == 627,
                    forall|x: int| 0 <= x < index ==> #[trigger] self.freq@[x] == before.freq@[x],
                    forall|x: int| 0 <= x < index ==> #[trigger] self.son@[x] == before.son@[x],
                    forall|x: int| index < x <= j ==> #[trigger] self.freq@[x] == before.freq@[x - 1],
                    forall|x: int| index < x <= j ==> #[trigger] self.son@[x] == before.son@[x - 1],
                decreases index,
            {
                self.freq[index] = self.freq[index - 1];
                self.son[index] = self.son[index - 1];
                index = index - 1;
            }
            self.freq[k] = frequency;
            self.son[k] = i;
            let ghost t2 = TreeView {
                freq: t.freq.insert(k as int, frequency as int),
                son: t.son.insert(k as int, i as int),
            };
            assert(self.holds(t2, j + 1)) by {
                assert forall|x: int| 0 <= x < j + 1 implies #[trigger] self.freq@[x] == t2.freq[x] by {
                    if x < k {
                        assert(before.freq@[x] == t.freq[x]);
                    } else if x > k {
                        assert(before.freq@[x - 1] == t.freq[x - 1]);
                    }
                }
                assert forall|x: int| 0 <= x < j + 1 implies #[trigger] self.son@[x] == t2.son[x] by {
                    if x < k {
                        assert(before.son@[x] == t.son[x]);
                    } else if x > k {
                        assert(before.son@[x - 1] == t.son[x - 1]);
                    }
                }
            }
            proof {
                t = t2;
            }
            i = i + 2;
            j = j + 1;
        }
        proof {
            lemma_grow(start@, 0);
        }
        assert(t == start@.grow(0));
        self.freq[627] = 0xFFFF;
        assert(self@.freq =~= t.freq);
        assert(self@.son =~= t.son);
        let mut n: usize = 0;
        while n < 627
            invariant
                n <= 627,
                self.sized(),
                self@ == t,
                t.wf(),
                forall|x: int| 0 <= x < n ==> self.parent@[#[trigger] self.son@[x] as int] == x,
                forall|x: int| 0 <= x < n && #[trigger] self.son@[x] < 627 ==> self.parent@[self.son@[x] + 1] == x,
            decreases 627 - n,
        {
            let child = self.son[n];
            assert(t.son[n as int] == child);
            let ghost before = *self;
            self.parent[child] = n;
            if child < 627 {
                self.parent[child + 1] = n;
            }
            assert forall|x: int| 0 <= x < n + 1 implies self.parent@[#[trigger] self.son@[x] as int] == x
                && (self.son@[x] < 627 ==> self.parent@[self.son@[x] + 1] == x) by {
                assert(t.son[x] == self.son@[x]);
                if x < n {
                    assert(t.son[x] != t.son[n as int]);
                    assert(before.parent@[before.son@[x] as int] == x);
                }
            }
            assert(self@ == t);
            n = n + 1;
        }
        let ghost before = *self;
        self.parent[626] = 0;
        assert forall|x: int| 0 <= x < 627 implies self.parent@[#[trigger] self.son@[x] as int] == x
            && (self.son@[x] < 627 ==> self.parent@[self.son@[x] + 1] == x) by {
            assert(t.son[x] == self.son@[x]);
            assert(before.parent@[before.son@[x] as int] == x);
        }
        assert(self@ == t);
    }

    /// Halves all weights and builds the tree anew from its leaves. No leaf is lost, and each
    /// keeps half its weight, rounded up.
    pub fn reconstruct(&mut self)
        requires
            old(self).wf(),
        ensures
            final(self).wf(),
            final(self)@ == old(self)@.rebuilt(),
            final(self)@.wf(),
            forall|c: int| 0 <= c < 314 ==> #[trigger] final(self)@.leaf_weight(c) == (old(self)@.leaf_weight(c) + 1) / 2,
    {
        let ghost t = self@;
        let mut j: usize = 0;
        let mut i: usize = 0;
        while i < 627
            invariant
                i <= 627,
                j <= i,
                t.wf(),
                self.freq@.len() == 628,
                self.son@.len() == 627,
                self.parent@.len() == 941,
                self.holds(t.leaves(i as int), j as int),
                forall|x: int| i <= x < 627 ==> #[trigger] self.freq@[x] == t.freq[x],
                forall|x: int| i <= x < 627 ==> #[trigger] self.son@[x] == t.son[x],
            decreases 627 - i,
        {
            proof {
                lemma_leaves(t, i as int);
                assert(t.freq[i as int] <= t.freq[626]);
            }
            assert(self.freq@[i as int] == t.freq[i as int]);
            assert(self.son@[i as int] == t.son[i as int]);
            if self.son[i] >= 627 {
                let half: u16 = (self.freq[i] + 1) / 2;
                let leaf = self.son[i];
                self.freq[j] = half;
                self.son[j] = leaf;
                j = j + 1;
            }
            i = i + 1;
        }
        proof {
            lemma_leaves_growing(t);
        }
        self.grow_from(Ghost(t.leaves(627)));
        proof {
            assert forall|c: int| 0 <= c < 314 implies #[trigger] self@.leaf_weight(c) == (t.leaf_weight(c) + 1) / 2 by {
                huffman_laws::law_rebuilding_halves(t, c);
            }
        }
    }

    /// Counts one more use of `code`.
    pub fn update(&mut self, code: usize)
        requires
            old(self).wf(),
            code < 314,
        ensures
            final(self).wf(),
            final(self)@ == old(self)@.updated(code as int),
    {
        let ghost start = self@;
        proof {
            lemma_rebuilt_wf(start);
            lemma_updated_wf(start, code as int);
        }
        assert(self.freq@[626] == start.freq[626]);
        if self.freq[626] == 0x8000 {
            self.reconstruct();
        }
        let ghost t1 = self@;
        proof {
            lemma_leaf_raising(t1, code as int);
            let n = t1.owner(code + 627);
            assert(t1.son[n] == self.son@[n]);
        }
        let mut node: usize = self.parent[code + 627];
        assert(node == t1.owner(code + 627));
        let mut at_root = false;
        while !at_root
            invariant
                self.sized(),
                self.backed(),
                !at_root ==> self@.raising(node as int) && self@.raise(node as int) == start.updated(code as int),
                at_root ==> self@ == start.updated(code as int),
                start.updated(code as int).wf(),
            decreases (if at_root { 0int } else { 627 - node }),
        {
            let ghost t = self@;
            let ghost before = *self;
            proof {
                lemma_raise_step(t, node as int);
                lemma_leader(t.freq, node as int);
                assert(t.freq[node as int] <= t.freq[626]);
                assert(self.freq@[node as int] == t.freq[node as int]);
            }
            let ghost m = leader(t.freq, node as int);
            let weight: u16 = self.freq[node] + 1;
            let mut next: usize = node + 1;
            assert forall|x: int| 0 <= x < 627 implies #[trigger] self.freq@[x] == t.freq[x] by {}
            while weight > self.freq[next]
                invariant
                    node < next <= m + 1 <= 627,
                    self.sized(),
                    weight == t.freq[node as int] + 1 <= 0x8001,
                    forall|x: int| 0 <= x < 627 ==> #[trigger] self.freq@[x] == t.freq[x],
                    forall|x: int| m < x < 627 ==> #[trigger] t.freq[x] > t.freq[node as int],
                decreases 627 - next,
            {
                assert(next != m + 1);
                next = next + 1;
            }
            assert(next == m + 1) by {
                if next < m + 1 {
                    assert(t.freq[next as int] <= t.freq[m]);
                }
            }
            let last: usize = next - 1;
            assert(t.son[node as int] == self.son@[node as int] && t.son[m] == self.son@[m]);
            let child = self.son[node];
            let other = self.son[last];
            self.freq[last] = weight;
            self.son[node] = other;
            self.son[last] = child;
            let ghost t2 = t.stepped(node as int);
            assert(self@.freq =~= t2.freq);
            assert(self@.son =~= t2.son);
            self.parent[other] = node;
            if other < 627 {
                self.parent[other + 1] = node;
            }
            self.parent[child] = last;
            if child < 627 {
                self.parent[child + 1] = last;
            }
            assert(self@ == t2);
            assert(t2.linked(626));
            assert forall|x: int| 0 <= x < 627 implies self.parent@[#[trigger] self.son@[x] as int] == x
                && (self.son@[x] < 627 ==> self.parent@[self.son@[x] + 1] == x) by {
                assert(t2.son[x] == self.son@[x]);
                assert(t2.son[node as int] == other && t2.son[last as int] == child);
                if x != node && x != last {
                    assert(before.son@[x] == self.son@[x]);
                    assert(before.parent@[before.son@[x] as int] == x);
                    assert(t2.son[x] != t2.son[node as int]);
                    assert(t2.son[x] != t2.son[last as int]);
                }
            }
            assert(self.backed());
            if last == 626 {
                at_root = true;
            } else {
                proof {
                    let up = t2.owner(m);
                    assert(t2.son[up] == self.son@[up]);
                    assert(self.parent@[m] == up);
                }
                node = self.parent[last];
            }
        }
    }

    /// The child of node `node`.
    pub fn child(&self, node: usize) -> (x: usize)
        requires
            self.wf(),
            node < 627,
        ensures
            x == self@.son[node as int],
            self@.wf(),
    {
        self.son[node]
    }
}

}
