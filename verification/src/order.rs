//! Stable ordering: the permutation that sorts a list and keeps equal items in place.

use vstd::prelude::*;

verus! {

/// Where item `j` joins an ordered list of items: behind the last that is not above it.
pub open spec fn slot(order: Seq<int>, le: spec_fn(int, int) -> bool, j: int) -> int
    decreases order.len(),
{
    if order.len() == 0 {
        0
    } else if le(order.last(), j) {
        order.len() as int
    } else {
        slot(order.drop_last(), le, j)
    }
}

/// The first `n` items in order; items that are level stay as they were.
pub open spec fn order_to(le: spec_fn(int, int) -> bool, n: int) -> Seq<int>
    decreases n,
{
    if n <= 0 {
        Seq::empty()
    } else {
        let rest = order_to(le, n - 1);
        rest.insert(slot(rest, le, n - 1), n - 1)
    }
}

/// Items compared by a number.
pub open spec fn by_key(keys: Seq<int>) -> spec_fn(int, int) -> bool {
    |i: int, j: int| keys[i] <= keys[j]
}

/// The order of items by their numbers.
pub open spec fn key_order(keys: Seq<int>) -> Seq<int> {
    order_to(by_key(keys), keys.len() as int)
}

/// Whether `a` comes before `b`, or is `b`, in the order of their characters.
pub open spec fn name_le(a: Seq<char>, b: Seq<char>) -> bool
    decreases a.len(),
{
    if a.len() == 0 {
        true
    } else if b.len() == 0 {
        false
    } else if a[0] != b[0] {
        a[0] < b[0]
    } else {
        name_le(a.drop_first(), b.drop_first())
    }
}

/// Items compared by a name.
pub open spec fn by_name(names: Seq<Seq<char>>) -> spec_fn(int, int) -> bool {
    |i: int, j: int| name_le(names[i], names[j])
}

/// The order of items by their names.
pub open spec fn name_order(names: Seq<Seq<char>>) -> Seq<int> {
    order_to(by_name(names), names.len() as int)
}

/// The list `s` in the given order.
pub open spec fn arranged<T>(s: Seq<T>, order: Seq<int>) -> Seq<T> {
    Seq::new(order.len(), |i: int| s[order[i]])
}

pub proof fn lemma_slot_range(order: Seq<int>, le: spec_fn(int, int) -> bool, j: int)
    ensures
        0 <= slot(order, le, j) <= order.len(),
    decreases order.len(),
{
    if order.len() > 0 && !le(order.last(), j) {
        lemma_slot_range(order.drop_last(), le, j);
    }
}

/// An order is a permutation of the items.
pub proof fn lemma_order_permutes(le: spec_fn(int, int) -> bool, n: int)
    requires
        n >= 0,
    ensures
        order_to(le, n).len() == n,
        forall|i: int| 0 <= i < n ==> 0 <= #[trigger] order_to(le, n)[i] < n,
        forall|i: int, j: int| 0 <= i < n && 0 <= j < n && order_to(le, n)[i] == order_to(le, n)[j] ==> i == j,
        forall|x: int| 0 <= x < n ==> #[trigger] order_to(le, n).contains(x),
    decreases n,
{
    if n > 0 {
        lemma_order_permutes(le, n - 1);
        let r = order_to(le, n - 1);
        let o = order_to(le, n);
        let k = slot(r, le, n - 1);
        lemma_slot_range(r, le, n - 1);
        assert forall|i: int| 0 <= i < n implies #[trigger] o[i] == (if i < k { r[i] } else if i == k { n - 1 } else { r[i - 1] }) by {}
        assert forall|x: int| 0 <= x < n implies #[trigger] o.contains(x) by {
            if x == n - 1 {
                assert(o[k] == x);
            } else {
                assert(r.contains(x));
                let i = choose|i: int| 0 <= i < r.len() && r[i] == x;
                assert(o[if i < k { i } else { i + 1 }] == x);
            }
        }
    }
}

/// A list that has been put in order has the same items.
pub proof fn lemma_arranged_multiset<T>(s: Seq<T>, le: spec_fn(int, int) -> bool)
    ensures
        arranged(s, order_to(le, s.len() as int)).to_multiset() == s.to_multiset(),
    decreases s.len(),
{
    let n = s.len() as int;
    if n == 0 {
        assert(arranged(s, order_to(le, n)) =~= s);
    } else {
        let d = s.drop_last();
        let r = order_to(le, n - 1);
        let k = slot(r, le, n - 1);
        lemma_arranged_multiset(d, le);
        lemma_order_permutes(le, n - 1);
        lemma_slot_range(r, le, n - 1);
        let rest = arranged(d, r);
        assert(arranged(s, order_to(le, n)) =~= rest.insert(k, s[n - 1]));
        assert(s =~= d.push(s[n - 1]));
        vstd::seq_lib::to_multiset_insert(rest, k, s[n - 1]);
        vstd::seq_lib::to_multiset_build(d, s[n - 1]);
    }
}

proof fn lemma_slot_splits(order: Seq<int>, le: spec_fn(int, int) -> bool, j: int)
    ensures
        forall|i: int| slot(order, le, j) <= i < order.len() ==> !#[trigger] le(order[i], j),
        slot(order, le, j) > 0 ==> le(order[slot(order, le, j) - 1], j),
    decreases order.len(),
{
    lemma_slot_range(order, le, j);
    if order.len() > 0 && !le(order.last(), j) {
        let d = order.drop_last();
        lemma_slot_splits(d, le, j);
        lemma_slot_range(d, le, j);
        assert forall|i: int| slot(order, le, j) <= i < order.len() implies !#[trigger] le(order[i], j) by {
            if i < d.len() {
                assert(d[i] == order[i]);
                assert(!le(d[i], j));
            }
        }
    }
}

/// Whether items can be put in order: of any two, one is not above the other, and what is not
/// above an item is not above what that item is not above either.
pub open spec fn orderly(le: spec_fn(int, int) -> bool, n: int) -> bool {
    &&& forall|i: int, j: int| 0 <= i < n && 0 <= j < n ==> #[trigger] le(i, j) || le(j, i)
    &&& forall|i: int, j: int, k: int|
        0 <= i < n && 0 <= j < n && 0 <= k < n && #[trigger] le(i, j) && #[trigger] le(j, k) ==> le(i, k)
}

/// An order is ascending.
pub proof fn lemma_order_sorted(le: spec_fn(int, int) -> bool, n: int)
    requires
        n >= 0,
        orderly(le, n),
    ensures
        forall|i: int, j: int| 0 <= i <= j < n ==> le(#[trigger] order_to(le, n)[i], #[trigger] order_to(le, n)[j]),
    decreases n,
{
    if n > 0 {
        lemma_order_sorted(le, n - 1);
        lemma_order_permutes(le, n - 1);
        let r = order_to(le, n - 1);
        let o = order_to(le, n);
        let k = slot(r, le, n - 1);
        lemma_slot_range(r, le, n - 1);
        lemma_slot_splits(r, le, n - 1);
        assert forall|i: int| 0 <= i < n implies #[trigger] o[i] == (if i < k { r[i] } else if i == k { n - 1 } else { r[i - 1] }) by {}
        assert forall|i: int, j: int| 0 <= i <= j < n implies le(#[trigger] o[i], #[trigger] o[j]) by {
            assert(le(o[i], o[i]) || le(o[i], o[i]));
            if k > 0 {
                assert(le(r[k - 1], n - 1));
            }
            if i < k && j == k {
                assert(le(r[i], r[k - 1]));
            }
            if i == k && j > k {
                assert(!le(r[j - 1], n - 1));
                assert(le(n - 1, r[j - 1]) || le(r[j - 1], n - 1));
            }
            if i < k && j > k {
                assert(le(r[i], r[j - 1]));
            }
        }
    }
}

/// An order by number is ascending.
pub proof fn lemma_key_order_sorted(keys: Seq<int>)
    ensures
        forall|i: int, j: int| 0 <= i <= j < keys.len() ==> keys[#[trigger] key_order(keys)[i]] <= keys[#[trigger] key_order(keys)[j]],
{
    lemma_order_sorted(by_key(keys), keys.len() as int);
    let o = key_order(keys);
    assert forall|i: int, j: int| 0 <= i <= j < keys.len() implies keys[#[trigger] o[i]] <= keys[#[trigger] o[j]] by {
        assert(by_key(keys)(o[i], o[j]));
    }
}

/// Items with the same number keep their places.
pub proof fn lemma_key_order_stable(keys: Seq<int>, n: int)
    requires
        0 <= n <= keys.len(),
    ensures
        forall|i: int, j: int|
            0 <= i < j < n && keys[#[trigger] order_to(by_key(keys), n)[i]] == keys[#[trigger] order_to(by_key(keys), n)[j]] ==> order_to(
                by_key(keys),
                n,
            )[i] < order_to(by_key(keys), n)[j],
    decreases n,
{
    let le = by_key(keys);
    if n > 0 {
        lemma_key_order_stable(keys, n - 1);
        lemma_order_permutes(le, n - 1);
        let r = order_to(le, n - 1);
        let o = order_to(le, n);
        let k = slot(r, le, n - 1);
        lemma_slot_range(r, le, n - 1);
        lemma_slot_splits(r, le, n - 1);
        assert forall|i: int| 0 <= i < n implies #[trigger] o[i] == (if i < k { r[i] } else if i == k { n - 1 } else { r[i - 1] }) by {}
        assert forall|i: int, j: int| 0 <= i < j < n && keys[#[trigger] o[i]] == keys[#[trigger] o[j]] implies o[i] < o[j] by {
            if i == k {
                assert(!le(r[j - 1], n - 1));
            }
        }
    }
}

/// Of two names, one does not come behind the other.
pub proof fn lemma_name_total(a: Seq<char>, b: Seq<char>)
    ensures
        name_le(a, b) || name_le(b, a),
    decreases a.len(),
{
    if a.len() > 0 && b.len() > 0 && a[0] == b[0] {
        lemma_name_total(a.drop_first(), b.drop_first());
    }
}

/// Names that come in this order do so across a third.
pub proof fn lemma_name_transitive(a: Seq<char>, b: Seq<char>, c: Seq<char>)
    requires
        name_le(a, b),
        name_le(b, c),
    ensures
        name_le(a, c),
    decreases a.len(),
{
    if a.len() > 0 && a[0] == b[0] && b[0] == c[0] {
        lemma_name_transitive(a.drop_first(), b.drop_first(), c.drop_first());
    }
}

/// An order by name is ascending.
pub proof fn lemma_name_order_sorted(names: Seq<Seq<char>>)
    ensures
        forall|i: int, j: int|
            0 <= i <= j < names.len() ==> name_le(names[#[trigger] name_order(names)[i]], names[#[trigger] name_order(names)[j]]),
{
    let le = by_name(names);
    let n = names.len() as int;
    assert forall|i: int, j: int| 0 <= i < n && 0 <= j < n implies #[trigger] le(i, j) || le(j, i) by {
        lemma_name_total(names[i], names[j]);
    }
    assert forall|i: int, j: int, k: int|
        0 <= i < n && 0 <= j < n && 0 <= k < n && #[trigger] le(i, j) && #[trigger] le(j, k) implies le(i, k) by {
        lemma_name_transitive(names[i], names[j], names[k]);
    }
    lemma_order_sorted(le, n);
    let o = name_order(names);
    assert forall|i: int, j: int| 0 <= i <= j < n implies name_le(names[#[trigger] o[i]], names[#[trigger] o[j]]) by {
        assert(le(o[i], o[j]));
    }
}

/// Names whose items are already ascending and distinct keep their places.
pub proof fn lemma_ascending_keys(keys: Seq<int>)
    requires
        forall|i: int, j: int| 0 <= i <= j < keys.len() ==> keys[i] <= keys[j],
    ensures
        key_order(keys) =~= Seq::new(keys.len(), |i: int| i),
{
    lemma_ascending_to(keys, keys.len() as int);
}

proof fn lemma_ascending_to(keys: Seq<int>, n: int)
    requires
        0 <= n <= keys.len(),
        forall|i: int, j: int| 0 <= i <= j < keys.len() ==> keys[i] <= keys[j],
    ensures
        order_to(by_key(keys), n) =~= Seq::new(n as nat, |i: int| i),
    decreases n,
{
    if n > 0 {
        lemma_ascending_to(keys, n - 1);
        let r = order_to(by_key(keys), n - 1);
        if n > 1 {
            assert(r.last() == n - 2);
            assert(keys[n - 2] <= keys[n - 1]);
        }
        assert(slot(r, by_key(keys), n - 1) == n - 1);
    }
}

/// The numbers of a list of machine integers.
pub open spec fn ints(keys: Seq<u16>) -> Seq<int> {
    Seq::new(keys.len(), |i: int| keys[i] as int)
}

/// The indices of a list.
pub open spec fn indices(order: Seq<usize>) -> Seq<int> {
    Seq::new(order.len(), |i: int| order[i] as int)
}

/// Finds the order of items by their numbers.
pub fn order_by_key(keys: &Vec<u16>) -> (order: Vec<usize>)
    ensures
        indices(order@) == key_order(ints(keys@)),
        order@.len() == keys@.len(),
        forall|i: int| 0 <= i < order@.len() ==> #[trigger] order@[i] < keys@.len(),
{
    let mut order: Vec<usize> = Vec::new();
    let mut n: usize = 0;
    let ghost k = ints(keys@);
    let ghost le = by_key(k);
    assert(indices(order@) =~= order_to(le, 0));
    while n < keys.len()
        invariant
            n <= keys@.len(),
            k == ints(keys@),
            le == by_key(k),
            indices(order@) == order_to(le, n as int),
            order@.len() == n,
            forall|i: int| 0 <= i < order@.len() ==> #[trigger] order@[i] < n,
        decreases keys@.len() - n,
    {
        let ghost rest = indices(order@);
        let mut p: usize = order.len();
        assert(rest.take(p as int) =~= rest);
        while p > 0 && keys[order[p - 1]] > keys[n]
            invariant
                p <= order@.len() == n < keys@.len(),
                k == ints(keys@),
                le == by_key(k),
                rest == indices(order@),
                forall|i: int| 0 <= i < order@.len() ==> #[trigger] order@[i] < n,
                slot(rest, le, n as int) == slot(rest.take(p as int), le, n as int),
            decreases p,
        {
            assert(rest.take(p as int).drop_last() =~= rest.take(p - 1));
            assert(rest.take(p as int).last() == order@[p - 1]);
            assert(k[order@[p - 1] as int] == keys@[order@[p - 1] as int]);
            p = p - 1;
        }
        assert(slot(rest, le, n as int) == p) by {
            if p > 0 {
                assert(rest.take(p as int).last() == order@[p - 1]);
                assert(k[order@[p - 1] as int] == keys@[order@[p - 1] as int]);
            }
        }
        order.insert(p, n);
        assert(indices(order@) =~= rest.insert(p as int, n as int));
        n = n + 1;
    }
    order
}

/// Whether `a` comes before `b`, or is `b`.
fn chars_le(a: &Vec<char>, b: &Vec<char>) -> (r: bool)
    ensures
        r == name_le(a@, b@),
{
    let mut i: usize = 0;
    assert(a@.skip(0) =~= a@);
    assert(b@.skip(0) =~= b@);
    while i < a.len()
        invariant
            i <= a@.len(),
            i <= b@.len(),
            name_le(a@, b@) == name_le(a@.skip(i as int), b@.skip(i as int)),
        decreases a@.len() - i,
    {
        if i >= b.len() {
            return false;
        }
        assert(a@.skip(i as int)[0] == a@[i as int]);
        assert(b@.skip(i as int)[0] == b@[i as int]);
        assert(a@.skip(i as int).drop_first() =~= a@.skip(i + 1));
        assert(b@.skip(i as int).drop_first() =~= b@.skip(i + 1));
        if a[i] != b[i] {
            return a[i] < b[i];
        }
        i = i + 1;
    }
    true
}

/// The views of a list of names.
pub open spec fn name_views(names: Seq<Vec<char>>) -> Seq<Seq<char>> {
    Seq::new(names.len(), |i: int| names[i]@)
}

/// Finds the order of items by their names.
pub fn order_by_name(names: &Vec<Vec<char>>) -> (order: Vec<usize>)
    ensures
        indices(order@) == name_order(name_views(names@)),
        order@.len() == names@.len(),
        forall|i: int| 0 <= i < order@.len() ==> #[trigger] order@[i] < names@.len(),
{
    let mut order: Vec<usize> = Vec::new();
    let mut n: usize = 0;
    let ghost k = name_views(names@);
    let ghost le = by_name(k);
    assert(indices(order@) =~= order_to(le, 0));
    while n < names.len()
        invariant
            n <= names@.len(),
            k == name_views(names@),
            le == by_name(k),
            indices(order@) == order_to(le, n as int),
            order@.len() == n,
            forall|i: int| 0 <= i < order@.len() ==> #[trigger] order@[i] < n,
        decreases names@.len() - n,
    {
        let ghost rest = indices(order@);
        let mut p: usize = order.len();
        let mut searching = true;
        assert(rest.take(p as int) =~= rest);
        while searching && p > 0
            invariant
                p <= order@.len() == n < names@.len(),
                k == name_views(names@),
                le == by_name(k),
                rest == indices(order@),
                forall|i: int| 0 <= i < order@.len() ==> #[trigger] order@[i] < n,
                slot(rest, le, n as int) == slot(rest.take(p as int), le, n as int),
                !searching ==> slot(rest, le, n as int) == p,
            decreases p, (if searching { 1int } else { 0 }),
        {
            assert(rest.take(p as int).drop_last() =~= rest.take(p - 1));
            assert(rest.take(p as int).last() == order@[p - 1]);
            if chars_le(&names[order[p - 1]], &names[n]) {
                searching = false;
            } else {
                p = p - 1;
            }
        }
        assert(slot(rest, le, n as int) == p);
        order.insert(p, n);
        assert(indices(order@) =~= rest.insert(p as int, n as int));
        n = n + 1;
    }
    order
}

}
