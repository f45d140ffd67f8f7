//! Permuting one chunk.
//!
//! A chunk is permuted through its positions: the numbers `0..n` are shuffled,
//! and the lines are then laid out in that order.

use crate::random::shuffle_in_place;
use crate::text::texts;
use rand::rngs::StdRng;
use vstd::prelude::*;

verus! {

/// The numbers `0..n`, in rising order.
pub open spec fn positions(n: nat) -> Seq<usize> {
    Seq::new(n, |i: int| i as usize)
}

/// The number `i` stands somewhere in `order`.
pub open spec fn occurs(order: Seq<usize>, i: int) -> bool {
    exists|k: int| 0 <= k < order.len() && #[trigger] order[k] == i
}

/// `order` holds each of the numbers `0..n` exactly once.
pub open spec fn is_permutation(order: Seq<usize>, n: nat) -> bool {
    &&& order.len() == n
    &&& forall|k: int| 0 <= k < order.len() ==> order[k] < n
    &&& forall|j: int, k: int| 0 <= j < k < order.len() ==> order[j] != order[k]
    &&& forall|i: int| 0 <= i < n ==> #[trigger] occurs(order, i)
}

/// The items of `items` laid out as `order` says: the item at position
/// `order[k]` comes `k`-th.
pub open spec fn arranged<A>(items: Seq<A>, order: Seq<usize>) -> Seq<A> {
    Seq::new(order.len(), |k: int| items[order[k] as int])
}

/// A sequence with the same values and counts as the numbers `0..n` holds each
/// of them exactly once.
pub proof fn lemma_same_counts_is_permutation(order: Seq<usize>, n: nat)
    requires
        n <= usize::MAX,
        order.to_multiset() == positions(n).to_multiset(),
    ensures
        is_permutation(order, n),
{
    broadcast use vstd::seq_lib::group_to_multiset_ensures;

    let ident = positions(n);
    assert(order.len() == n) by {
        assert(order.to_multiset().len() == ident.to_multiset().len());
    }
    assert forall|k: int| 0 <= k < order.len() implies order[k] < n by {
        assert(order.contains(order[k]));
        assert(ident.to_multiset().count(order[k]) > 0);
        assert(ident.contains(order[k]));
        let j = choose|j: int| 0 <= j < ident.len() && ident[j] == order[k];
        assert(ident[j] == j);
    }
    assert(ident.no_duplicates());
    ident.lemma_multiset_has_no_duplicates();
    order.lemma_multiset_has_no_duplicates_conv();
    assert forall|i: int| 0 <= i < n implies #[trigger] occurs(order, i) by {
        assert(ident[i] == i as usize);
        assert(ident.contains(i as usize));
        assert(order.to_multiset().count(i as usize) > 0);
        assert(order.contains(i as usize));
        let k = choose|k: int| 0 <= k < order.len() && order[k] == i as usize;
        assert(order[k] == i);
    }
}

/// Laying items out by a permutation of their positions changes their order
/// and nothing else: every item is there as often as before.
pub proof fn lemma_arranged_same_items<A>(items: Seq<A>, order: Seq<usize>)
    requires
        is_permutation(order, items.len()),
    ensures
        arranged(items, order).len() == items.len(),
        arranged(items, order).to_multiset() == items.to_multiset(),
    decreases items.len(),
{
    broadcast use vstd::seq_lib::group_to_multiset_ensures;

    let out = arranged(items, order);
    if items.len() == 0 {
        assert(out =~= items);
    } else {
        let top = items.len() - 1;
        assert(occurs(order, top));
        let p = choose|p: int| 0 <= p < order.len() && #[trigger] order[p] == top;
        let fewer = order.remove(p);
        let front = items.drop_last();
        assert(is_permutation(fewer, front.len())) by {
            assert forall|k: int| 0 <= k < fewer.len() implies fewer[k] < front.len() by {
                if k < p {
                    assert(order[k] != order[p]);
                } else {
                    assert(order[p] != order[k + 1]);
                }
            }
            assert forall|i: int| 0 <= i < front.len() implies #[trigger] occurs(fewer, i) by {
                assert(occurs(order, i));
                let q = choose|q: int| 0 <= q < order.len() && #[trigger] order[q] == i;
                if q < p {
                    assert(fewer[q] == i);
                } else {
                    assert(fewer[q - 1] == i);
                }
            }
        }
        lemma_arranged_same_items(front, fewer);
        assert(arranged(front, fewer) =~= out.remove(p));
        assert(out[p] == items.last());
        assert(out.remove(p).to_multiset() == out.to_multiset().remove(out[p]));
        assert(out.to_multiset().count(out[p]) > 0) by {
            assert(out.contains(out[p]));
        }
        assert(front.push(items.last()) =~= items);
        assert(out.to_multiset() =~= out.to_multiset().remove(out[p]).insert(out[p]));
    }
}

/// Two sequences that hold the same items, each as often in the one as in the
/// other, differ by their order alone: the one is the other laid out by the
/// permutation returned. No item is cut, joined to another or changed.
pub proof fn lemma_same_items_arranged<A>(items: Seq<A>, out: Seq<A>) -> (order: Seq<usize>)
    requires
        items.len() <= usize::MAX,
        items.to_multiset() == out.to_multiset(),
    ensures
        is_permutation(order, items.len()),
        out == arranged(items, order),
    decreases out.len(),
{
    broadcast use vstd::seq_lib::group_to_multiset_ensures;

    assert(items.len() == out.len()) by {
        vstd::seq_lib::to_multiset_len(items);
        vstd::seq_lib::to_multiset_len(out);
    }
    if out.len() == 0 {
        let order = Seq::<usize>::empty();
        assert(out =~= arranged(items, order));
        order
    } else {
        let n = items.len();
        let x = out.last();
        let shorter = out.drop_last();
        assert(shorter.push(x) =~= out);
        assert(out.to_multiset() =~= shorter.to_multiset().insert(x));
        assert(items.to_multiset().count(x) > 0);
        assert(items.contains(x));
        let p = choose|p: int| 0 <= p < items.len() && items[p] == x;
        let fewer = items.remove(p);
        assert(fewer.to_multiset() =~= shorter.to_multiset()) by {
            assert(fewer.to_multiset() == items.to_multiset().remove(x));
            assert(shorter.to_multiset().insert(x).remove(x) =~= shorter.to_multiset());
        }
        let inner = lemma_same_items_arranged(fewer, shorter);
        let order = Seq::new(
            n,
            |k: int|
                if k == n - 1 {
                    p as usize
                } else if inner[k] < p {
                    inner[k]
                } else {
                    (inner[k] + 1) as usize
                },
        );
        assert forall|k: int| 0 <= k < out.len() implies out[k] == arranged(items, order)[k] by {
            if k < n - 1 {
                assert(shorter[k] == arranged(fewer, inner)[k]);
            }
        }
        assert(out =~= arranged(items, order));
        assert forall|j: int, k: int| 0 <= j < k < order.len() implies order[j] != order[k] by {
            if k < n - 1 {
                assert(inner[j] != inner[k]);
            }
        }
        assert forall|i: int| 0 <= i < n implies #[trigger] occurs(order, i) by {
            if i == p {
                assert(order[n - 1] == i);
            } else if i < p {
                assert(occurs(inner, i));
                let k = choose|k: int| 0 <= k < inner.len() && #[trigger] inner[k] == i;
                assert(order[k] == i);
            } else {
                assert(occurs(inner, i - 1));
                let k = choose|k: int| 0 <= k < inner.len() && #[trigger] inner[k] == i - 1;
                assert(order[k] == i);
            }
        }
        order
    }
}

/// The numbers `0..n` in a random order.
pub fn shuffled_order(n: usize, rng: &mut StdRng) -> (order: Vec<usize>)
    ensures
        is_permutation(order@, n as nat),
{
    let mut order: Vec<usize> = Vec::new();
    let mut i: usize = 0;
    while i < n
        invariant
            i <= n,
            order@ == positions(i as nat),
        decreases n - i,
    {
        order.push(i);
        assert(order@ =~= positions((i + 1) as nat));
        i += 1;
    }
    shuffle_in_place(&mut order, rng);
    proof {
        lemma_same_counts_is_permutation(order@, n as nat);
    }
    order
}

/// The lines of `chunk` laid out as `order` says: line `order[k]` comes `k`-th.
pub fn arrange(chunk: &Vec<String>, order: &Vec<usize>) -> (lines: Vec<String>)
    requires
        forall|k: int| 0 <= k < order@.len() ==> order@[k] < chunk@.len(),
    ensures
        texts(lines@) == arranged(texts(chunk@), order@),
{
    let mut lines: Vec<String> = Vec::new();
    let mut k: usize = 0;
    while k < order.len()
        invariant
            k <= order@.len(),
            lines@.len() == k,
            forall|j: int| 0 <= j < order@.len() ==> order@[j] < chunk@.len(),
            texts(lines@) == arranged(texts(chunk@), order@.take(k as int)),
        decreases order@.len() - k,
    {
        let line = chunk[order[k]].clone();
        let ghost before = lines@;
        lines.push(line);
        proof {
            let target = arranged(texts(chunk@), order@.take(k + 1));
            assert forall|j: int| 0 <= j < k + 1 implies texts(lines@)[j] == target[j] by {
                if j < k {
                    assert(texts(before)[j] == arranged(texts(chunk@), order@.take(k as int))[j]);
                }
            }
            assert(texts(lines@) =~= target);
        }
        k += 1;
    }
    assert(order@.take(k as int) =~= order@);
    lines
}

/// The lines of `chunk` in a random order: as many, and each as often as
/// before.
pub fn shuffle_chunk(chunk: &Vec<String>, rng: &mut StdRng) -> (lines: Vec<String>)
    ensures
        lines@.len() == chunk@.len(),
        texts(lines@).to_multiset() == texts(chunk@).to_multiset(),
        exists|order: Seq<usize>|
            is_permutation(order, chunk@.len()) && texts(lines@) == arranged(
                texts(chunk@),
                order,
            ),
{
    let order = shuffled_order(chunk.len(), rng);
    let lines = arrange(chunk, &order);
    proof {
        lemma_arranged_same_items(texts(chunk@), order@);
    }
    lines
}

} // verus!
