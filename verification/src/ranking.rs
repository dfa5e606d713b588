//! Putting items in the order of their text keys, items with equal keys in
//! the order in which they came.

use crate::record::texts_view;
use crate::text::lemma_lex_total;
use crate::text::lemma_lex_transitive;
use crate::text::lex_lt;
use crate::text::str_lt;
use vstd::prelude::*;
use vstd::string::*;

verus! {

/// The number of leading entries of `order` whose key does not come after
/// `x`.
pub open spec fn rank_slot(keys: Seq<Seq<char>>, order: Seq<usize>, x: Seq<char>) -> int
    decreases order.len(),
{
    if order.len() > 0 && !lex_lt(x, keys[order[0] as int]) {
        1 + rank_slot(keys, order.drop_first(), x)
    } else {
        0
    }
}

/// The places of the keys in rising order of the keys; of two equal keys
/// the earlier place comes first.
pub open spec fn stable_order(keys: Seq<Seq<char>>) -> Seq<usize>
    decreases keys.len(),
{
    if keys.len() == 0 {
        Seq::empty()
    } else {
        let front = stable_order(keys.drop_last());
        front.insert(rank_slot(keys, front, keys.last()), (keys.len() - 1) as usize)
    }
}

/// The slot is the first entry whose key comes after `x`.
pub proof fn lemma_rank_slot(keys: Seq<Seq<char>>, order: Seq<usize>, x: Seq<char>)
    ensures
        0 <= rank_slot(keys, order, x) <= order.len(),
        forall|j: int| 0 <= j < rank_slot(keys, order, x) ==> !lex_lt(x, keys[order[j] as int]),
        rank_slot(keys, order, x) < order.len() ==> lex_lt(
            x,
            keys[order[rank_slot(keys, order, x)] as int],
        ),
    decreases order.len(),
{
    if order.len() > 0 && !lex_lt(x, keys[order[0] as int]) {
        let rest = order.drop_first();
        lemma_rank_slot(keys, rest, x);
        assert forall|j: int| 0 <= j < rank_slot(keys, order, x) implies !lex_lt(
            x,
            keys[order[j] as int],
        ) by {
            if j > 0 {
                assert(order[j] == rest[j - 1]);
            }
        }
    }
}

/// A place with the slot's two properties is the slot.
pub proof fn lemma_rank_slot_is(keys: Seq<Seq<char>>, order: Seq<usize>, x: Seq<char>, k: int)
    requires
        0 <= k <= order.len(),
        forall|j: int| 0 <= j < k ==> !lex_lt(x, keys[order[j] as int]),
        k < order.len() ==> lex_lt(x, keys[order[k] as int]),
    ensures
        rank_slot(keys, order, x) == k,
{
    lemma_rank_slot(keys, order, x);
}

/// The slot depends on the keys of the entries alone.
pub proof fn lemma_rank_slot_same_keys(
    keys: Seq<Seq<char>>,
    other: Seq<Seq<char>>,
    order: Seq<usize>,
    x: Seq<char>,
)
    requires
        forall|j: int| 0 <= j < order.len() ==> keys[order[j] as int] == other[order[j] as int],
    ensures
        rank_slot(keys, order, x) == rank_slot(other, order, x),
{
    lemma_rank_slot(keys, order, x);
    lemma_rank_slot_is(other, order, x, rank_slot(keys, order, x));
}

/// The order lists each place once: it is as long as the keys, its entries
/// are places of keys, and no place stands twice.
pub proof fn lemma_order_is_permutation(keys: Seq<Seq<char>>)
    requires
        keys.len() <= usize::MAX,
    ensures
        stable_order(keys).len() == keys.len(),
        forall|a: int| 0 <= a < keys.len() ==> (#[trigger] stable_order(keys)[a]) < keys.len(),
        forall|a: int, b: int|
            0 <= a < b < keys.len() ==> stable_order(keys)[a] != stable_order(keys)[b],
    decreases keys.len(),
{
    if keys.len() > 0 {
        let front = stable_order(keys.drop_last());
        lemma_order_is_permutation(keys.drop_last());
        lemma_rank_slot(keys, front, keys.last());
        let k = rank_slot(keys, front, keys.last());
        let order = stable_order(keys);
        let last = (keys.len() - 1) as usize;
        assert forall|a: int| 0 <= a < keys.len() implies (#[trigger] order[a]) < keys.len() by {
            if a < k {
                assert(order[a] == front[a]);
            } else if a > k {
                assert(order[a] == front[a - 1]);
            }
        }
        assert forall|a: int, b: int| 0 <= a < b < keys.len() implies order[a] != order[b] by {
            let fa = if a < k { a } else { a - 1 };
            let fb = if b < k { b } else { b - 1 };
            if a != k {
                assert(order[a] == front[fa]);
            }
            if b != k {
                assert(order[b] == front[fb]);
            }
        }
    }
}

/// The order is sorted and stable: an entry's key does not come after the
/// key of a later entry, and of two entries with equal keys the earlier
/// place stands first.
pub proof fn lemma_order_is_sorted(keys: Seq<Seq<char>>)
    requires
        keys.len() <= usize::MAX,
    ensures
        forall|a: int, b: int|
            0 <= a < b < keys.len() ==> !lex_lt(
                keys[stable_order(keys)[b] as int],
                keys[stable_order(keys)[a] as int],
            ),
        forall|a: int, b: int|
            0 <= a < b < keys.len() && keys[stable_order(keys)[a] as int]
                == keys[stable_order(keys)[b] as int] ==> stable_order(keys)[a] < stable_order(
                keys,
            )[b],
    decreases keys.len(),
{
    if keys.len() > 0 {
        let shorter = keys.drop_last();
        let front = stable_order(shorter);
        let x = keys.last();
        lemma_order_is_permutation(shorter);
        lemma_order_is_permutation(keys);
        lemma_order_is_sorted(shorter);
        lemma_rank_slot(keys, front, x);
        let k = rank_slot(keys, front, x);
        let order = stable_order(keys);
        let last = (keys.len() - 1) as usize;
        assert forall|j: int| 0 <= j < front.len() implies keys[front[j] as int]
            == shorter[front[j] as int] by {}
        assert forall|a: int, b: int| 0 <= a < b < keys.len() implies !lex_lt(
            keys[order[b] as int],
            keys[order[a] as int],
        ) by {
            let fa = if a < k { a } else { a - 1 };
            let fb = if b < k { b } else { b - 1 };
            if a == k {
                assert(order[b] == front[fb]);
                // x comes before front[k], which does not come after front[fb]
                lemma_lex_total(keys[front[fb] as int], x);
                if fb > k {
                    if lex_lt(keys[front[fb] as int], x) {
                        lemma_lex_transitive(
                            keys[front[fb] as int],
                            x,
                            keys[front[k] as int],
                        );
                    }
                }
            } else if b == k {
                assert(order[a] == front[fa]);
            } else {
                assert(order[a] == front[fa] && order[b] == front[fb]);
            }
        }
        assert forall|a: int, b: int|
            0 <= a < b < keys.len() && keys[order[a] as int] == keys[order[b] as int] implies order[a]
            < order[b] by {
            let fa = if a < k { a } else { a - 1 };
            let fb = if b < k { b } else { b - 1 };
            if a == k {
                assert(order[b] == front[fb]);
                // the key at front[fb] comes after x or equals front[k]'s key
                lemma_lex_total(x, keys[front[k] as int]);
                crate::text::lemma_lex_irreflexive(x);
                if fb > k {
                    if keys[front[fb] as int] == x {
                        assert(!lex_lt(keys[front[fb] as int], keys[front[k] as int]));
                    }
                }
            } else if b == k {
                assert(order[a] == front[fa]);
            } else {
                assert(order[a] == front[fa] && order[b] == front[fb]);
            }
        }
    }
}

/// Every place of a key stands in the order.
pub proof fn lemma_order_lists(keys: Seq<Seq<char>>, at: int)
    requires
        0 <= at < keys.len(),
        keys.len() <= usize::MAX,
    ensures
        stable_order(keys).contains(at as usize),
    decreases keys.len(),
{
    let front = stable_order(keys.drop_last());
    let k = rank_slot(keys, front, keys.last());
    let order = stable_order(keys);
    lemma_rank_slot(keys, front, keys.last());
    lemma_order_is_permutation(keys.drop_last());
    if at < keys.len() - 1 {
        lemma_order_lists(keys.drop_last(), at);
        let m = choose|m: int| 0 <= m < front.len() && front[m] == at as usize;
        if m < k {
            assert(order[m] == at as usize);
        } else {
            assert(order[m + 1] == at as usize);
        }
    } else {
        assert(order[k] == at as usize);
    }
}

/// Orders the places of the keys by their keys, stably.
pub fn stable_order_of(keys: &Vec<String>) -> (order: Vec<usize>)
    ensures
        order@ == stable_order(texts_view(keys@)),
        order@.len() == keys@.len(),
        forall|a: int| 0 <= a < order@.len() ==> (#[trigger] order@[a]) < keys@.len(),
{
    let ghost all = texts_view(keys@);
    let mut order: Vec<usize> = Vec::new();
    let mut i: usize = 0;
    assert(all.take(0).len() == 0);
    while i < keys.len()
        invariant
            i <= keys.len(),
            all == texts_view(keys@),
            order@ == stable_order(all.take(i as int)),
        decreases keys.len() - i,
    {
        let ghost front = order@;
        let ghost shorter = all.take(i as int);
        let ghost longer = all.take(i as int + 1);
        proof {
            assert(longer.drop_last() == shorter);
            lemma_order_is_permutation(shorter);
        }
        let mut j: usize = 0;
        while j < order.len() && !str_lt(keys[i].as_str(), keys[order[j]].as_str())
            invariant
                j <= order.len(),
                i < keys.len(),
                all == texts_view(keys@),
                order@ == front,
                front.len() == i,
                forall|a: int| 0 <= a < front.len() ==> (#[trigger] front[a]) < i,
                forall|a: int| 0 <= a < j ==> !lex_lt(all[i as int], all[front[a] as int]),
            decreases order.len() - j,
        {
            j = j + 1;
        }
        proof {
            lemma_rank_slot_is(all, front, all[i as int], j as int);
            assert forall|a: int| 0 <= a < front.len() implies all[front[a] as int]
                == longer[front[a] as int] by {}
            lemma_rank_slot_same_keys(all, longer, front, all[i as int]);
            assert(longer.last() == all[i as int]);
        }
        order.insert(j, i);
        i = i + 1;
    }
    proof {
        assert(all.take(i as int) == all);
        lemma_order_is_permutation(all);
    }
    order
}

} // verus!
