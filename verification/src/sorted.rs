//! Lists of texts in strictly rising order.

use crate::record::texts_view;
use crate::text::lemma_lex_irreflexive;
use crate::text::lemma_lex_total;
use crate::text::lemma_lex_transitive;
use crate::text::lex_lt;
use crate::text::same_text;
use crate::text::str_lt;
use vstd::prelude::*;
use vstd::string::*;

verus! {

/// Each text comes before all that follow it.
pub open spec fn strictly_sorted(s: Seq<Seq<char>>) -> bool {
    forall|i: int, j: int| 0 <= i < j < s.len() ==> lex_lt(s[i], s[j])
}

/// The number of leading texts that come before `x`.
pub open spec fn slot_of(s: Seq<Seq<char>>, x: Seq<char>) -> int
    decreases s.len(),
{
    if s.len() > 0 && lex_lt(s[0], x) {
        1 + slot_of(s.drop_first(), x)
    } else {
        0
    }
}

/// The list with `x` put in at its slot, unless it stands there already.
pub open spec fn sorted_insert(s: Seq<Seq<char>>, x: Seq<char>) -> Seq<Seq<char>> {
    let i = slot_of(s, x);
    if i < s.len() && s[i] == x {
        s
    } else {
        s.insert(i, x)
    }
}

/// The texts in rising order, each once.
pub open spec fn sorted_unique(texts: Seq<Seq<char>>) -> Seq<Seq<char>>
    decreases texts.len(),
{
    if texts.len() == 0 {
        Seq::empty()
    } else {
        sorted_insert(sorted_unique(texts.drop_last()), texts.last())
    }
}

/// The slot is the first place whose text does not come before `x`.
pub proof fn lemma_slot(s: Seq<Seq<char>>, x: Seq<char>)
    ensures
        0 <= slot_of(s, x) <= s.len(),
        forall|j: int| 0 <= j < slot_of(s, x) ==> lex_lt(s[j], x),
        slot_of(s, x) < s.len() ==> !lex_lt(s[slot_of(s, x)], x),
    decreases s.len(),
{
    if s.len() > 0 && lex_lt(s[0], x) {
        let rest = s.drop_first();
        lemma_slot(rest, x);
        assert forall|j: int| 0 <= j < slot_of(s, x) implies lex_lt(s[j], x) by {
            if j > 0 {
                assert(s[j] == rest[j - 1]);
            }
        }
    }
}

/// A place with the slot's two properties is the slot.
pub proof fn lemma_slot_is(s: Seq<Seq<char>>, x: Seq<char>, k: int)
    requires
        0 <= k <= s.len(),
        forall|j: int| 0 <= j < k ==> lex_lt(s[j], x),
        k < s.len() ==> !lex_lt(s[k], x),
    ensures
        slot_of(s, x) == k,
{
    lemma_slot(s, x);
}

/// In a sorted list a text stands at its slot or nowhere.
pub proof fn lemma_slot_membership(s: Seq<Seq<char>>, x: Seq<char>)
    requires
        strictly_sorted(s),
    ensures
        s.contains(x) <==> (slot_of(s, x) < s.len() && s[slot_of(s, x)] == x),
{
    lemma_slot(s, x);
    let k = slot_of(s, x);
    if s.contains(x) {
        let i = choose|i: int| 0 <= i < s.len() && s[i] == x;
        lemma_lex_irreflexive(x);
        if i > k {
            lemma_lex_total(s[k], x);
            if s[k] != x {
                lemma_lex_transitive(x, s[k], s[i]);
            }
        }
    }
}

/// Putting a text into a sorted list leaves it sorted, and adds that text
/// and no other.
pub proof fn lemma_sorted_insert(s: Seq<Seq<char>>, x: Seq<char>)
    requires
        strictly_sorted(s),
    ensures
        strictly_sorted(sorted_insert(s, x)),
        forall|y: Seq<char>| sorted_insert(s, x).contains(y) <==> (s.contains(y) || y == x),
{
    lemma_slot(s, x);
    let k = slot_of(s, x);
    let r = sorted_insert(s, x);
    if k < s.len() && s[k] == x {
        assert forall|y: Seq<char>| r.contains(y) <==> (s.contains(y) || y == x) by {
            if y == x {
                assert(s[k] == y);
            }
        }
    } else {
        assert forall|i: int, j: int| 0 <= i < j < r.len() implies lex_lt(r[i], r[j]) by {
            if j == k {
                assert(r[i] == s[i]);
            } else if i == k {
                assert(r[j] == s[j - 1]);
                lemma_lex_total(s[k], x);
                if j - 1 > k {
                    lemma_lex_transitive(x, s[k], s[j - 1]);
                }
            } else {
                let a = if i < k { i } else { i - 1 };
                let b = if j < k { j } else { j - 1 };
                assert(r[i] == s[a] && r[j] == s[b]);
            }
        }
        assert forall|y: Seq<char>| r.contains(y) <==> (s.contains(y) || y == x) by {
            if r.contains(y) {
                let i = choose|i: int| 0 <= i < r.len() && r[i] == y;
                if i < k {
                    assert(s[i] == y);
                } else if i > k {
                    assert(s[i - 1] == y);
                }
            }
            if s.contains(y) {
                let i = choose|i: int| 0 <= i < s.len() && s[i] == y;
                if i < k {
                    assert(r[i] == y);
                } else {
                    assert(r[i + 1] == y);
                }
            }
            if y == x {
                assert(r[k] == y);
            }
        }
    }
}

/// `sorted_unique` gives a sorted list of exactly the given texts.
pub proof fn lemma_sorted_unique(texts: Seq<Seq<char>>)
    ensures
        strictly_sorted(sorted_unique(texts)),
        forall|y: Seq<char>| sorted_unique(texts).contains(y) <==> texts.contains(y),
    decreases texts.len(),
{
    if texts.len() > 0 {
        let front = texts.drop_last();
        lemma_sorted_unique(front);
        lemma_sorted_insert(sorted_unique(front), texts.last());
        assert forall|y: Seq<char>| sorted_unique(texts).contains(y) <==> texts.contains(y) by {
            if texts.contains(y) {
                let i = choose|i: int| 0 <= i < texts.len() && texts[i] == y;
                if i < texts.len() - 1 {
                    assert(front[i] == y);
                }
            }
            if front.contains(y) {
                let i = choose|i: int| 0 <= i < front.len() && front[i] == y;
                assert(texts[i] == y);
            }
            if y == texts.last() {
                assert(texts[texts.len() - 1] == y);
            }
        }
    }
}

/// No text stands twice in a sorted list.
pub proof fn lemma_sorted_no_duplicates(s: Seq<Seq<char>>)
    requires
        strictly_sorted(s),
    ensures
        s.no_duplicates(),
{
    assert forall|i: int, j: int| 0 <= i < s.len() && 0 <= j < s.len() && i != j implies s[i]
        != s[j] by {
        lemma_lex_irreflexive(s[i]);
    }
}

/// Finds the slot of `x` in a sorted list by halving.
pub fn find_slot(sorted: &Vec<String>, x: &str) -> (slot: usize)
    requires
        strictly_sorted(texts_view(sorted@)),
    ensures
        slot == slot_of(texts_view(sorted@), x@),
        slot <= sorted.len(),
{
    let ghost s = texts_view(sorted@);
    let mut low: usize = 0;
    let mut high: usize = sorted.len();
    while low < high
        invariant
            low <= high <= sorted.len(),
            s == texts_view(sorted@),
            strictly_sorted(s),
            forall|j: int| 0 <= j < low ==> lex_lt(s[j], x@),
            forall|j: int| high <= j < s.len() ==> !lex_lt(s[j], x@),
        decreases high - low,
    {
        let mid: usize = low + (high - low) / 2;
        if str_lt(sorted[mid].as_str(), x) {
            proof {
                assert forall|j: int| 0 <= j < mid + 1 implies lex_lt(s[j], x@) by {
                    if j < mid {
                        lemma_lex_transitive(s[j], s[mid as int], x@);
                    }
                }
            }
            low = mid + 1;
        } else {
            proof {
                assert forall|j: int| mid <= j < s.len() implies !lex_lt(s[j], x@) by {
                    if j > mid && lex_lt(s[j], x@) {
                        lemma_lex_transitive(s[mid as int], s[j], x@);
                    }
                }
            }
            high = mid;
        }
    }
    proof {
        lemma_slot_is(s, x@, low as int);
    }
    low
}

/// Whether `x` stands in a sorted list.
pub fn sorted_contains(sorted: &Vec<String>, x: &str) -> (r: bool)
    requires
        strictly_sorted(texts_view(sorted@)),
    ensures
        r == texts_view(sorted@).contains(x@),
{
    let slot = find_slot(sorted, x);
    proof {
        lemma_slot_membership(texts_view(sorted@), x@);
    }
    slot < sorted.len() && same_text(sorted[slot].as_str(), x)
}

/// Puts `x` into a sorted list, unless it stands there already.
pub fn insert_sorted(sorted: &mut Vec<String>, x: String)
    requires
        strictly_sorted(texts_view(old(sorted)@)),
    ensures
        texts_view(final(sorted)@) == sorted_insert(texts_view(old(sorted)@), x@),
        strictly_sorted(texts_view(final(sorted)@)),
{
    let slot = find_slot(sorted, x.as_str());
    proof {
        lemma_sorted_insert(texts_view(sorted@), x@);
    }
    if slot < sorted.len() && same_text(sorted[slot].as_str(), x.as_str()) {
    } else {
        sorted.insert(slot, x);
        assert(texts_view(sorted@) == texts_view(old(sorted)@).insert(slot as int, x@));
    }
}

/// Puts the texts in rising order and drops what occurs again.
pub fn sort_dedup(texts: &Vec<String>) -> (sorted: Vec<String>)
    ensures
        texts_view(sorted@) == sorted_unique(texts_view(texts@)),
        strictly_sorted(texts_view(sorted@)),
        forall|y: Seq<char>| texts_view(sorted@).contains(y) <==> texts_view(texts@).contains(y),
{
    let ghost all = texts_view(texts@);
    let mut sorted: Vec<String> = Vec::new();
    let mut i: usize = 0;
    assert(all.take(0) == Seq::<Seq<char>>::empty());
    while i < texts.len()
        invariant
            i <= texts.len(),
            all == texts_view(texts@),
            texts_view(sorted@) == sorted_unique(all.take(i as int)),
            strictly_sorted(texts_view(sorted@)),
        decreases texts.len() - i,
    {
        proof {
            assert(all.take(i as int + 1).drop_last() == all.take(i as int));
        }
        insert_sorted(&mut sorted, texts[i].clone());
        i = i + 1;
    }
    proof {
        assert(all.take(i as int) == all);
        lemma_sorted_unique(all);
    }
    sorted
}

} // verus!
