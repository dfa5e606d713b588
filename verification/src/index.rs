//! The index from a name to the records that bear it.
//!
//! Several records may share a name, so a name leads to a list of places.
//! The names are kept in rising order and found by halving.

use crate::record::DefView;
use crate::record::RimWorldDef;
use crate::record::defs_view;
use crate::record::texts_view;
use crate::sorted::find_slot;
use crate::sorted::lemma_slot_membership;
use crate::sorted::lemma_sorted_insert;
use crate::sorted::sorted_insert;
use crate::sorted::strictly_sorted;
use crate::text::same_text;
use vstd::prelude::*;
use vstd::string::*;

verus! {

/// The names of the records, in their order.
pub open spec fn def_names(defs: Seq<DefView>) -> Seq<Seq<char>> {
    Seq::new(defs.len(), |i: int| defs[i].def_name)
}

/// The places in `names` that hold `name`, rising.
pub open spec fn indices_of(names: Seq<Seq<char>>, name: Seq<char>) -> Seq<usize>
    decreases names.len(),
{
    if names.len() == 0 {
        Seq::empty()
    } else if names.last() == name {
        indices_of(names.drop_last(), name).push((names.len() - 1) as usize)
    } else {
        indices_of(names.drop_last(), name)
    }
}

/// `indices_of` lists exactly the places that hold the name, each once.
pub proof fn lemma_indices_of(names: Seq<Seq<char>>, name: Seq<char>)
    requires
        names.len() <= usize::MAX,
    ensures
        forall|m: int|
            0 <= m < indices_of(names, name).len() ==> (#[trigger] indices_of(names, name)[m])
                < names.len() && names[indices_of(names, name)[m] as int] == name,
        forall|a: int, b: int|
            0 <= a < b < indices_of(names, name).len() ==> indices_of(names, name)[a]
                < indices_of(names, name)[b],
        forall|p: int|
            0 <= p < names.len() && names[p] == name ==> indices_of(names, name).contains(
                p as usize,
            ),
        indices_of(names, name).len() > 0 <==> names.contains(name),
    decreases names.len(),
{
    if names.len() > 0 {
        let front = names.drop_last();
        let last = (names.len() - 1) as usize;
        lemma_indices_of(front, name);
        let found = indices_of(names, name);
        let before = indices_of(front, name);
        assert forall|p: int| 0 <= p < names.len() && names[p] == name implies found.contains(
            p as usize,
        ) by {
            if p < names.len() - 1 {
                assert(front[p] == name);
                let m = choose|m: int| 0 <= m < before.len() && before[m] == p as usize;
                assert(found[m] == p as usize);
            } else {
                assert(found[found.len() - 1] == last);
            }
        }
        if names.contains(name) {
            let p = choose|p: int| 0 <= p < names.len() && names[p] == name;
            assert(found.contains(p as usize));
        }
        if found.len() > 0 {
            assert(names[found[0] as int] == name);
        }
    }
}

/// A name has no more places than there are names.
pub proof fn lemma_indices_count(names: Seq<Seq<char>>, name: Seq<char>)
    ensures
        indices_of(names, name).len() <= names.len(),
    decreases names.len(),
{
    if names.len() > 0 {
        lemma_indices_count(names.drop_last(), name);
    }
}

/// The names of a run's records, each with the places of the records that
/// bear it.
pub struct NameIndex {
    /// The names, rising, each once.
    pub names: Vec<String>,
    /// For each name the places of its records, rising.
    pub groups: Vec<Vec<usize>>,
}

impl NameIndex {
    /// The names are sorted and each has its group.
    pub open spec fn wf(&self) -> bool {
        &&& strictly_sorted(texts_view(self.names@))
        &&& self.groups@.len() == self.names@.len()
    }

    /// The index holds exactly the given names, each with all its places.
    pub open spec fn matches(&self, all: Seq<Seq<char>>) -> bool {
        &&& self.wf()
        &&& forall|k: int|
            0 <= k < self.names@.len() ==> (#[trigger] self.groups@[k])@ == indices_of(
                all,
                self.names@[k]@,
            )
        &&& forall|t: Seq<char>| texts_view(self.names@).contains(t) <==> all.contains(t)
    }

    /// An index without names.
    pub fn new() -> (index: Self)
        ensures
            index.matches(Seq::empty()),
    {
        let index = NameIndex { names: Vec::new(), groups: Vec::new() };
        assert(texts_view(index.names@) == Seq::<Seq<char>>::empty());
        index
    }

    /// Finds the group of a name.
    pub fn lookup(&self, name: &str) -> (r: Option<usize>)
        requires
            self.wf(),
        ensures
            match r {
                Some(k) => k < self.names@.len() && self.names@[k as int]@ == name@,
                None => !texts_view(self.names@).contains(name@),
            },
    {
        let slot = find_slot(&self.names, name);
        proof {
            lemma_slot_membership(texts_view(self.names@), name@);
        }
        if slot < self.names.len() && same_text(self.names[slot].as_str(), name) {
            Some(slot)
        } else {
            None
        }
    }

    /// Enters one more record: the place `at` under the name `name`.
    pub(crate) fn enter(&mut self, name: &String, at: usize, Ghost(all): Ghost<Seq<Seq<char>>>)
        requires
            old(self).matches(all),
            at == all.len(),
        ensures
            final(self).matches(all.push(name@)),
    {
        let ghost keys = texts_view(self.names@);
        let ghost more = all.push(name@);
        let slot = find_slot(&self.names, name.as_str());
        proof {
            lemma_slot_membership(keys, name@);
            lemma_sorted_insert(keys, name@);
            assert(more.drop_last() == all);
            lemma_indices_of(all, name@);
        }
        if slot < self.names.len() && same_text(self.names[slot].as_str(), name.as_str()) {
            self.groups[slot].push(at);
            proof {
                assert(self.names@ == old(self).names@);
                assert forall|k: int| 0 <= k < self.names@.len() implies (
                #[trigger] self.groups@[k])@ == indices_of(more, self.names@[k]@) by {
                    if k != slot {
                        assert(self.groups@[k] == old(self).groups@[k]);
                        assert(keys[k] != keys[slot as int]) by {
                            crate::sorted::lemma_sorted_no_duplicates(keys);
                        }
                    }
                }
                assert forall|t: Seq<char>| keys.contains(t) <==> more.contains(t) by {
                    if more.contains(t) {
                        let i = choose|i: int| 0 <= i < more.len() && more[i] == t;
                        if i < all.len() {
                            assert(all[i] == t);
                        }
                    }
                    if all.contains(t) {
                        let i = choose|i: int| 0 <= i < all.len() && all[i] == t;
                        assert(more[i] == t);
                    }
                }
            }
        } else {
            let mut group: Vec<usize> = Vec::new();
            group.push(at);
            self.names.insert(slot, name.clone());
            self.groups.insert(slot, group);
            proof {
                let keys2 = texts_view(self.names@);
                assert(keys2 == keys.insert(slot as int, name@));
                assert(keys2 == sorted_insert(keys, name@));
                assert(!all.contains(name@));
                assert(indices_of(all, name@).len() == 0);
                assert(indices_of(more, name@) == seq![at]);
                assert forall|k: int| 0 <= k < self.names@.len() implies (
                #[trigger] self.groups@[k])@ == indices_of(more, self.names@[k]@) by {
                    if k < slot {
                        assert(self.groups@[k] == old(self).groups@[k]);
                        assert(self.names@[k] == old(self).names@[k]);
                        assert(keys[k] != name@) by {
                            assert(keys.contains(keys[k]));
                        }
                    } else if k > slot {
                        assert(self.groups@[k] == old(self).groups@[k - 1]);
                        assert(self.names@[k] == old(self).names@[k - 1]);
                        assert(keys[k - 1] != name@) by {
                            assert(keys.contains(keys[k - 1]));
                        }
                    }
                }
                assert forall|t: Seq<char>| keys2.contains(t) <==> more.contains(t) by {
                    if more.contains(t) {
                        let i = choose|i: int| 0 <= i < more.len() && more[i] == t;
                        if i < all.len() {
                            assert(all[i] == t);
                        }
                    }
                    if all.contains(t) {
                        let i = choose|i: int| 0 <= i < all.len() && all[i] == t;
                        assert(more[i] == t);
                    }
                    if t == name@ {
                        assert(more[all.len() as int] == t);
                    }
                }
            }
        }
    }
}

/// Builds the index of the names of the given records.
pub fn build_index(defs: &Vec<RimWorldDef>) -> (index: NameIndex)
    ensures
        index.matches(def_names(defs_view(defs@))),
{
    let ghost all = def_names(defs_view(defs@));
    let mut index = NameIndex::new();
    let mut i: usize = 0;
    assert(all.take(0) == Seq::<Seq<char>>::empty());
    while i < defs.len()
        invariant
            i <= defs.len(),
            all == def_names(defs_view(defs@)),
            index.matches(all.take(i as int)),
        decreases defs.len() - i,
    {
        proof {
            assert(all.take(i as int).push(defs[i as int].def_name@) == all.take(i as int + 1));
        }
        index.enter(&defs[i].def_name, i, Ghost(all.take(i as int)));
        i = i + 1;
    }
    proof {
        assert(all.take(i as int) == all);
    }
    index
}

} // verus!
