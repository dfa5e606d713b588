//! Resolving the references between the records of a run.
//!
//! A candidate counts as a reference where it is the name of a record other
//! than the one it stands in. Each reference is entered at its source and
//! at every record that bears the name; a record that declares a parent is
//! entered at every record that bears the parent's name, unless its name
//! stands there already.

use crate::index::NameIndex;
use crate::index::build_index;
use crate::index::def_names;
use crate::index::indices_of;
use crate::index::lemma_indices_of;
use crate::parser::DefParser;
use crate::profile::flag_tag;
use crate::record::DefView;
use crate::record::RimWorldDef;
use crate::record::defs_view;
use crate::record::texts_view;
use crate::references::forest_codes;
use crate::references::forest_refs;
use crate::sorted::lemma_sorted_no_duplicates;
use crate::sorted::sorted_unique;
use crate::sorted::strictly_sorted;
use crate::text::same_text;
use vstd::prelude::*;
use vstd::string::*;

verus! {

/// Whether a candidate is a reference: a known name other than one's own.
pub open spec fn is_reference(names: Seq<Seq<char>>, own: Seq<char>, candidate: Seq<char>) -> bool {
    names.contains(candidate) && candidate != own
}

/// The candidates that are references, in their order.
pub open spec fn keep_valid(names: Seq<Seq<char>>, own: Seq<char>, candidates: Seq<Seq<char>>) -> Seq<
    Seq<char>,
>
    decreases candidates.len(),
{
    if candidates.len() == 0 {
        Seq::empty()
    } else {
        keep_valid(names, own, candidates.drop_last()) + flag_tag(
            is_reference(names, own, candidates.last()),
            candidates.last(),
        )
    }
}

/// The outgoing references of the record at `j`.
pub open spec fn out_refs(defs: Seq<DefView>, j: int) -> Seq<Seq<char>> {
    keep_valid(def_names(defs), defs[j].def_name, sorted_unique(forest_refs(defs[j].elements)))
}

/// The code names of the record at `j`.
pub open spec fn code_refs(defs: Seq<DefView>, j: int) -> Seq<Seq<char>> {
    sorted_unique(forest_codes(defs[j].elements))
}

/// The names of the records before `upto` that refer to the record at `p`,
/// in the order of the records.
pub open spec fn direct_in(defs: Seq<DefView>, p: int, upto: int) -> Seq<Seq<char>>
    decreases upto,
{
    if upto <= 0 {
        Seq::empty()
    } else {
        direct_in(defs, p, upto - 1) + flag_tag(
            out_refs(defs, upto - 1).contains(defs[p].def_name),
            defs[upto - 1].def_name,
        )
    }
}

/// The list `acc` with the name added unless it stands in it.
pub open spec fn add_once(acc: Seq<Seq<char>>, name: Seq<char>) -> Seq<Seq<char>> {
    if acc.contains(name) {
        acc
    } else {
        acc.push(name)
    }
}

/// The incoming names of the record at `p` after the records before `upto`
/// have entered themselves at their parents, starting from `base`.
pub open spec fn inherited_in(defs: Seq<DefView>, p: int, base: Seq<Seq<char>>, upto: int) -> Seq<
    Seq<char>,
>
    decreases upto,
{
    if upto <= 0 {
        base
    } else {
        let acc = inherited_in(defs, p, base, upto - 1);
        if defs[upto - 1].parent_name == Some(defs[p].def_name) {
            add_once(acc, defs[upto - 1].def_name)
        } else {
            acc
        }
    }
}

/// The incoming names of the record at `p` once all references are entered:
/// what stood there before, then the records that refer to it, then the
/// records that inherit from it and are not yet named.
pub open spec fn incoming(defs: Seq<DefView>, p: int) -> Seq<Seq<char>> {
    inherited_in(
        defs,
        p,
        defs[p].references_in + direct_in(defs, p, defs.len() as int),
        defs.len() as int,
    )
}

/// A record with its three reference lists replaced.
pub open spec fn with_refs(
    d: DefView,
    references_out: Seq<Seq<char>>,
    references_in: Seq<Seq<char>>,
    code_references: Seq<Seq<char>>,
) -> DefView {
    DefView {
        def_name: d.def_name,
        def_type: d.def_type,
        label: d.label,
        description: d.description,
        parent_name: d.parent_name,
        is_abstract: d.is_abstract,
        elements: d.elements,
        file_path: d.file_path,
        tags: d.tags,
        stats: d.stats,
        references_out: references_out,
        references_in: references_in,
        code_references: code_references,
        raw_xml: d.raw_xml,
        extension: d.extension,
    }
}

/// The record at `p` with its references resolved.
pub open spec fn resolved_at(defs: Seq<DefView>, p: int) -> DefView {
    with_refs(defs[p], out_refs(defs, p), incoming(defs, p), code_refs(defs, p))
}

/// The records with their references resolved.
pub open spec fn resolved(defs: Seq<DefView>) -> Seq<DefView> {
    Seq::new(defs.len(), |p: int| resolved_at(defs, p))
}

/// The references among sorted candidates are sorted, and they are the
/// candidates that are references.
pub proof fn lemma_keep_valid(names: Seq<Seq<char>>, own: Seq<char>, candidates: Seq<Seq<char>>)
    ensures
        forall|t: Seq<char>|
            #![trigger keep_valid(names, own, candidates).contains(t)]
            keep_valid(names, own, candidates).contains(t) <==> (candidates.contains(t)
                && is_reference(names, own, t)),
        strictly_sorted(candidates) ==> strictly_sorted(keep_valid(names, own, candidates)),
    decreases candidates.len(),
{
    let kept = keep_valid(names, own, candidates);
    if candidates.len() > 0 {
        let front = candidates.drop_last();
        let last = candidates.last();
        let before = keep_valid(names, own, front);
        lemma_keep_valid(names, own, front);
        assert forall|t: Seq<char>| kept.contains(t) <==> (candidates.contains(t) && is_reference(
            names,
            own,
            t,
        )) by {
            if kept.contains(t) {
                let i = choose|i: int| 0 <= i < kept.len() && kept[i] == t;
                if i < before.len() {
                    assert(before[i] == t);
                    assert(before.contains(t));
                    let k = choose|k: int| 0 <= k < front.len() && front[k] == t;
                    assert(candidates[k] == t);
                } else {
                    assert(t == last);
                    assert(candidates[candidates.len() - 1] == t);
                }
            }
            if candidates.contains(t) && is_reference(names, own, t) {
                let k = choose|k: int| 0 <= k < candidates.len() && candidates[k] == t;
                if k < front.len() {
                    assert(front[k] == t);
                    assert(front.contains(t));
                    assert(before.contains(t));
                    let i = choose|i: int| 0 <= i < before.len() && before[i] == t;
                    assert(kept[i] == t);
                } else {
                    assert(kept[kept.len() - 1] == t);
                }
            }
        }
        if strictly_sorted(candidates) {
            assert(strictly_sorted(front)) by {
                assert forall|i: int, j: int| 0 <= i < j < front.len() implies crate::text::lex_lt(
                    front[i],
                    front[j],
                ) by {
                    assert(front[i] == candidates[i] && front[j] == candidates[j]);
                }
            }
            assert forall|i: int, j: int| 0 <= i < j < kept.len() implies crate::text::lex_lt(
                kept[i],
                kept[j],
            ) by {
                if j < before.len() {
                    assert(kept[i] == before[i] && kept[j] == before[j]);
                } else {
                    assert(kept[j] == last);
                    assert(kept[i] == before[i]);
                    assert(before.contains(before[i]));
                    let k = choose|k: int| 0 <= k < front.len() && front[k] == before[i];
                    assert(candidates[k] == kept[i]);
                }
            }
        }
    }
}

/// The record with one more incoming name.
pub open spec fn add_in(d: DefView, name: Seq<char>) -> DefView {
    with_refs(d, d.references_out, d.references_in.push(name), d.code_references)
}

/// The record with the incoming name added unless it stands there.
pub open spec fn add_in_once(d: DefView, name: Seq<char>) -> DefView {
    with_refs(d, d.references_out, add_once(d.references_in, name), d.code_references)
}

/// The places rise and lie below `bound`.
pub open spec fn rising_below(group: Seq<usize>, bound: int) -> bool {
    &&& forall|m: int| 0 <= m < group.len() ==> (#[trigger] group[m]) < bound
    &&& forall|a: int, b: int| 0 <= a < b < group.len() ==> group[a] < group[b]
}

/// Whether a text stands in a list.
pub fn vec_contains(texts: &Vec<String>, x: &str) -> (r: bool)
    ensures
        r == texts_view(texts@).contains(x@),
{
    let mut i: usize = 0;
    while i < texts.len()
        invariant
            i <= texts.len(),
            forall|j: int| 0 <= j < i ==> texts_view(texts@)[j] != x@,
        decreases texts.len() - i,
    {
        if same_text(texts[i].as_str(), x) {
            assert(texts_view(texts@)[i as int] == x@);
            return true;
        }
        i = i + 1;
    }
    false
}

/// Appends `name` to the incoming names of the record at `at`; with `once`
/// set, only where it does not stand there.
fn enter_incoming(defs: &mut Vec<RimWorldDef>, at: usize, name: &String, once: bool)
    requires
        at < old(defs)@.len(),
    ensures
        final(defs)@.len() == old(defs)@.len(),
        defs_view(final(defs)@) == defs_view(old(defs)@).update(
            at as int,
            if once {
                add_in_once(old(defs)@[at as int]@, name@)
            } else {
                add_in(old(defs)@[at as int]@, name@)
            },
        ),
{
    let ghost before = defs@[at as int]@;
    if once && vec_contains(&defs[at].references_in, name.as_str()) {
        assert(defs_view(defs@) == defs_view(defs@).update(at as int, before));
    } else {
        defs[at].references_in.push(name.clone());
        proof {
            let after = defs@[at as int]@;
            assert(after.references_in == before.references_in.push(name@));
            assert(after == add_in(before, name@));
            assert(defs_view(defs@) == defs_view(old(defs)@).update(at as int, after));
        }
    }
}

/// Enters `name` as an incoming name at each place of the group.
fn fan_out(defs: &mut Vec<RimWorldDef>, group: &Vec<usize>, name: &String, once: bool)
    requires
        rising_below(group@, old(defs)@.len() as int),
    ensures
        final(defs)@.len() == old(defs)@.len(),
        forall|p: int|
            0 <= p < old(defs)@.len() ==> (#[trigger] defs_view(final(defs)@)[p]) == (if group@.contains(
                p as usize,
            ) {
                if once {
                    add_in_once(defs_view(old(defs)@)[p], name@)
                } else {
                    add_in(defs_view(old(defs)@)[p], name@)
                }
            } else {
                defs_view(old(defs)@)[p]
            }),
{
    let ghost start = defs_view(defs@);
    let ghost places = group@;
    let mut m: usize = 0;
    assert(start.len() == defs.len());
    while m < group.len()
        invariant
            m <= group.len(),
            places == group@,
            defs@.len() == start.len(),
            start.len() <= usize::MAX,
            rising_below(places, start.len() as int),
            forall|p: int|
                0 <= p < start.len() ==> (#[trigger] defs_view(defs@)[p]) == (if places.take(
                    m as int,
                ).contains(p as usize) {
                    if once {
                        add_in_once(start[p], name@)
                    } else {
                        add_in(start[p], name@)
                    }
                } else {
                    start[p]
                }),
        decreases group.len() - m,
    {
        let at = group[m];
        let ghost cur = defs_view(defs@);
        proof {
            assert(places[m as int] == at);
            assert(!places.take(m as int).contains(at)) by {
                if places.take(m as int).contains(at) {
                    let a = choose|a: int|
                        0 <= a < places.take(m as int).len() && places.take(m as int)[a] == at;
                    assert(places[a] < places[m as int]);
                }
            }
            assert(cur[at as int] == start[at as int]);
        }
        enter_incoming(defs, at, name, once);
        proof {
            let next = places.take(m as int + 1);
            assert(next.drop_last() == places.take(m as int));
            assert forall|p: int| 0 <= p < start.len() implies (#[trigger] defs_view(defs@)[p])
                == (if next.contains(p as usize) {
                if once {
                    add_in_once(start[p], name@)
                } else {
                    add_in(start[p], name@)
                }
            } else {
                start[p]
            }) by {
                if p == at {
                    assert(next[m as int] == at);
                } else {
                    assert(defs_view(defs@)[p] == cur[p]);
                    if next.contains(p as usize) {
                        let a = choose|a: int| 0 <= a < next.len() && next[a] == p as usize;
                        assert(a < m);
                        assert(places.take(m as int)[a] == p as usize);
                    }
                    if places.take(m as int).contains(p as usize) {
                        let a = choose|a: int|
                            0 <= a < places.take(m as int).len() && places.take(m as int)[a]
                                == p as usize;
                        assert(next[a] == p as usize);
                    }
                }
            }
        }
        m = m + 1;
    }
    proof {
        assert(places.take(m as int) == places);
    }
}

/// The record at `p` while references are entered: the records before
/// `done` have entered theirs, and `extra` has been added since.
pub open spec fn direct_stage(defs: Seq<DefView>, p: int, done: int, extra: Seq<Seq<char>>) -> DefView {
    with_refs(
        defs[p],
        if p < done {
            out_refs(defs, p)
        } else {
            defs[p].references_out
        },
        defs[p].references_in + direct_in(defs, p, done) + extra,
        if p < done {
            code_refs(defs, p)
        } else {
            defs[p].code_references
        },
    )
}

/// Keeps the candidates that are names of records other than `own`.
fn filter_valid(
    index: &NameIndex,
    own: &String,
    candidates: &Vec<String>,
    Ghost(names): Ghost<Seq<Seq<char>>>,
) -> (valid: Vec<String>)
    requires
        index.matches(names),
    ensures
        texts_view(valid@) == keep_valid(names, own@, texts_view(candidates@)),
{
    let ghost all = texts_view(candidates@);
    let mut valid: Vec<String> = Vec::new();
    let mut k: usize = 0;
    assert(texts_view(valid@) == keep_valid(names, own@, all.take(0)));
    while k < candidates.len()
        invariant
            k <= candidates.len(),
            all == texts_view(candidates@),
            index.matches(names),
            texts_view(valid@) == keep_valid(names, own@, all.take(k as int)),
        decreases candidates.len() - k,
    {
        proof {
            assert(all.take(k as int + 1).drop_last() == all.take(k as int));
        }
        let found = index.lookup(candidates[k].as_str());
        let known = found.is_some();
        let ghost before = texts_view(valid@);
        proof {
            let keys = texts_view(index.names@);
            if let Some(slot) = found {
                assert(keys[slot as int] == all[k as int]);
            }
            assert(known == names.contains(all[k as int]));
            assert(all.take(k as int + 1).last() == all[k as int]);
        }
        if known && !same_text(candidates[k].as_str(), own.as_str()) {
            valid.push(candidates[k].clone());
            assert(texts_view(valid@) == before + flag_tag(true, all[k as int]));
        } else {
            assert(texts_view(valid@) == before + flag_tag(false, all[k as int]));
        }
        k = k + 1;
    }
    proof {
        assert(all.take(k as int) == all);
    }
    valid
}

/// Enters `source` as an incoming name at every record whose name is
/// among `targets`.
fn enter_at_targets(
    defs: &mut Vec<RimWorldDef>,
    index: &NameIndex,
    targets: &Vec<String>,
    source: &String,
    once: bool,
    Ghost(names): Ghost<Seq<Seq<char>>>,
)
    requires
        index.matches(names),
        names.len() == old(defs)@.len(),
        strictly_sorted(texts_view(targets@)),
    ensures
        final(defs)@.len() == old(defs)@.len(),
        forall|p: int|
            0 <= p < old(defs)@.len() ==> (#[trigger] defs_view(final(defs)@)[p]) == (if texts_view(
                targets@,
            ).contains(names[p]) {
                if once {
                    add_in_once(defs_view(old(defs)@)[p], source@)
                } else {
                    add_in(defs_view(old(defs)@)[p], source@)
                }
            } else {
                defs_view(old(defs)@)[p]
            }),
{
    let ghost start = defs_view(defs@);
    let ghost wanted = texts_view(targets@);
    let mut k: usize = 0;
    assert(start.len() == defs.len());
    while k < targets.len()
        invariant
            k <= targets.len(),
            wanted == texts_view(targets@),
            strictly_sorted(wanted),
            index.matches(names),
            names.len() == start.len(),
            defs@.len() == start.len(),
            start.len() <= usize::MAX,
            forall|p: int|
                0 <= p < start.len() ==> (#[trigger] defs_view(defs@)[p]) == (if wanted.take(
                    k as int,
                ).contains(names[p]) {
                    if once {
                        add_in_once(start[p], source@)
                    } else {
                        add_in(start[p], source@)
                    }
                } else {
                    start[p]
                }),
        decreases targets.len() - k,
    {
        let ghost cur = defs_view(defs@);
        let ghost target = wanted[k as int];
        let ghost seen = wanted.take(k as int);
        let ghost next = wanted.take(k as int + 1);
        proof {
            lemma_sorted_no_duplicates(wanted);
            lemma_indices_of(names, target);
            assert(!seen.contains(target)) by {
                if seen.contains(target) {
                    let a = choose|a: int| 0 <= a < seen.len() && seen[a] == target;
                    assert(wanted[a] == wanted[k as int]);
                }
            }
            assert forall|t: Seq<char>| next.contains(t) <==> (seen.contains(t) || t == target) by {
                if next.contains(t) {
                    let a = choose|a: int| 0 <= a < next.len() && next[a] == t;
                    if a < k {
                        assert(seen[a] == t);
                    }
                }
                if seen.contains(t) {
                    let a = choose|a: int| 0 <= a < seen.len() && seen[a] == t;
                    assert(next[a] == t);
                }
                if t == target {
                    assert(next[k as int] == t);
                }
            }
        }
        match index.lookup(targets[k].as_str()) {
            Some(slot) => {
                let group = &index.groups[slot];
                proof {
                    assert(group@ == indices_of(names, target));
                    assert(rising_below(group@, start.len() as int));
                }
                fan_out(defs, group, source, once);
                proof {
                    assert forall|p: int| 0 <= p < start.len() implies (#[trigger] defs_view(
                        defs@,
                    )[p]) == (if next.contains(names[p]) {
                        if once {
                            add_in_once(start[p], source@)
                        } else {
                            add_in(start[p], source@)
                        }
                    } else {
                        start[p]
                    }) by {
                        if group@.contains(p as usize) {
                            let m = choose|m: int| 0 <= m < group@.len() && group@[m] == p as usize;
                            assert(names[group@[m] as int] == target);
                            assert(cur[p] == start[p]);
                        } else {
                            assert(names[p] != target);
                            assert(defs_view(defs@)[p] == cur[p]);
                        }
                    }
                }
            },
            None => {
                proof {
                    assert(!names.contains(target));
                    assert forall|p: int| 0 <= p < start.len() implies names[p] != target by {
                        assert(names.contains(names[p]));
                    }
                }
            },
        }
        k = k + 1;
    }
    proof {
        assert(wanted.take(k as int) == wanted);
    }
}

impl DefParser {
    /// Gives each record its outgoing references and code names, and
    /// enters each reference at the records that bear the name.
    fn enter_references(&mut self)
        requires
            old(self).def_name_map.matches(def_names(defs_view(old(self).parsed_defs@))),
        ensures
            final(self).def_name_map == old(self).def_name_map,
            final(self).rimworld_data_path == old(self).rimworld_data_path,
            final(self).parsed_defs@.len() == old(self).parsed_defs@.len(),
            forall|p: int|
                0 <= p < old(self).parsed_defs@.len() ==> (#[trigger] defs_view(
                    final(self).parsed_defs@,
                )[p]) == direct_stage(
                    defs_view(old(self).parsed_defs@),
                    p,
                    old(self).parsed_defs@.len() as int,
                    Seq::empty(),
                ),
    {
        let ghost defs0 = defs_view(self.parsed_defs@);
        let ghost names = def_names(defs0);
        let n: usize = self.parsed_defs.len();
        let mut i: usize = 0;
        proof {
            assert forall|p: int| 0 <= p < n implies (#[trigger] defs_view(self.parsed_defs@)[p])
                == direct_stage(defs0, p, 0, Seq::empty()) by {
                assert(defs0[p].references_in + direct_in(defs0, p, 0) + Seq::<Seq<char>>::empty()
                    == defs0[p].references_in);
            }
        }
        while i < n
            invariant
                i <= n,
                n == defs0.len(),
                names == def_names(defs0),
                self.parsed_defs@.len() == n,
                self.def_name_map == old(self).def_name_map,
                self.rimworld_data_path == old(self).rimworld_data_path,
                self.def_name_map.matches(names),
                forall|p: int|
                    0 <= p < n ==> (#[trigger] defs_view(self.parsed_defs@)[p]) == direct_stage(
                        defs0,
                        p,
                        i as int,
                        Seq::empty(),
                    ),
            decreases n - i,
        {
            let ghost cur = defs_view(self.parsed_defs@);
            proof {
                assert(cur[i as int] == direct_stage(defs0, i as int, i as int, Seq::empty()));
            }
            let def_name = self.parsed_defs[i].def_name.clone();
            let found = self.extract_references(self.parsed_defs[i].elements.as_slice());
            let valid_refs = filter_valid(&self.def_name_map, &def_name, &found.0, Ghost(names));
            let code_names = found.1;
            proof {
                lemma_keep_valid(names, def_name@, texts_view(found.0@));
                assert(texts_view(valid_refs@) == out_refs(defs0, i as int));
                assert(texts_view(code_names@) == code_refs(defs0, i as int));
            }
            enter_at_targets(
                &mut self.parsed_defs,
                &self.def_name_map,
                &valid_refs,
                &def_name,
                false,
                Ghost(names),
            );
            let ghost mid = defs_view(self.parsed_defs@);
            let ghost outs = texts_view(valid_refs@);
            let ghost codes = texts_view(code_names@);
            self.parsed_defs[i].references_out = valid_refs;
            self.parsed_defs[i].code_references = code_names;
            proof {
                let now = defs_view(self.parsed_defs@);
                assert forall|p: int| 0 <= p < n implies (#[trigger] now[p]) == direct_stage(
                    defs0,
                    p,
                    i as int + 1,
                    Seq::empty(),
                ) by {
                    let hit = outs.contains(names[p]);
                    let base = defs0[p].references_in + direct_in(defs0, p, i as int);
                    assert(cur[p] == direct_stage(defs0, p, i as int, Seq::empty()));
                    assert(cur[p].references_in == base);
                    assert(mid[p] == if hit {
                        add_in(cur[p], def_name@)
                    } else {
                        cur[p]
                    });
                    assert(names[p] == defs0[p].def_name);
                    assert(names[i as int] == defs0[i as int].def_name);
                    assert(mid[p].references_in == base + flag_tag(hit, def_name@));
                    assert(defs0[p].references_in + direct_in(defs0, p, i as int + 1)
                        + Seq::<Seq<char>>::empty() == base + flag_tag(hit, def_name@));
                    if p == i {
                        assert(now[p] == with_refs(mid[p], outs, mid[p].references_in, codes));
                    } else {
                        assert(now[p] == mid[p]);
                    }
                }
            }
            i = i + 1;
        }
    }

    /// Enters each record that declares a parent at the records that bear
    /// the parent's name, unless its name stands there already.
    fn enter_parents(&mut self, Ghost(defs0): Ghost<Seq<DefView>>)
        requires
            old(self).def_name_map.matches(def_names(defs0)),
            defs0.len() == old(self).parsed_defs@.len(),
            forall|p: int|
                0 <= p < defs0.len() ==> (#[trigger] defs_view(old(self).parsed_defs@)[p]).def_name
                    == defs0[p].def_name && defs_view(old(self).parsed_defs@)[p].parent_name
                    == defs0[p].parent_name,
        ensures
            final(self).def_name_map == old(self).def_name_map,
            final(self).rimworld_data_path == old(self).rimworld_data_path,
            final(self).parsed_defs@.len() == old(self).parsed_defs@.len(),
            forall|p: int|
                0 <= p < defs0.len() ==> (#[trigger] defs_view(final(self).parsed_defs@)[p])
                    == with_refs(
                    defs_view(old(self).parsed_defs@)[p],
                    defs_view(old(self).parsed_defs@)[p].references_out,
                    inherited_in(
                        defs0,
                        p,
                        defs_view(old(self).parsed_defs@)[p].references_in,
                        defs0.len() as int,
                    ),
                    defs_view(old(self).parsed_defs@)[p].code_references,
                ),
    {
        let ghost start = defs_view(self.parsed_defs@);
        let ghost names = def_names(defs0);
        let n: usize = self.parsed_defs.len();
        let mut i: usize = 0;
        while i < n
            invariant
                i <= n,
                n == defs0.len(),
                start.len() == n,
                names == def_names(defs0),
                self.parsed_defs@.len() == n,
                self.def_name_map == old(self).def_name_map,
                self.rimworld_data_path == old(self).rimworld_data_path,
                self.def_name_map.matches(names),
                forall|p: int|
                    0 <= p < n ==> (#[trigger] start[p]).def_name == defs0[p].def_name
                        && start[p].parent_name == defs0[p].parent_name,
                forall|p: int|
                    0 <= p < n ==> (#[trigger] defs_view(self.parsed_defs@)[p]) == with_refs(
                        start[p],
                        start[p].references_out,
                        inherited_in(defs0, p, start[p].references_in, i as int),
                        start[p].code_references,
                    ),
            decreases n - i,
        {
            let ghost cur = defs_view(self.parsed_defs@);
            proof {
                assert(cur[i as int].parent_name == start[i as int].parent_name);
                assert(cur[i as int].def_name == start[i as int].def_name);
                assert(start[i as int].def_name == defs0[i as int].def_name);
            }
            let parent = match &self.parsed_defs[i].parent_name {
                Some(name) => Some(name.clone()),
                None => None,
            };
            match parent {
                Some(parent_name) => {
                    let child_name = self.parsed_defs[i].def_name.clone();
                    let mut targets: Vec<String> = Vec::new();
                    targets.push(parent_name);
                    proof {
                        assert(texts_view(targets@) == seq![parent_name@]);
                    }
                    enter_at_targets(
                        &mut self.parsed_defs,
                        &self.def_name_map,
                        &targets,
                        &child_name,
                        true,
                        Ghost(names),
                    );
                    proof {
                        let now = defs_view(self.parsed_defs@);
                        assert forall|p: int| 0 <= p < n implies (#[trigger] now[p]) == with_refs(
                            start[p],
                            start[p].references_out,
                            inherited_in(defs0, p, start[p].references_in, i as int + 1),
                            start[p].code_references,
                        ) by {
                            assert(cur[p] == with_refs(
                                start[p],
                                start[p].references_out,
                                inherited_in(defs0, p, start[p].references_in, i as int),
                                start[p].code_references,
                            ));
                            assert(start[p].def_name == defs0[p].def_name);
                            assert(names[p] == defs0[p].def_name);
                            assert(seq![parent_name@].contains(names[p]) <==> names[p]
                                == parent_name@) by {
                                if names[p] == parent_name@ {
                                    assert(seq![parent_name@][0] == names[p]);
                                }
                            }
                        }
                    }
                },
                None => {},
            }
            i = i + 1;
        }
    }

    /// Resolves the references between all records of the run.
    ///
    /// Builds the index of names; gives each record its outgoing
    /// references, the candidates that name another record, and its code
    /// names; enters each record at every record that it refers to; and
    /// enters each record at every record that bears its parent's name,
    /// unless its name stands there already.
    pub fn build_reference_mappings(&mut self)
        ensures
            defs_view(final(self).parsed_defs@) == resolved(defs_view(old(self).parsed_defs@)),
            final(self).def_name_map.matches(def_names(defs_view(old(self).parsed_defs@))),
            final(self).rimworld_data_path == old(self).rimworld_data_path,
    {
        let ghost defs0 = defs_view(self.parsed_defs@);
        self.def_name_map = build_index(&self.parsed_defs);
        self.enter_references();
        let ghost mid = defs_view(self.parsed_defs@);
        proof {
            assert forall|p: int| 0 <= p < defs0.len() implies (#[trigger] mid[p]).def_name
                == defs0[p].def_name && mid[p].parent_name == defs0[p].parent_name by {
                assert(mid[p] == direct_stage(defs0, p, defs0.len() as int, Seq::empty()));
            }
        }
        self.enter_parents(Ghost(defs0));
        proof {
            let now = defs_view(self.parsed_defs@);
            assert forall|p: int| 0 <= p < defs0.len() implies now[p] == resolved_at(defs0, p) by {
                assert(mid[p] == direct_stage(defs0, p, defs0.len() as int, Seq::empty()));
                assert(mid[p].references_in == defs0[p].references_in + direct_in(
                    defs0,
                    p,
                    defs0.len() as int,
                ));
            }
            assert(now == resolved(defs0));
        }
    }
}

} // verus!
