//! Preparing the records of a run for display: titles of kinds, flat views
//! of element trees, and the totals of the run.

use crate::element::AttrView;
use crate::element::DefElement;
use crate::element::ElementView;
use crate::element::attrs_view;
use crate::element::forest_view;
use crate::element::text_view;
use crate::index::indices_of;
use crate::ranking::stable_order;
use crate::ranking::stable_order_of;
use crate::record::DefView;
use crate::record::RimWorldDef;
use crate::record::defs_view;
use crate::record::texts_view;
use crate::sorted::lemma_sorted_no_duplicates;
use crate::sorted::sort_dedup;
use crate::sorted::sorted_unique;
use crate::text::same_text;
use crate::text::char_is_lowercase;
use crate::text::char_is_uppercase;
use crate::text::char_uppercased;
use crate::text::is_lowercase;
use crate::text::is_uppercase;
use crate::text::push_char;
use crate::text::trim;
use crate::text::trimmed;
use crate::text::uppercase_first;
use vstd::prelude::*;
use vstd::string::*;

verus! {

/// Holds the resolved records of a run.
pub struct DatasetGenerator {
    pub defs: Vec<RimWorldDef>,
    pub rimworld_path: String,
}

/// One element of a tree in the flat view of it.
#[derive(Debug, Clone, PartialEq, Eq)]
pub struct FlatElement {
    pub name: String,
    pub content: Option<String>,
    /// 20 for each level below the first.
    pub depth: usize,
    /// The attributes as `key="value"`, a space between two.
    pub attributes: String,
    pub has_children: bool,
}

/// The model of a flat element.
pub struct FlatView {
    pub name: Seq<char>,
    pub content: Option<Seq<char>>,
    pub depth: nat,
    pub attributes: Seq<char>,
    pub has_children: bool,
}

impl View for FlatElement {
    type V = FlatView;

    open spec fn view(&self) -> FlatView {
        FlatView {
            name: self.name@,
            content: text_view(self.content),
            depth: self.depth as nat,
            attributes: self.attributes@,
            has_children: self.has_children,
        }
    }
}

/// The models of a list of flat elements.
pub open spec fn flats_view(flats: Seq<FlatElement>) -> Seq<FlatView> {
    Seq::new(flats.len(), |i: int| flats[i]@)
}

/// The first `n` characters of a kind's name, made into a title: the first
/// character in uppercase, and a space before each uppercase character that
/// follows a lowercase one.
pub open spec fn title_upto(name: Seq<char>, n: int) -> Seq<char>
    decreases n,
{
    if n <= 0 {
        Seq::empty()
    } else if n == 1 {
        seq![char_uppercased(name[0])]
    } else if char_is_uppercase(name[n - 1]) && char_is_lowercase(name[n - 2]) {
        title_upto(name, n - 1).push(' ').push(name[n - 1])
    } else {
        title_upto(name, n - 1).push(name[n - 1])
    }
}

/// The title of a kind.
pub open spec fn category_title(name: Seq<char>) -> Seq<char> {
    title_upto(name, name.len() as int)
}

/// The version of the game: the text of the version file without the
/// whitespace around it, or `Unknown` where there is no such file.
pub fn game_version_from(version_text: Option<&str>) -> (version: String)
    ensures
        version@ == match version_text {
            Some(text) => trimmed(text@),
            None => "Unknown"@,
        },
{
    match version_text {
        Some(text) => trim(text),
        None => "Unknown".to_owned(),
    }
}

/// The attributes as one text: `key="value"`, a space between two.
pub open spec fn attrs_joined(attrs: Seq<AttrView>) -> Seq<char>
    decreases attrs.len(),
{
    if attrs.len() == 0 {
        Seq::empty()
    } else if attrs.len() == 1 {
        attrs[0].0 + "=\""@ + attrs[0].1 + "\""@
    } else {
        attrs_joined(attrs.drop_last()) + " "@ + attrs.last().0 + "=\""@ + attrs.last().1 + "\""@
    }
}

/// The flat entry of an element at a level.
pub open spec fn flat_entry(e: ElementView, level: nat) -> FlatView {
    FlatView {
        name: e.name,
        content: e.content,
        depth: level * 20,
        attributes: attrs_joined(e.attributes),
        has_children: e.children.len() > 0,
    }
}

/// The flat view `acc` with a tree added: the tree's root, then its first
/// five children, each with what is below it. Nothing is added below the
/// fourth level, nor once the view holds 50 entries.
pub open spec fn flat_tree(e: ElementView, acc: Seq<FlatView>, level: nat) -> Seq<FlatView>
    decreases e, 0nat,
{
    if level > 3 || acc.len() >= 50 {
        acc
    } else {
        flat_forest(
            e.children,
            if e.children.len() < 5 {
                e.children.len()
            } else {
                5
            },
            acc.push(flat_entry(e, level)),
            level + 1,
        )
    }
}

/// The flat view `acc` with the first `n` trees of a list added.
pub open spec fn flat_forest(forest: Seq<ElementView>, n: nat, acc: Seq<FlatView>, level: nat) -> Seq<
    FlatView,
>
    decreases forest, n,
{
    if n == 0 || n > forest.len() {
        acc
    } else {
        flat_tree(forest[n - 1], flat_forest(forest, (n - 1) as nat, acc, level), level)
    }
}

/// The flat view of a record's elements: its first 15 elements with what
/// is below them, 50 entries at most.
pub open spec fn flat_view(forest: Seq<ElementView>) -> Seq<FlatView> {
    flat_forest(
        forest,
        if forest.len() < 15 {
            forest.len()
        } else {
            15
        },
        Seq::empty(),
        0,
    )
}

/// The attributes as one text.
pub fn join_attributes(attrs: &Vec<(String, String)>) -> (joined: String)
    ensures
        joined@ == attrs_joined(attrs_view(attrs@)),
{
    let ghost all = attrs_view(attrs@);
    let mut joined = String::new();
    let mut i: usize = 0;
    assert(all.take(0).len() == 0);
    while i < attrs.len()
        invariant
            i <= attrs.len(),
            all == attrs_view(attrs@),
            joined@ == attrs_joined(all.take(i as int)),
        decreases attrs.len() - i,
    {
        proof {
            assert(all.take(i as int + 1).drop_last() == all.take(i as int));
            assert(all.take(i as int + 1).last() == all[i as int]);
            assert(all.take(i as int + 1)[0] == all[0]);
        }
        if i > 0 {
            joined.append(" ");
        }
        joined.append(attrs[i].0.as_str());
        joined.append("=\"");
        joined.append(attrs[i].1.as_str());
        joined.append("\"");
        i = i + 1;
    }
    proof {
        assert(all.take(i as int) == all);
    }
    joined
}

/// The totals of a run.
#[derive(Debug, Clone, PartialEq, Eq)]
pub struct Stats {
    pub total_defs: usize,
    /// The number of different kinds.
    pub total_categories: usize,
    /// The number of different source files.
    pub total_files: usize,
    pub game_version: String,
    pub generated_at: String,
}

/// The records of one kind.
#[derive(Debug, Clone, PartialEq, Eq)]
pub struct Category {
    /// The kind.
    pub name: String,
    /// The kind's title.
    pub display_name: String,
    /// The number of records of the kind.
    pub count: usize,
    /// The places of the kind's records, in the order of their names.
    pub definitions: Vec<usize>,
}

/// The model of a category.
pub struct CategoryView {
    pub name: Seq<char>,
    pub display_name: Seq<char>,
    pub count: nat,
    pub definitions: Seq<usize>,
}

impl View for Category {
    type V = CategoryView;

    open spec fn view(&self) -> CategoryView {
        CategoryView {
            name: self.name@,
            display_name: self.display_name@,
            count: self.count as nat,
            definitions: self.definitions@,
        }
    }
}

/// The models of a list of categories.
pub open spec fn categories_view(categories: Seq<Category>) -> Seq<CategoryView> {
    Seq::new(categories.len(), |i: int| categories[i]@)
}

/// The kinds of the records, in their order.
pub open spec fn kinds_of(defs: Seq<DefView>) -> Seq<Seq<char>> {
    Seq::new(defs.len(), |i: int| defs[i].def_type)
}

/// The source files of the records, in their order.
pub open spec fn files_of(defs: Seq<DefView>) -> Seq<Seq<char>> {
    Seq::new(defs.len(), |i: int| defs[i].file_path)
}

/// The names of the records at the given places.
pub open spec fn names_at(defs: Seq<DefView>, places: Seq<usize>) -> Seq<Seq<char>> {
    Seq::new(places.len(), |m: int| defs[places[m] as int].def_name)
}

/// The items at the places that an order lists.
pub open spec fn arranged(items: Seq<usize>, order: Seq<usize>) -> Seq<usize> {
    Seq::new(order.len(), |m: int| items[order[m] as int])
}

/// The places of the records of a kind, in the order of the records' names;
/// records of one name stay in the order in which they were parsed.
pub open spec fn members_sorted(defs: Seq<DefView>, kind: Seq<char>) -> Seq<usize> {
    let members = indices_of(kinds_of(defs), kind);
    arranged(members, stable_order(names_at(defs, members)))
}

/// The category of a kind.
pub open spec fn category_of(defs: Seq<DefView>, kind: Seq<char>) -> CategoryView {
    CategoryView {
        name: kind,
        display_name: category_title(kind),
        count: members_sorted(defs, kind).len(),
        definitions: members_sorted(defs, kind),
    }
}

/// The titles of the kinds.
pub open spec fn titles_of(kinds: Seq<Seq<char>>) -> Seq<Seq<char>> {
    Seq::new(kinds.len(), |k: int| category_title(kinds[k]))
}

/// The categories of a run: one for each kind, in the order of the kinds'
/// titles; kinds of one title stand in the order of their names.
pub open spec fn categories_of(defs: Seq<DefView>) -> Seq<CategoryView> {
    let kinds = sorted_unique(kinds_of(defs));
    let order = stable_order(titles_of(kinds));
    Seq::new(order.len(), |c: int| category_of(defs, kinds[order[c] as int]))
}

/// Adding a tree to a flat view keeps what is there and stays within 50
/// entries.
pub proof fn lemma_flat_tree_bounded(e: ElementView, acc: Seq<FlatView>, level: nat)
    requires
        acc.len() <= 50,
    ensures
        acc.len() <= flat_tree(e, acc, level).len() <= 50,
        acc.is_prefix_of(flat_tree(e, acc, level)),
    decreases e, 0nat,
{
    if !(level > 3 || acc.len() >= 50) {
        let n: nat = if e.children.len() < 5 {
            e.children.len()
        } else {
            5
        };
        lemma_flat_forest_bounded(e.children, n, acc.push(flat_entry(e, level)), level + 1);
    }
}

/// Adding trees to a flat view keeps what is there and stays within 50
/// entries.
pub proof fn lemma_flat_forest_bounded(
    forest: Seq<ElementView>,
    n: nat,
    acc: Seq<FlatView>,
    level: nat,
)
    requires
        acc.len() <= 50,
    ensures
        acc.len() <= flat_forest(forest, n, acc, level).len() <= 50,
        acc.is_prefix_of(flat_forest(forest, n, acc, level)),
    decreases forest, n,
{
    if !(n == 0 || n > forest.len()) {
        lemma_flat_forest_bounded(forest, (n - 1) as nat, acc, level);
        lemma_flat_tree_bounded(
            forest[n - 1],
            flat_forest(forest, (n - 1) as nat, acc, level),
            level,
        );
    }
}

/// A flat view has 50 entries at most.
pub proof fn lemma_flat_view_bounded(forest: Seq<ElementView>)
    ensures
        flat_view(forest).len() <= 50,
{
    let n: nat = if forest.len() < 15 {
        forest.len()
    } else {
        15
    };
    lemma_flat_forest_bounded(forest, n, Seq::empty(), 0);
}

/// The records of a kind as a category lists them: each place of the kind
/// once and no other place, the names not falling from one entry to the
/// next.
pub proof fn lemma_members_sorted(defs: Seq<DefView>, kind: Seq<char>)
    requires
        defs.len() <= usize::MAX,
    ensures
        members_sorted(defs, kind).len() == indices_of(kinds_of(defs), kind).len(),
        forall|m: int|
            0 <= m < members_sorted(defs, kind).len() ==> (#[trigger] members_sorted(
                defs,
                kind,
            )[m]) < defs.len() && defs[members_sorted(defs, kind)[m] as int].def_type == kind,
        forall|p: int|
            0 <= p < defs.len() && defs[p].def_type == kind ==> members_sorted(
                defs,
                kind,
            ).contains(p as usize),
        forall|a: int, b: int|
            0 <= a < b < members_sorted(defs, kind).len() ==> members_sorted(defs, kind)[a]
                != members_sorted(defs, kind)[b] && !crate::text::lex_lt(
                defs[members_sorted(defs, kind)[b] as int].def_name,
                defs[members_sorted(defs, kind)[a] as int].def_name,
            ),
{
    let kinds = kinds_of(defs);
    let members = indices_of(kinds, kind);
    let names = names_at(defs, members);
    let order = stable_order(names);
    let sorted = members_sorted(defs, kind);
    crate::index::lemma_indices_of(kinds, kind);
    crate::index::lemma_indices_count(kinds, kind);
    crate::ranking::lemma_order_is_permutation(names);
    crate::ranking::lemma_order_is_sorted(names);
    assert forall|m: int| 0 <= m < sorted.len() implies (#[trigger] sorted[m]) < defs.len()
        && defs[sorted[m] as int].def_type == kind by {
        let at = order[m];
        assert(sorted[m] == members[at as int]);
        assert(kinds[members[at as int] as int] == kind);
    }
    assert forall|a: int, b: int| 0 <= a < b < sorted.len() implies sorted[a] != sorted[b]
        && !crate::text::lex_lt(defs[sorted[b] as int].def_name, defs[sorted[a] as int].def_name) by {
        let x = order[a];
        let y = order[b];
        assert(sorted[a] == members[x as int] && sorted[b] == members[y as int]);
        assert(x != y);
        if x < y {
            assert(members[x as int] < members[y as int]);
        } else {
            assert(members[y as int] < members[x as int]);
        }
        assert(names[x as int] == defs[sorted[a] as int].def_name);
        assert(names[y as int] == defs[sorted[b] as int].def_name);
    }
    assert forall|p: int| 0 <= p < defs.len() && defs[p].def_type == kind implies sorted.contains(
        p as usize,
    ) by {
        assert(kinds[p] == kind);
        assert(members.contains(p as usize));
        let at = choose|at: int| 0 <= at < members.len() && members[at] == p as usize;
        crate::ranking::lemma_order_lists(names, at);
        let m = choose|m: int| 0 <= m < order.len() && order[m] == at as usize;
        assert(sorted[m] == p as usize);
    }
}

/// A sorted list of the texts is as long as there are different texts.
pub proof fn lemma_distinct_count(texts: Seq<Seq<char>>)
    ensures
        sorted_unique(texts).len() == texts.to_set().len(),
{
    let sorted = sorted_unique(texts);
    crate::sorted::lemma_sorted_unique(texts);
    lemma_sorted_no_duplicates(sorted);
    sorted.unique_seq_to_set();
    assert(sorted.to_set() =~= texts.to_set());
}

/// The kinds of the records.
fn kinds_list(defs: &Vec<RimWorldDef>) -> (kinds: Vec<String>)
    ensures
        texts_view(kinds@) == kinds_of(defs_view(defs@)),
{
    let mut kinds: Vec<String> = Vec::new();
    let mut i: usize = 0;
    while i < defs.len()
        invariant
            i <= defs.len(),
            texts_view(kinds@) == kinds_of(defs_view(defs@)).take(i as int),
        decreases defs.len() - i,
    {
        let ghost before = texts_view(kinds@);
        let ghost all = kinds_of(defs_view(defs@));
        kinds.push(defs[i].def_type.clone());
        proof {
            assert(texts_view(kinds@) == before.push(defs[i as int].def_type@));
            assert(all.take(i as int + 1) == all.take(i as int).push(all[i as int]));
        }
        i = i + 1;
    }
    proof {
        let all = kinds_of(defs_view(defs@));
        assert(all.take(i as int) == all);
    }
    kinds
}

/// The source files of the records.
fn files_list(defs: &Vec<RimWorldDef>) -> (files: Vec<String>)
    ensures
        texts_view(files@) == files_of(defs_view(defs@)),
{
    let mut files: Vec<String> = Vec::new();
    let mut i: usize = 0;
    while i < defs.len()
        invariant
            i <= defs.len(),
            texts_view(files@) == files_of(defs_view(defs@)).take(i as int),
        decreases defs.len() - i,
    {
        let ghost before = texts_view(files@);
        let ghost all = files_of(defs_view(defs@));
        files.push(defs[i].file_path.clone());
        proof {
            assert(texts_view(files@) == before.push(defs[i as int].file_path@));
            assert(all.take(i as int + 1) == all.take(i as int).push(all[i as int]));
        }
        i = i + 1;
    }
    proof {
        let all = files_of(defs_view(defs@));
        assert(all.take(i as int) == all);
    }
    files
}

/// The places of the records of a kind, rising.
fn members_of(defs: &Vec<RimWorldDef>, kind: &str) -> (members: Vec<usize>)
    ensures
        members@ == indices_of(kinds_of(defs_view(defs@)), kind@),
        forall|m: int| 0 <= m < members@.len() ==> (#[trigger] members@[m]) < defs@.len(),
{
    let ghost kinds = kinds_of(defs_view(defs@));
    let mut members: Vec<usize> = Vec::new();
    let mut i: usize = 0;
    assert(kinds.take(0).len() == 0);
    while i < defs.len()
        invariant
            i <= defs.len(),
            kinds == kinds_of(defs_view(defs@)),
            members@ == indices_of(kinds.take(i as int), kind@),
            forall|m: int| 0 <= m < members@.len() ==> (#[trigger] members@[m]) < i,
        decreases defs.len() - i,
    {
        proof {
            assert(kinds.take(i as int + 1).drop_last() == kinds.take(i as int));
            assert(kinds.take(i as int + 1).last() == defs[i as int].def_type@);
        }
        if same_text(defs[i].def_type.as_str(), kind) {
            members.push(i);
        }
        i = i + 1;
    }
    proof {
        assert(kinds.take(i as int) == kinds);
    }
    members
}

/// The places of the records of a kind, in the order of the records' names.
fn sorted_members(defs: &Vec<RimWorldDef>, kind: &str) -> (sorted: Vec<usize>)
    ensures
        sorted@ == members_sorted(defs_view(defs@), kind@),
{
    let members = members_of(defs, kind);
    let mut names: Vec<String> = Vec::new();
    let mut m: usize = 0;
    while m < members.len()
        invariant
            m <= members.len(),
            forall|a: int| 0 <= a < members@.len() ==> (#[trigger] members@[a]) < defs@.len(),
            texts_view(names@) == names_at(defs_view(defs@), members@).take(m as int),
        decreases members.len() - m,
    {
        let ghost before = texts_view(names@);
        let ghost all = names_at(defs_view(defs@), members@);
        names.push(defs[members[m]].def_name.clone());
        proof {
            assert(texts_view(names@) == before.push(defs[members@[m as int] as int].def_name@));
            assert(all.take(m as int + 1) == all.take(m as int).push(all[m as int]));
        }
        m = m + 1;
    }
    proof {
        let all = names_at(defs_view(defs@), members@);
        assert(all.take(m as int) == all);
    }
    let order = stable_order_of(&names);
    let mut sorted: Vec<usize> = Vec::new();
    let mut k: usize = 0;
    while k < order.len()
        invariant
            k <= order.len(),
            order@.len() == members@.len(),
            forall|a: int| 0 <= a < order@.len() ==> (#[trigger] order@[a]) < members@.len(),
            sorted@ == arranged(members@, order@).take(k as int),
        decreases order.len() - k,
    {
        let ghost all = arranged(members@, order@);
        sorted.push(members[order[k]]);
        proof {
            assert(all.take(k as int + 1) == all.take(k as int).push(all[k as int]));
        }
        k = k + 1;
    }
    proof {
        let all = arranged(members@, order@);
        assert(all.take(k as int) == all);
    }
    sorted
}

impl DatasetGenerator {
    /// The totals of the run. The version of the game and the time of the
    /// run are taken as given.
    pub fn get_stats(&self, game_version: String, generated_at: String) -> (stats: Stats)
        ensures
            stats.total_defs == self.defs@.len(),
            stats.total_categories == kinds_of(defs_view(self.defs@)).to_set().len(),
            stats.total_files == files_of(defs_view(self.defs@)).to_set().len(),
            stats.game_version == game_version,
            stats.generated_at == generated_at,
    {
        let kinds = sort_dedup(&kinds_list(&self.defs));
        let files = sort_dedup(&files_list(&self.defs));
        proof {
            lemma_distinct_count(kinds_of(defs_view(self.defs@)));
            lemma_distinct_count(files_of(defs_view(self.defs@)));
        }
        Stats {
            total_defs: self.defs.len(),
            total_categories: kinds.len(),
            total_files: files.len(),
            game_version,
            generated_at,
        }
    }

    /// The records by kind: the categories in the order of their titles,
    /// the records of each in the order of their names.
    pub fn categories(&self) -> (categories: Vec<Category>)
        ensures
            categories_view(categories@) == categories_of(defs_view(self.defs@)),
    {
        let ghost defs = defs_view(self.defs@);
        let kinds = sort_dedup(&kinds_list(&self.defs));
        let mut titles: Vec<String> = Vec::new();
        let mut t: usize = 0;
        while t < kinds.len()
            invariant
                t <= kinds.len(),
                texts_view(titles@) == titles_of(texts_view(kinds@)).take(t as int),
            decreases kinds.len() - t,
        {
            let ghost before = texts_view(titles@);
            let ghost all = titles_of(texts_view(kinds@));
            let title = self.format_category_name(kinds[t].as_str());
            titles.push(title);
            proof {
                assert(texts_view(titles@) == before.push(title@));
                assert(all.take(t as int + 1) == all.take(t as int).push(all[t as int]));
            }
            t = t + 1;
        }
        proof {
            let all = titles_of(texts_view(kinds@));
            assert(all.take(t as int) == all);
        }
        let order = stable_order_of(&titles);
        let mut categories: Vec<Category> = Vec::new();
        let mut c: usize = 0;
        while c < order.len()
            invariant
                c <= order.len(),
                defs == defs_view(self.defs@),
                texts_view(kinds@) == sorted_unique(kinds_of(defs)),
                order@ == stable_order(titles_of(texts_view(kinds@))),
                order@.len() == kinds@.len(),
                forall|a: int| 0 <= a < order@.len() ==> (#[trigger] order@[a]) < kinds@.len(),
                categories_view(categories@) == categories_of(defs).take(c as int),
            decreases order.len() - c,
        {
            let kind = &kinds[order[c]];
            let definitions = sorted_members(&self.defs, kind.as_str());
            let category = Category {
                name: kind.clone(),
                display_name: self.format_category_name(kind.as_str()),
                count: definitions.len(),
                definitions,
            };
            let ghost before = categories_view(categories@);
            let ghost all = categories_of(defs);
            categories.push(category);
            proof {
                assert(category@ == category_of(defs, texts_view(kinds@)[order@[c as int] as int]));
                assert(categories_view(categories@) == before.push(category@));
                assert(all.take(c as int + 1) == all.take(c as int).push(all[c as int]));
            }
            c = c + 1;
        }
        proof {
            let all = categories_of(defs);
            assert(all.take(c as int) == all);
        }
        categories
    }

    /// A generator for the given records.
    pub fn new(defs: Vec<RimWorldDef>, rimworld_path: String) -> (generator: Self)
        ensures
            generator.defs == defs,
            generator.rimworld_path == rimworld_path,
    {
        DatasetGenerator { defs, rimworld_path }
    }

    /// The title of a kind: `ThingDef` reads `Thing Def`.
    pub fn format_category_name(&self, name: &str) -> (title: String)
        ensures
            title@ == category_title(name@),
    {
        let n: usize = name.unicode_len();
        let mut title = String::new();
        let mut prev_lower = false;
        let mut i: usize = 0;
        while i < n
            invariant
                i <= n,
                n == name@.len(),
                title@ == title_upto(name@, i as int),
                i > 0 ==> prev_lower == char_is_lowercase(name@[i - 1]),
            decreases n - i,
        {
            let ch = name.get_char(i);
            if i == 0 {
                push_char(&mut title, uppercase_first(ch));
            } else if is_uppercase(ch) && prev_lower {
                push_char(&mut title, ' ');
                push_char(&mut title, ch);
            } else {
                push_char(&mut title, ch);
            }
            prev_lower = is_lowercase(ch);
            i = i + 1;
        }
        title
    }

    /// The flat view of a record's elements.
    pub fn flatten_elements(&self, elements: &[DefElement]) -> (result: Vec<FlatElement>)
        ensures
            flats_view(result@) == flat_view(forest_view(elements@)),
    {
        let ghost forest = forest_view(elements@);
        let mut result: Vec<FlatElement> = Vec::new();
        let limit: usize = if elements.len() < 15 {
            elements.len()
        } else {
            15
        };
        let mut i: usize = 0;
        assert(flats_view(result@) == Seq::<FlatView>::empty());
        while i < limit
            invariant
                i <= limit <= elements.len(),
                forest == forest_view(elements@),
                flats_view(result@) == flat_forest(forest, i as nat, Seq::empty(), 0),
            decreases limit - i,
        {
            self.flatten_element_recursive(&elements[i], &mut result, 0);
            i = i + 1;
        }
        result
    }

    /// Adds an element and what is below it to a flat view.
    pub fn flatten_element_recursive(
        &self,
        element: &DefElement,
        result: &mut Vec<FlatElement>,
        depth: usize,
    )
        ensures
            flats_view(final(result)@) == flat_tree(
                element@,
                flats_view(old(result)@),
                depth as nat,
            ),
        decreases element,
    {
        if depth > 3 || result.len() >= 50 {
            return ;
        }
        let ghost start = flats_view(result@);
        let entry = FlatElement {
            name: element.name.clone(),
            content: match &element.content {
                Some(text) => Some(text.clone()),
                None => None,
            },
            depth: depth * 20,
            attributes: join_attributes(&element.attributes),
            has_children: element.children.len() > 0,
        };
        assert(entry@ == flat_entry(element@, depth as nat));
        result.push(entry);
        assert(flats_view(result@) == start.push(flat_entry(element@, depth as nat)));
        let ghost kids = element@.children;
        let ghost pushed = flats_view(result@);
        let limit: usize = if element.children.len() < 5 {
            element.children.len()
        } else {
            5
        };
        let mut k: usize = 0;
        while k < limit
            invariant
                k <= limit <= element.children.len(),
                kids == element@.children,
                depth <= 3,
                flats_view(result@) == flat_forest(kids, k as nat, pushed, depth as nat + 1),
            decreases limit - k,
        {
            assert(kids[k as int] == element.children[k as int]@);
            self.flatten_element_recursive(&element.children[k], result, depth + 1);
            k = k + 1;
        }
    }
}

} // verus!
