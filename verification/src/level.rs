//! The entries of one directory in a preview.

use crate::change_tree;
use crate::change_tree::{ChangeTree, NodeFacts};
use crate::order;
use crate::order::Ranked;
use crate::preview;
use crate::preview::{EntryState, HiddenStateCounts};
use crate::table;
use crate::table::NameSet;
use crate::text;
use rustc_hash::FxHashMap;
use vstd::prelude::*;

verus! {

/// A name in a directory.
pub struct DirRow {
    pub name: String,
    pub is_dir: bool,
}

pub struct DirRowView {
    pub name: Seq<char>,
    pub is_dir: bool,
}

impl View for DirRow {
    type V = DirRowView;

    open spec fn view(&self) -> DirRowView {
        DirRowView { name: self.name@, is_dir: self.is_dir }
    }
}

pub open spec fn dir_rows(v: Seq<DirRow>) -> Seq<DirRowView> {
    v.map_values(|r: DirRow| r@)
}

/// A name whose state is known beforehand.
pub struct Extra {
    pub name: String,
    pub state: EntryState,
    /// Whether a directory stands there now.
    pub is_dir: bool,
}

pub struct ExtraView {
    pub name: Seq<char>,
    pub state: EntryState,
    pub is_dir: bool,
}

impl View for Extra {
    type V = ExtraView;

    open spec fn view(&self) -> ExtraView {
        ExtraView { name: self.name@, state: self.state, is_dir: self.is_dir }
    }
}

pub open spec fn extras(v: Seq<Extra>) -> Seq<ExtraView> {
    v.map_values(|e: Extra| e@)
}

/// An entry of a level.
pub struct LevelEntry {
    pub name: String,
    pub state: EntryState,
    pub is_dir: bool,
}

pub struct EntryView {
    pub name: Seq<char>,
    pub state: EntryState,
    pub is_dir: bool,
}

impl View for LevelEntry {
    type V = EntryView;

    open spec fn view(&self) -> EntryView {
        EntryView { name: self.name@, state: self.state, is_dir: self.is_dir }
    }
}

pub open spec fn entries(v: Seq<LevelEntry>) -> Seq<EntryView> {
    v.map_values(|e: LevelEntry| e@)
}

/// Where a name stands for the last time.
pub open spec fn last_place(names: Seq<Seq<char>>, name: Seq<char>) -> Option<int>
    decreases names.len(),
{
    if names.len() == 0 {
        None
    } else if names.last() == name {
        Some(names.len() - 1)
    } else {
        last_place(names.drop_last(), name)
    }
}

pub proof fn lemma_last_place(names: Seq<Seq<char>>, name: Seq<char>)
    ensures
        last_place(names, name) is Some <==> names.contains(name),
        last_place(names, name) is Some ==> 0 <= last_place(names, name)->0 < names.len()
            && names[last_place(names, name)->0] == name,
    decreases names.len(),
{
    if names.len() > 0 {
        lemma_last_place(names.drop_last(), name);
        if names.last() == name {
            assert(names[names.len() - 1] == name);
        } else {
            if names.contains(name) {
                let i = choose|i: int| 0 <= i < names.len() && names[i] == name;
                assert(names.drop_last()[i] == name);
            }
            if names.drop_last().contains(name) {
                let i = choose|i: int|
                    0 <= i < names.drop_last().len() && names.drop_last()[i] == name;
                assert(names[i] == name);
            }
        }
    }
}

spec fn places(t: Map<Seq<char>, usize>, names: Seq<Seq<char>>) -> bool {
    forall|n: Seq<char>|
        #![trigger t.contains_key(n)]
        #![trigger last_place(names, n)]
        match last_place(names, n) {
            Some(i) => t.contains_key(n) && t[n] == i,
            None => !t.contains_key(n),
        }
}

fn index_rows(rows: &Vec<DirRow>) -> (r: FxHashMap<String, usize>)
    ensures
        places(table::names_in(r), dir_rows(rows@).map_values(|d: DirRowView| d.name)),
{
    let ghost names = dir_rows(rows@).map_values(|d: DirRowView| d.name);
    let mut t = table::new_names();
    let mut i: usize = 0;
    while i < rows.len()
        invariant
            i <= rows@.len(),
            names == dir_rows(rows@).map_values(|d: DirRowView| d.name),
            places(table::names_in(t), names.take(i as int)),
        decreases rows@.len() - i,
    {
        let ghost step = names.take(i + 1);
        assert(step.drop_last() == names.take(i as int));
        assert(step.last() == rows@[i as int].name@);
        table::put_name(&mut t, rows[i].name.clone(), i);
        assert(places(table::names_in(t), step));
        i = i + 1;
    }
    assert(names.take(names.len() as int) == names);
    t
}

fn index_extras(rows: &Vec<Extra>) -> (r: FxHashMap<String, usize>)
    ensures
        places(table::names_in(r), extras(rows@).map_values(|d: ExtraView| d.name)),
{
    let ghost names = extras(rows@).map_values(|d: ExtraView| d.name);
    let mut t = table::new_names();
    let mut i: usize = 0;
    while i < rows.len()
        invariant
            i <= rows@.len(),
            names == extras(rows@).map_values(|d: ExtraView| d.name),
            places(table::names_in(t), names.take(i as int)),
        decreases rows@.len() - i,
    {
        let ghost step = names.take(i + 1);
        assert(step.drop_last() == names.take(i as int));
        assert(step.last() == rows@[i as int].name@);
        table::put_name(&mut t, rows[i].name.clone(), i);
        assert(places(table::names_in(t), step));
        i = i + 1;
    }
    assert(names.take(names.len() as int) == names);
    t
}

pub open spec fn row_names(rows: Seq<DirRowView>) -> Seq<Seq<char>> {
    rows.map_values(|d: DirRowView| d.name)
}

pub open spec fn extra_names(rows: Seq<ExtraView>) -> Seq<Seq<char>> {
    rows.map_values(|d: ExtraView| d.name)
}

/// The changes that a preview shows, as a tree and its keys in order.
pub struct TreeView {
    pub facts: Map<Seq<char>, NodeFacts>,
    pub keys: Seq<Seq<char>>,
}

/// The model of a tree of changes.
pub open spec fn tree_view(t: ChangeTree) -> TreeView {
    TreeView { facts: t@, keys: t.listed() }
}

/// The key of a name below a key.
pub open spec fn child_key(key: Seq<char>, name: Seq<char>) -> Seq<char> {
    key.push('/') + name
}

/// What the tree says of a name below a key.
pub open spec fn child_facts(tree: TreeView, key: Seq<char>, name: Seq<char>) -> Option<NodeFacts> {
    if !name.contains('/') && tree.facts.contains_key(child_key(key, name)) {
        Some(tree.facts[child_key(key, name)])
    } else {
        None
    }
}

/// The names right below a key.
pub open spec fn child_names(keys: Seq<Seq<char>>, key: Seq<char>) -> Seq<Seq<char>>
    decreases keys.len(),
{
    if keys.len() == 0 {
        Seq::empty()
    } else {
        let rest = child_names(keys.drop_last(), key);
        if change_tree::is_child(keys.last(), key) {
            rest.push(keys.last().skip(key.len() as int + 1))
        } else {
            rest
        }
    }
}

/// `names` and, behind them, those of `more` that are not there yet.
pub open spec fn with_new_names(names: Seq<Seq<char>>, more: Seq<Seq<char>>) -> Seq<Seq<char>>
    decreases more.len(),
{
    if more.len() == 0 {
        names
    } else {
        let rest = with_new_names(names, more.drop_last());
        if rest.contains(more.last()) {
            rest
        } else {
            rest.push(more.last())
        }
    }
}

/// What one level of a preview is made from.
pub struct LevelSource {
    pub tree: TreeView,
    /// The key of the directory.
    pub key: Seq<char>,
    /// What stands in it now.
    pub rows: Seq<DirRowView>,
    pub extra: Seq<ExtraView>,
    /// The paths of the source, as they are shown. Empty where not known.
    pub sources: Set<Seq<char>>,
    /// The directory's own path, as it is shown.
    pub rel: Seq<char>,
}

/// The names of a level.
pub open spec fn level_names(s: LevelSource) -> Seq<Seq<char>> {
    with_new_names(
        with_new_names(row_names(s.rows), child_names(s.tree.keys, s.key)),
        extra_names(s.extra),
    )
}

/// The state of a name: what is known beforehand, or what the changes say. One
/// that does not change is told apart by whether the source has it, where that
/// is known.
pub open spec fn name_state(s: LevelSource, name: Seq<char>) -> EntryState {
    let plain = match last_place(extra_names(s.extra), name) {
        Some(i) => s.extra[i].state,
        None => match child_facts(s.tree, s.key, name) {
            Some(f) => match f.state {
                Some(state) => state,
                None => EntryState::Unchanged,
            },
            None => EntryState::Unchanged,
        },
    };
    if plain == EntryState::Unchanged && s.sources != Set::<Seq<char>>::empty() {
        if s.sources.contains(preview::joined_rel(s.rel, name)) {
            EntryState::Identical
        } else {
            EntryState::Uncollided
        }
    } else {
        plain
    }
}

/// Whether a name is, or will be, a directory.
pub open spec fn name_is_dir(s: LevelSource, name: Seq<char>) -> bool {
    match child_facts(s.tree, s.key, name) {
        Some(f) => f.is_dir,
        None => match last_place(row_names(s.rows), name) {
            Some(i) => s.rows[i].is_dir,
            None => match last_place(extra_names(s.extra), name) {
                Some(i) => s.extra[i].is_dir,
                None => false,
            },
        },
    }
}

/// The entries of a level.
pub open spec fn level_entries(s: LevelSource) -> Seq<EntryView> {
    level_names(s).map_values(
        |n: Seq<char>|
            EntryView { name: n, state: name_state(s, n), is_dir: name_is_dir(s, n) },
    )
}

/// What one level of a preview is made from.
pub struct LevelInput<'a> {
    pub tree: &'a ChangeTree,
    pub key: &'a str,
    pub rows: &'a Vec<DirRow>,
    pub extra: &'a Vec<Extra>,
    pub sources: &'a NameSet,
    pub rel: &'a str,
}

impl<'a> View for LevelInput<'a> {
    type V = LevelSource;

    open spec fn view(&self) -> LevelSource {
        LevelSource {
            tree: tree_view(*self.tree),
            key: self.key@,
            rows: dir_rows(self.rows@),
            extra: extras(self.extra@),
            sources: self.sources@,
            rel: self.rel@,
        }
    }
}

proof fn lemma_rfind_take(s: Seq<char>)
    requires
        text::rfind_char(s, '/') >= 0,
    ensures
        text::rfind_char(s, '/') < s.len(),
    decreases s.len(),
{
    if s.len() > 0 && s.last() != '/' {
        lemma_rfind_take(s.drop_last());
    }
}

spec fn holds(seen: Set<Seq<char>>, names: Seq<Seq<char>>) -> bool {
    forall|n: Seq<char>| #[trigger] seen.contains(n) <==> names.contains(n)
}

proof fn lemma_holds_push(seen: Set<Seq<char>>, names: Seq<Seq<char>>, name: Seq<char>)
    requires
        holds(seen, names),
    ensures
        holds(seen.insert(name), names.push(name)),
{
    let t = names.push(name);
    assert forall|n: Seq<char>| #[trigger] seen.insert(name).contains(n) <==> t.contains(n) by {
        if n == name {
            assert(t[names.len() as int] == name);
        } else {
            if names.contains(n) {
                let i = choose|i: int| 0 <= i < names.len() && names[i] == n;
                assert(t[i] == n);
            }
            if t.contains(n) {
                let i = choose|i: int| 0 <= i < t.len() && t[i] == n;
                assert(names[i] == n);
            }
            assert(seen.contains(n) <==> names.contains(n));
        }
    }
}

/// Adds a name to a list unless it is there.
fn add_name(seen: &mut NameSet, all: &mut Vec<String>, name: String)
    requires
        old(seen).wf(),
        holds(old(seen)@, text::texts(old(all)@)),
    ensures
        final(seen).wf(),
        holds(final(seen)@, text::texts(final(all)@)),
        text::texts(final(all)@) == (if text::texts(old(all)@).contains(name@) {
            text::texts(old(all)@)
        } else {
            text::texts(old(all)@).push(name@)
        }),
{
    let ghost before = text::texts(all@);
    assert(seen@.contains(name@) <==> before.contains(name@));
    if !seen.contains(name.as_str()) {
        proof {
            lemma_holds_push(seen@, before, name@);
        }
        seen.insert(name.clone());
        all.push(name);
        assert(text::texts(all@) == before.push(name@));
    }
}

fn list_names(s: &LevelInput) -> (r: Vec<String>)
    requires
        s.tree.wf(),
    ensures
        text::texts(r@) == level_names(s@),
{
    let mut seen = NameSet::new();
    let mut all: Vec<String> = Vec::new();
    let ghost rows = row_names(s@.rows);
    let mut i: usize = 0;
    assert(text::texts(all@) == rows.take(0));
    while i < s.rows.len()
        invariant
            i <= s.rows@.len(),
            rows == row_names(s@.rows),
            seen.wf(),
            holds(seen@, text::texts(all@)),
            text::texts(all@) == rows.take(i as int),
        decreases s.rows@.len() - i,
    {
        let ghost before = text::texts(all@);
        proof {
            assert(rows[i as int] == s.rows@[i as int].name@);
            assert(rows.take(i + 1) == rows.take(i as int).push(rows[i as int]));
            lemma_holds_push(seen@, before, rows[i as int]);
        }
        seen.insert(s.rows[i].name.clone());
        all.push(s.rows[i].name.clone());
        assert(text::texts(all@) == before.push(rows[i as int]));
        i = i + 1;
    }
    assert(rows.take(rows.len() as int) == rows);
    let ghost keys = s.tree.listed();
    let ghost key = s.key@;
    let at = text::to_chars(s.key);
    let n: usize = s.tree.len();
    let mut i: usize = 0;
    assert(keys.take(0) == Seq::<Seq<char>>::empty());
    while i < n
        invariant
            i <= n,
            n == keys.len(),
            keys == s.tree.listed(),
            key == s.key@,
            at@ == key,
            seen.wf(),
            holds(seen@, text::texts(all@)),
            text::texts(all@) == with_new_names(rows, child_names(keys.take(i as int), key)),
        decreases n - i,
    {
        let ghost step = keys.take(i + 1);
        assert(step.drop_last() == keys.take(i as int));
        assert(step.last() == keys[i as int]);
        let k = text::to_chars(s.tree.key(i));
        if let Some(p) = text::rfind(k.as_slice(), '/') {
            proof {
                lemma_rfind_take(k@);
            }
            let head = text::part(k.as_slice(), 0, p);
            assert(head@ == k@.take(p as int));
            if text::same(head.as_slice(), at.as_slice()) {
                assert(p < k@.len() && k@.len() == k.len());
                let name = text::part(k.as_slice(), p + 1, k.len());
                assert(name@ == k@.skip(key.len() as int + 1));
                proof {
                    let before = child_names(keys.take(i as int), key);
                    assert(before.push(name@).drop_last() == before);
                }
                add_name(&mut seen, &mut all, text::from_chars(name.as_slice()));
            }
        }
        i = i + 1;
    }
    assert(keys.take(keys.len() as int) == keys);
    let ghost before = with_new_names(rows, child_names(keys, key));
    let ghost more = extra_names(s@.extra);
    let mut i: usize = 0;
    assert(more.take(0) == Seq::<Seq<char>>::empty());
    while i < s.extra.len()
        invariant
            i <= s.extra@.len(),
            more == extra_names(s@.extra),
            seen.wf(),
            holds(seen@, text::texts(all@)),
            text::texts(all@) == with_new_names(before, more.take(i as int)),
        decreases s.extra@.len() - i,
    {
        let ghost step = more.take(i + 1);
        assert(step.drop_last() == more.take(i as int));
        assert(step.last() == s.extra@[i as int].name@);
        add_name(&mut seen, &mut all, s.extra[i].name.clone());
        i = i + 1;
    }
    assert(more.take(more.len() as int) == more);
    all
}

/// Puts together the entries of a level.
pub fn collect_level_entries(s: LevelInput) -> (r: Vec<LevelEntry>)
    requires
        s.tree.wf(),
        s.sources.wf(),
    ensures
        entries(r@) == level_entries(s@),
{
    let names = list_names(&s);
    let row_index = index_rows(s.rows);
    let extra_index = index_extras(s.extra);
    let ghost all = level_names(s@);
    let ghost want = level_entries(s@);
    let known = s.sources.len() > 0;
    proof {
        s.sources.lemma_listed();
        assert(known == (s@.sources != Set::<Seq<char>>::empty())) by {
            if s.sources@.len() == 0 {
                assert(s.sources@ == Set::<Seq<char>>::empty());
            }
        }
    }
    let n: usize = names.len();
    let mut out: Vec<LevelEntry> = Vec::new();
    let mut i: usize = 0;
    assert(entries(out@) == want.take(0));
    while i < n
        invariant
            i <= n,
            n == all.len(),
            all == level_names(s@),
            want == level_entries(s@),
            s.tree.wf(),
            text::texts(names@) == all,
            known == (s@.sources != Set::<Seq<char>>::empty()),
            places(table::names_in(row_index), row_names(s@.rows)),
            places(table::names_in(extra_index), extra_names(s@.extra)),
            entries(out@) == want.take(i as int),
        decreases n - i,
    {
        let name = names[i].as_str();
        assert(all[i as int] == names@[i as int]@);
        proof {
            lemma_last_place(row_names(s@.rows), name@);
            lemma_last_place(extra_names(s@.extra), name@);
        }
        let chars = text::to_chars(name);
        let child = if text::has_char(chars.as_slice(), '/') {
            None
        } else {
            let mut k = text::to_chars(s.key);
            k.push('/');
            text::extend(&mut k, chars.as_slice());
            let kt = text::from_chars(k.as_slice());
            s.tree.get(kt.as_str())
        };
        assert(child == child_facts(s@.tree, s@.key, name@));
        let extra = table::name_position(&extra_index, name);
        let mut state = match extra {
            Some(k) => {
                assert(extras(s.extra@)[k as int] == s.extra@[k as int]@);
                s.extra[k].state
            },
            None => match child {
                Some(f) => match f.state {
                    Some(x) => x,
                    None => EntryState::Unchanged,
                },
                None => EntryState::Unchanged,
            },
        };
        if state == EntryState::Unchanged && known {
            let rel = preview::join_rel(s.rel, name);
            state = if s.sources.contains(rel.as_str()) {
                EntryState::Identical
            } else {
                EntryState::Uncollided
            };
        }
        assert(state == name_state(s@, name@));
        let is_dir = match child {
            Some(f) => f.is_dir,
            None => match table::name_position(&row_index, name) {
                Some(k) => {
                    assert(dir_rows(s.rows@)[k as int] == s.rows@[k as int]@);
                    s.rows[k].is_dir
                },
                None => match extra {
                    Some(k) => {
                        assert(extras(s.extra@)[k as int] == s.extra@[k as int]@);
                        s.extra[k].is_dir
                    },
                    None => false,
                },
            },
        };
        assert(is_dir == name_is_dir(s@, name@));
        let ghost done = out@;
        out.push(LevelEntry { name: text::copy(name), state, is_dir });
        assert(entries(out@) == entries(done).push(want[i as int]));
        assert(want.take(i + 1) == want.take(i as int).push(want[i as int]));
        i = i + 1;
    }
    assert(want.take(n as int) == want);
    out
}

/// Whether an entry stands before another: changes first, and then by name.
pub open spec fn entry_before(a: EntryView, b: EntryView) -> bool {
    preview::priority(a.state) < preview::priority(b.state) || (preview::priority(a.state)
        == preview::priority(b.state) && order::text_before(a.name, b.name))
}

impl Ranked for LevelEntry {
    open spec fn before(self, other: Self) -> bool {
        entry_before(self@, other@)
    }

    proof fn asymmetric(a: Self, b: Self) {
        order::lemma_text_total(a.name@, b.name@);
    }

    proof fn not_before_transitive(a: Self, b: Self, c: Self) {
        if preview::priority(a.state) == preview::priority(b.state) && preview::priority(b.state)
            == preview::priority(c.state) {
            order::lemma_text_not_before_transitive(a.name@, b.name@, c.name@);
        }
    }

    fn is_before(&self, other: &Self) -> (r: bool) {
        let p: u8 = preview::state_sort_priority(self.state);
        let q: u8 = preview::state_sort_priority(other.state);
        if p != q {
            return p < q;
        }
        let a = text::to_chars(self.name.as_str());
        let b = text::to_chars(other.name.as_str());
        order::text_is_before(a.as_slice(), b.as_slice())
    }
}

/// Whether a state is a change.
pub open spec fn is_change(state: EntryState) -> bool {
    state == EntryState::Added || state == EntryState::Modified || state == EntryState::Replaced
        || state == EntryState::Removed
}

/// The entries of a level that may be shown.
pub open spec fn shown_candidates(all: Seq<EntryView>, include_unchanged: bool) -> Seq<EntryView>
    decreases all.len(),
{
    if all.len() == 0 {
        all
    } else {
        let rest = shown_candidates(all.drop_last(), include_unchanged);
        if include_unchanged || is_change(all.last().state) {
            rest.push(all.last())
        } else {
            rest
        }
    }
}

/// The entries of a level that are shown: the first ones in order.
pub open spec fn selected_of(
    all: Seq<EntryView>,
    max_entries: int,
    include_unchanged: bool,
) -> Seq<EntryView> {
    let ordered = order::ranked_by(
        shown_candidates(all, include_unchanged),
        |a: EntryView, b: EntryView| entry_before(a, b),
    );
    if ordered.len() > max_entries {
        ordered.take(max_entries)
    } else {
        ordered
    }
}

/// Whether an entry of a name is among some.
pub open spec fn names_entry(shown: Seq<EntryView>, name: Seq<char>) -> bool {
    exists|i: int| 0 <= i < shown.len() && (#[trigger] shown[i]).name == name
}

/// The counts of those that are not shown.
pub open spec fn hidden_of(all: Seq<EntryView>, shown: Seq<EntryView>) -> HiddenStateCounts
    decreases all.len(),
{
    if all.len() == 0 {
        preview::nothing_hidden()
    } else {
        let rest = hidden_of(all.drop_last(), shown);
        if names_entry(shown, all.last().name) {
            rest
        } else {
            preview::with_hidden(rest, all.last().state)
        }
    }
}

pub open spec fn entry_names(all: Seq<EntryView>) -> Seq<Seq<char>> {
    all.map_values(|e: EntryView| e.name)
}

proof fn lemma_candidates(all: Seq<EntryView>, include_unchanged: bool)
    requires
        entry_names(all).no_duplicates(),
    ensures
        entry_names(shown_candidates(all, include_unchanged)).no_duplicates(),
        forall|e: EntryView| #[trigger]
            shown_candidates(all, include_unchanged).contains(e) ==> all.contains(e),
    decreases all.len(),
{
    if all.len() > 0 {
        let rest = all.drop_last();
        let names = entry_names(all);
        assert(entry_names(rest) == names.drop_last());
        assert(entry_names(rest).no_duplicates());
        lemma_candidates(rest, include_unchanged);
        let c = shown_candidates(rest, include_unchanged);
        let r = shown_candidates(all, include_unchanged);
        assert forall|e: EntryView| #[trigger] r.contains(e) implies all.contains(e) by {
            let i = choose|i: int| 0 <= i < r.len() && r[i] == e;
            if i < c.len() {
                assert(c[i] == e);
                assert(c.contains(e));
                let j = choose|j: int| 0 <= j < rest.len() && rest[j] == e;
                assert(all[j] == e);
            } else {
                assert(all[all.len() - 1] == e);
            }
        }
        assert forall|i: int, j: int|
            0 <= i < r.len() && 0 <= j < r.len() && i != j implies entry_names(r)[i]
            != entry_names(r)[j] by {
            if i < c.len() && j < c.len() {
                assert(entry_names(c)[i] == r[i].name && entry_names(c)[j] == r[j].name);
            } else {
                let k = if i < c.len() {
                    i
                } else {
                    j
                };
                assert(c.contains(c[k]));
                let m = choose|m: int| 0 <= m < rest.len() && rest[m] == c[k];
                assert(names[m] == c[k].name);
                assert(names[all.len() - 1] == all.last().name);
            }
        }
    }
}

proof fn lemma_hidden_total(all: Seq<EntryView>, shown: Seq<EntryView>)
    requires
        entry_names(all).no_duplicates(),
        all.len() <= usize::MAX,
    ensures
        preview::hidden_total(hidden_of(all, shown)) == entry_names(all).to_set().difference(
            entry_names(shown).to_set(),
        ).len(),
        preview::hidden_total(hidden_of(all, shown)) <= all.len(),
        entry_names(all).to_set().difference(entry_names(shown).to_set()).finite(),
    decreases all.len(),
{
    let s = entry_names(shown).to_set();
    if all.len() == 0 {
        assert(entry_names(all).to_set().difference(s) == Set::<Seq<char>>::empty());
    } else {
        let rest = all.drop_last();
        let names = entry_names(all);
        assert(entry_names(rest) == names.drop_last());
        lemma_hidden_total(rest, shown);
        let name = all.last().name;
        let a = names.drop_last().to_set();
        assert(names[names.len() - 1] == name);
        assert forall|n: Seq<char>| names.to_set().contains(n) == a.insert(name).contains(n) by {
            if names.contains(n) && n != name {
                let i = choose|i: int| 0 <= i < names.len() && names[i] == n;
                assert(names.drop_last()[i] == n);
            }
            if names.drop_last().contains(n) {
                let i = choose|i: int| 0 <= i < names.drop_last().len() && names.drop_last()[i] == n;
                assert(names[i] == n);
            }
        }
        assert(names.to_set() == a.insert(name));
        assert(!a.contains(name)) by {
            if names.drop_last().contains(name) {
                let i = choose|i: int|
                    0 <= i < names.drop_last().len() && names.drop_last()[i] == name;
                assert(names[i] == names[names.len() - 1]);
            }
        }
        assert(names_entry(shown, name) == s.contains(name)) by {
            if names_entry(shown, name) {
                let i = choose|i: int| 0 <= i < shown.len() && (#[trigger] shown[i]).name == name;
                assert(entry_names(shown)[i] == name);
            }
            if entry_names(shown).contains(name) {
                let i = choose|i: int|
                    0 <= i < entry_names(shown).len() && entry_names(shown)[i] == name;
                assert(shown[i].name == name);
            }
        }
        if names_entry(shown, name) {
            assert(names.to_set().difference(s) == a.difference(s));
        } else {
            assert(names.to_set().difference(s) == a.difference(s).insert(name));
        }
    }
}

/// Every entry of a level is either shown or counted among the hidden ones.
pub proof fn law_every_entry_is_shown_or_counted(
    all: Seq<EntryView>,
    max_entries: int,
    include_unchanged: bool,
)
    requires
        entry_names(all).no_duplicates(),
        all.len() <= usize::MAX,
        max_entries >= 0,
    ensures
        ({
            let shown = selected_of(all, max_entries, include_unchanged);
            shown.len() + preview::hidden_total(hidden_of(all, shown)) == all.len()
        }),
{
    broadcast use vstd::seq_lib::group_to_multiset_ensures;

    let shown = selected_of(all, max_entries, include_unchanged);
    let c = shown_candidates(all, include_unchanged);
    let lt = |a: EntryView, b: EntryView| entry_before(a, b);
    let sorted = order::ranked_by(c, lt);
    lemma_candidates(all, include_unchanged);
    order::law_ranked_by_keeps_all(c, lt);
    lemma_hidden_total(all, shown);
    let names = entry_names(all);
    let s = entry_names(shown);
    assert(c.no_duplicates()) by {
        assert forall|i: int, j: int| 0 <= i < c.len() && 0 <= j < c.len() && i != j implies c[i]
            != c[j] by {
            assert(entry_names(c)[i] == c[i].name && entry_names(c)[j] == c[j].name);
        }
    }
    c.lemma_multiset_has_no_duplicates();
    assert forall|e: EntryView| sorted.to_multiset().contains(e) implies sorted.to_multiset().count(
        e,
    ) == 1 by {
        assert(c.to_multiset().contains(e));
    }
    sorted.lemma_multiset_has_no_duplicates_conv();
    assert forall|i: int| 0 <= i < shown.len() implies c.contains(#[trigger] shown[i]) by {
        assert(sorted[i] == shown[i]);
        assert(sorted.contains(shown[i]));
        assert(sorted.to_multiset().count(shown[i]) > 0);
    }
    assert(s.no_duplicates()) by {
        assert forall|i: int, j: int| 0 <= i < s.len() && 0 <= j < s.len() && i != j implies s[i]
            != s[j] by {
            assert(s[i] == shown[i].name && s[j] == shown[j].name);
            assert(sorted[i] != sorted[j]);
            assert(sorted[i] == shown[i] && sorted[j] == shown[j]);
            let a = choose|a: int| 0 <= a < c.len() && c[a] == shown[i];
            let b = choose|b: int| 0 <= b < c.len() && c[b] == shown[j];
            assert(c.contains(shown[i]) && c.contains(shown[j]));
            assert(entry_names(c)[a] == s[i] && entry_names(c)[b] == s[j]);
        }
    }
    s.unique_seq_to_set();
    names.unique_seq_to_set();
    vstd::seq_lib::seq_to_set_is_finite(names);
    vstd::seq_lib::seq_to_set_is_finite(s);
    assert(s.to_set().subset_of(names.to_set())) by {
        assert forall|n: Seq<char>| s.to_set().contains(n) implies names.to_set().contains(n) by {
            let i = choose|i: int| 0 <= i < s.len() && s[i] == n;
            assert(c.contains(shown[i]));
            assert(all.contains(shown[i]));
            let j = choose|j: int| 0 <= j < all.len() && all[j] == shown[i];
            assert(names[j] == n);
        }
    }
    vstd::set_lib::lemma_set_difference_len(names.to_set(), s.to_set());
    assert(names.to_set().intersect(s.to_set()) == s.to_set());
}

/// The entries to show, and how many are not shown.
pub struct Selection {
    pub selected: Vec<LevelEntry>,
    pub hidden: HiddenStateCounts,
}

fn copy_entry(e: &LevelEntry) -> (r: LevelEntry)
    ensures
        r@ == e@,
{
    LevelEntry { name: e.name.clone(), state: e.state, is_dir: e.is_dir }
}

/// Selects the entries to show.
pub fn select_level_entries(all: &Vec<LevelEntry>, max_entries: usize, include_unchanged: bool) -> (r:
    Selection)
    ensures
        entries(r.selected@) == selected_of(
            entries(all@),
            max_entries as int,
            include_unchanged,
        ),
        r.hidden == hidden_of(entries(all@), entries(r.selected@)),
        preview::hidden_total(r.hidden) <= all@.len(),
{
    let ghost views = entries(all@);
    let mut candidates: Vec<LevelEntry> = Vec::new();
    let mut i: usize = 0;
    assert(views.take(0) == Seq::<EntryView>::empty());
    assert(entries(candidates@) == Seq::<EntryView>::empty());
    while i < all.len()
        invariant
            i <= all@.len(),
            views == entries(all@),
            entries(candidates@) == shown_candidates(views.take(i as int), include_unchanged),
        decreases all@.len() - i,
    {
        let ghost step = views.take(i + 1);
        assert(step.drop_last() == views.take(i as int));
        assert(step.last() == all@[i as int]@);
        let show = include_unchanged || match all[i].state {
            EntryState::Added => true,
            EntryState::Modified => true,
            EntryState::Replaced => true,
            EntryState::Removed => true,
            _ => false,
        };
        if show {
            let ghost done = candidates@;
            candidates.push(copy_entry(&all[i]));
            assert(entries(candidates@) == entries(done).push(step.last()));
        }
        i = i + 1;
    }
    assert(views.take(views.len() as int) == views);
    let ghost chosen = candidates@;
    let mut selected = order::sort(candidates);
    proof {
        let f = |e: LevelEntry| e@;
        let lt = |a: EntryView, b: EntryView| entry_before(a, b);
        order::lemma_ranked_mapped(chosen, f, lt);
        assert(entries(chosen) == chosen.map_values(f));
        assert(entries(selected@) == order::ranked_by(entries(chosen), lt));
    }
    let ghost sorted = selected@;
    if selected.len() > max_entries {
        selected.truncate(max_entries);
        assert(entries(selected@) == entries(sorted).take(max_entries as int));
    }
    let ghost shown = entries(selected@);
    let mut names = NameSet::new();
    let mut i: usize = 0;
    while i < selected.len()
        invariant
            i <= selected@.len(),
            shown == entries(selected@),
            names.wf(),
            forall|n: Seq<char>| #[trigger] names@.contains(n) <==> names_entry(shown.take(i as int), n),
        decreases selected@.len() - i,
    {
        let ghost before = names@;
        names.insert(selected[i].name.clone());
        assert forall|n: Seq<char>| #[trigger]
            names@.contains(n) <==> names_entry(shown.take(i + 1), n) by {
            let a = shown.take(i as int);
            let b = shown.take(i + 1);
            if names@.contains(n) {
                if before.contains(n) {
                    let k = choose|k: int| 0 <= k < a.len() && (#[trigger] a[k]).name == n;
                    assert(b[k].name == n);
                } else {
                    assert(b[i as int].name == n);
                }
            }
            if names_entry(b, n) {
                let k = choose|k: int| 0 <= k < b.len() && (#[trigger] b[k]).name == n;
                if k < i {
                    assert(a[k].name == n);
                    assert(before.contains(n));
                } else {
                    assert(b[k] == selected@[i as int]@);
                }
            }
        }
        i = i + 1;
    }
    assert(shown.take(shown.len() as int) == shown);
    let mut hidden = HiddenStateCounts {
        new_count: 0,
        modified_count: 0,
        identical_count: 0,
        uncollided_count: 0,
        deleted_count: 0,
    };
    let mut i: usize = 0;
    while i < all.len()
        invariant
            i <= all@.len(),
            views == entries(all@),
            forall|n: Seq<char>| #[trigger] names@.contains(n) <==> names_entry(shown, n),
            hidden == hidden_of(views.take(i as int), shown),
            preview::hidden_total(hidden) <= i,
        decreases all@.len() - i,
    {
        let ghost step = views.take(i + 1);
        assert(step.drop_last() == views.take(i as int));
        assert(step.last() == all@[i as int]@);
        if !names.contains(all[i].name.as_str()) {
            hidden.count(all[i].state);
        }
        i = i + 1;
    }
    assert(views.take(views.len() as int) == views);
    Selection { selected, hidden }
}

/// Which row of an entry is meant: one that is replaced has two.
#[derive(Clone, Copy, Debug, PartialEq, Eq, Structural)]
pub enum RowKind {
    Single,
    ReplacedOld,
    ReplacedNew,
}

/// An entry as it is shown.
pub open spec fn entry_text(e: EntryView, kind: RowKind) -> Seq<char> {
    let bare = e.name + (if e.is_dir {
        "/"@
    } else {
        ""@
    });
    match kind {
        RowKind::ReplacedOld => "\x1b[91m"@ + bare + " (old)"@ + "\x1b[0m"@,
        RowKind::ReplacedNew => "\x1b[92m"@ + bare + " (new)"@ + "\x1b[0m"@,
        RowKind::Single => match e.state {
            EntryState::Removed => "\x1b[91m"@ + bare + " (removed)"@ + "\x1b[0m"@,
            EntryState::Added => "\x1b[92m"@ + bare + ""@ + "\x1b[0m"@,
            EntryState::Modified => "\x1b[93m"@ + bare + ""@ + "\x1b[0m"@,
            EntryState::Identical => "\x1b[96m"@ + bare + ""@ + "\x1b[0m"@,
            _ => "\x1b[97m"@ + bare + ""@ + "\x1b[0m"@,
        },
    }
}

/// Writes an entry.
pub fn format_entry(e: &LevelEntry, kind: RowKind) -> (r: String)
    ensures
        r@ == entry_text(e@, kind),
{
    let (color, label) = match kind {
        RowKind::ReplacedOld => ("\x1b[91m", " (old)"),
        RowKind::ReplacedNew => ("\x1b[92m", " (new)"),
        RowKind::Single => match e.state {
            EntryState::Removed => ("\x1b[91m", " (removed)"),
            EntryState::Added => ("\x1b[92m", ""),
            EntryState::Modified => ("\x1b[93m", ""),
            EntryState::Identical => ("\x1b[96m", ""),
            _ => ("\x1b[97m", ""),
        },
    };
    let mut out = text::copy(color);
    out.push_str(e.name.as_str());
    out.push_str(
        if e.is_dir {
            "/"
        } else {
            ""
        },
    );
    assert(out@ == color@ + (e.name@ + (if e.is_dir {
        "/"@
    } else {
        ""@
    })));
    out.push_str(label);
    out.push_str("\x1b[0m");
    out
}

/// Whether nothing is known of a name beforehand.
pub open spec fn is_no_extra(s: LevelSource, name: Seq<char>) -> bool {
    forall|i: int| 0 <= i < s.extra.len() ==> (#[trigger] s.extra[i]).name != name
}

proof fn lemma_extra_place(s: LevelSource, name: Seq<char>)
    ensures
        last_place(extra_names(s.extra), name) is None <==> is_no_extra(s, name),
{
    let names = extra_names(s.extra);
    lemma_last_place(names, name);
    if is_no_extra(s, name) && names.contains(name) {
        let i = choose|i: int| 0 <= i < names.len() && names[i] == name;
        assert(s.extra[i].name == name);
    }
    assert forall|i: int| 0 <= i < s.extra.len() && (#[trigger] s.extra[i]).name
        == name implies names.contains(name) by {
        assert(names[i] == name);
    }
}

/// A change that is known of a name beforehand is its state, whatever the tree says.
pub proof fn law_known_states_hold(s: LevelSource, i: int)
    requires
        0 <= i < s.extra.len(),
        forall|j: int| i < j < s.extra.len() ==> (#[trigger] s.extra[j]).name != s.extra[i].name,
        s.extra[i].state != EntryState::Unchanged,
    ensures
        name_state(s, s.extra[i].name) == s.extra[i].state,
{
    let names = extra_names(s.extra);
    let name = s.extra[i].name;
    lemma_last_place_is(names, name, i);
}

proof fn lemma_last_place_is(names: Seq<Seq<char>>, name: Seq<char>, i: int)
    requires
        0 <= i < names.len(),
        names[i] == name,
        forall|j: int| i < j < names.len() ==> #[trigger] names[j] != name,
    ensures
        last_place(names, name) == Some(i),
    decreases names.len(),
{
    if i < names.len() - 1 {
        assert(names[names.len() - 1] != name);
        lemma_last_place_is(names.drop_last(), name, i);
    }
}

/// The tree tells the state of a name of which nothing is known beforehand.
pub proof fn law_the_tree_tells_states(s: LevelSource, name: Seq<char>, state: EntryState)
    requires
        is_no_extra(s, name),
        !name.contains('/'),
        s.tree.facts.contains_key(s.key + seq!['/'] + name),
        s.tree.facts[s.key + seq!['/'] + name].state == Some(state),
        state != EntryState::Unchanged,
    ensures
        name_state(s, name) == state,
{
    lemma_extra_place(s, name);
    assert(s.key.push('/') + name == s.key + seq!['/'] + name);
}

/// A name that does not change is told apart by whether the source has it, where
/// the paths of the source are known.
pub proof fn law_what_stays_is_told_apart(s: LevelSource, name: Seq<char>)
    requires
        is_no_extra(s, name),
        !s.tree.facts.contains_key(s.key + seq!['/'] + name),
    ensures
        name_state(s, name) == EntryState::Unchanged <==> s.sources == Set::<Seq<char>>::empty(),
        name_state(s, name) == EntryState::Identical <==> s.sources.contains(
            preview::joined_rel(s.rel, name),
        ),
        !is_change(name_state(s, name)),
{
    lemma_extra_place(s, name);
    assert(s.key.push('/') + name == s.key + seq!['/'] + name);
}

/// A name is a directory as the tree has it, and else as it stands there now.
pub proof fn law_kinds_of_names(s: LevelSource, name: Seq<char>, i: int)
    requires
        0 <= i < s.rows.len(),
        s.rows[i].name == name,
        forall|j: int| i < j < s.rows.len() ==> (#[trigger] s.rows[j]).name != name,
        !name.contains('/'),
    ensures
        ({
            let key = s.key + seq!['/'] + name;
            name_is_dir(s, name) == if s.tree.facts.contains_key(key) {
                s.tree.facts[key].is_dir
            } else {
                s.rows[i].is_dir
            }
        }),
{
    lemma_last_place_is(row_names(s.rows), name, i);
    assert(s.key.push('/') + name == s.key + seq!['/'] + name);
}

/// Names are added to a list where they are not in it yet: the list has all of
/// both, and nothing twice.
pub proof fn law_new_names_are_added_once(names: Seq<Seq<char>>, more: Seq<Seq<char>>)
    ensures
        forall|n: Seq<char>| #[trigger]
            with_new_names(names, more).contains(n) <==> names.contains(n) || more.contains(n),
        names.no_duplicates() ==> with_new_names(names, more).no_duplicates(),
        with_new_names(names, more).len() >= names.len(),
        with_new_names(names, more).take(names.len() as int) == names,
    decreases more.len(),
{
    let all = with_new_names(names, more);
    if more.len() > 0 {
        let less = more.drop_last();
        let x = more.last();
        law_new_names_are_added_once(names, less);
        let rest = with_new_names(names, less);
        assert forall|n: Seq<char>| #[trigger] all.contains(n) <==> names.contains(n)
            || more.contains(n) by {
            assert(rest.contains(n) <==> names.contains(n) || less.contains(n));
            assert(more == less.push(x));
            assert(more.contains(n) <==> less.contains(n) || n == x) by {
                if less.contains(n) {
                    let i = choose|i: int| 0 <= i < less.len() && less[i] == n;
                    assert(more[i] == n);
                }
                assert(more[more.len() - 1] == x);
                if more.contains(n) {
                    let i = choose|i: int| 0 <= i < more.len() && more[i] == n;
                    if i < less.len() {
                        assert(less[i] == n);
                    }
                }
            }
            if !rest.contains(x) {
                if rest.contains(n) {
                    let i = choose|i: int| 0 <= i < rest.len() && rest[i] == n;
                    assert(all[i] == n);
                }
                assert(all[all.len() - 1] == x);
                if all.contains(n) {
                    let i = choose|i: int| 0 <= i < all.len() && all[i] == n;
                    if i < rest.len() {
                        assert(rest[i] == n);
                    }
                }
            }
        }
        assert(all.take(names.len() as int) == rest.take(names.len() as int));
    } else {
        assert(all.take(names.len() as int) == names);
    }
}

/// Everything that stands in a directory is among the names of its level, once, and
/// so is everything known beforehand.
pub proof fn law_no_name_is_lost(s: LevelSource)
    ensures
        forall|i: int|
            0 <= i < s.rows.len() ==> level_names(s).contains((#[trigger] s.rows[i]).name),
        forall|i: int|
            0 <= i < s.extra.len() ==> level_names(s).contains((#[trigger] s.extra[i]).name),
        row_names(s.rows).no_duplicates() ==> level_names(s).no_duplicates(),
        level_entries(s).len() == level_names(s).len(),
{
    let rows = row_names(s.rows);
    let below = with_new_names(rows, child_names(s.tree.keys, s.key));
    law_new_names_are_added_once(rows, child_names(s.tree.keys, s.key));
    law_new_names_are_added_once(below, extra_names(s.extra));
    assert forall|i: int| 0 <= i < s.rows.len() implies level_names(s).contains(
        (#[trigger] s.rows[i]).name,
    ) by {
        assert(rows[i] == s.rows[i].name);
        assert(below.contains(rows[i]));
    }
    assert forall|i: int| 0 <= i < s.extra.len() implies level_names(s).contains(
        (#[trigger] s.extra[i]).name,
    ) by {
        assert(extra_names(s.extra)[i] == s.extra[i].name);
    }
}

proof fn lemma_candidate(all: Seq<EntryView>, include_unchanged: bool, k: int)
    requires
        0 <= k < all.len(),
        include_unchanged || is_change(all[k].state),
    ensures
        shown_candidates(all, include_unchanged).contains(all[k]),
    decreases all.len(),
{
    let rest = shown_candidates(all.drop_last(), include_unchanged);
    let c = shown_candidates(all, include_unchanged);
    if k < all.len() - 1 {
        lemma_candidate(all.drop_last(), include_unchanged, k);
        let i = choose|i: int| 0 <= i < rest.len() && rest[i] == all[k];
        assert(c[i] == all[k]);
    } else {
        assert(c[c.len() - 1] == all[k]);
    }
}

proof fn lemma_candidates_are_of_all(all: Seq<EntryView>, include_unchanged: bool, k: int)
    requires
        0 <= k < shown_candidates(all, include_unchanged).len(),
    ensures
        all.contains(shown_candidates(all, include_unchanged)[k]),
        include_unchanged || is_change(shown_candidates(all, include_unchanged)[k].state),
    decreases all.len(),
{
    let rest = shown_candidates(all.drop_last(), include_unchanged);
    let c = shown_candidates(all, include_unchanged);
    if k < rest.len() {
        lemma_candidates_are_of_all(all.drop_last(), include_unchanged, k);
        let i = choose|i: int| 0 <= i < all.len() - 1 && all.drop_last()[i] == rest[k];
        assert(all[i] == c[k]);
    } else {
        assert(all[all.len() - 1] == c[k]);
    }
}

proof fn lemma_entries_in_order(c: Seq<EntryView>)
    ensures
        ({
            let r = order::ranked_by(c, |a: EntryView, b: EntryView| entry_before(a, b));
            forall|i: int, j: int|
                0 <= i <= j < r.len() ==> !entry_before(#[trigger] r[j], #[trigger] r[i])
        }),
{
    let lt = |a: EntryView, b: EntryView| entry_before(a, b);
    assert forall|a: EntryView, b: EntryView| #[trigger] lt(a, b) implies !lt(b, a) by {
        order::lemma_text_total(a.name, b.name);
    }
    assert forall|a: EntryView, b: EntryView, d: EntryView|
        !#[trigger] lt(b, a) && !#[trigger] lt(d, b) implies !lt(d, a) by {
        if preview::priority(a.state) == preview::priority(b.state) && preview::priority(b.state)
            == preview::priority(d.state) {
            order::lemma_text_not_before_transitive(a.name, b.name, d.name);
        }
    }
    order::law_ranked_by_is_in_order(c, lt);
    let r = order::ranked_by(c, lt);
    assert forall|i: int, j: int| 0 <= i <= j < r.len() implies !entry_before(
        #[trigger] r[j],
        #[trigger] r[i],
    ) by {
        assert(!lt(r[j], r[i]));
    }
}

/// Whether `b` may be shown behind `a`: what is modified or replaced comes first, then
/// what is added, what is removed, and what does not change; those alike come by name.
pub open spec fn may_follow(a: EntryView, b: EntryView) -> bool {
    &&& b.state == EntryState::Modified || b.state == EntryState::Replaced ==> a.state
        == EntryState::Modified || a.state == EntryState::Replaced
    &&& b.state == EntryState::Added ==> is_change(a.state) && a.state != EntryState::Removed
    &&& b.state == EntryState::Removed ==> is_change(a.state)
    &&& b.state == EntryState::Identical ==> is_change(a.state) || a.state == EntryState::Identical
    &&& a.state == b.state ==> !order::text_before(b.name, a.name)
}

/// What is shown of a level is in order.
pub proof fn law_changes_are_shown_first(
    all: Seq<EntryView>,
    max_entries: int,
    include_unchanged: bool,
    i: int,
    j: int,
)
    requires
        max_entries >= 0,
        0 <= i <= j < selected_of(all, max_entries, include_unchanged).len(),
    ensures
        may_follow(
            selected_of(all, max_entries, include_unchanged)[i],
            selected_of(all, max_entries, include_unchanged)[j],
        ),
{
    lemma_entries_in_order(shown_candidates(all, include_unchanged));
    let ordered = order::ranked_by(
        shown_candidates(all, include_unchanged),
        |a: EntryView, b: EntryView| entry_before(a, b),
    );
    let shown = selected_of(all, max_entries, include_unchanged);
    assert(shown[i] == ordered[i] && shown[j] == ordered[j]);
    assert(!entry_before(ordered[j], ordered[i]));
}

/// What is shown is of the level, and is a change unless the unchanged are asked for;
/// as many are shown as there may be.
pub proof fn law_what_is_shown(
    all: Seq<EntryView>,
    max_entries: int,
    include_unchanged: bool,
    i: int,
)
    requires
        max_entries >= 0,
        0 <= i < selected_of(all, max_entries, include_unchanged).len(),
    ensures
        ({
            let shown = selected_of(all, max_entries, include_unchanged);
            &&& all.contains(shown[i])
            &&& include_unchanged || is_change(shown[i].state)
            &&& shown.len() <= max_entries
        }),
{
    broadcast use vstd::seq_lib::group_to_multiset_ensures;

    let lt = |a: EntryView, b: EntryView| entry_before(a, b);
    let c = shown_candidates(all, include_unchanged);
    let ordered = order::ranked_by(c, lt);
    order::law_ranked_by_keeps_all(c, lt);
    let shown = selected_of(all, max_entries, include_unchanged);
    assert(shown[i] == ordered[i]);
    assert(ordered.contains(shown[i]));
    assert(ordered.to_multiset().count(shown[i]) > 0);
    assert(c.contains(shown[i]));
    let k = choose|k: int| 0 <= k < c.len() && c[k] == shown[i];
    lemma_candidates_are_of_all(all, include_unchanged, k);
}

/// An entry that could be shown is left out only where there is no more room, and only
/// behind all those that are shown.
pub proof fn law_entries_are_left_out_from_the_end(
    all: Seq<EntryView>,
    max_entries: int,
    include_unchanged: bool,
    k: int,
)
    requires
        max_entries >= 0,
        0 <= k < all.len(),
        include_unchanged || is_change(all[k].state),
        !selected_of(all, max_entries, include_unchanged).contains(all[k]),
    ensures
        ({
            let shown = selected_of(all, max_entries, include_unchanged);
            &&& shown.len() == max_entries
            &&& forall|i: int| 0 <= i < shown.len() ==> may_follow(#[trigger] shown[i], all[k])
        }),
{
    broadcast use vstd::seq_lib::group_to_multiset_ensures;

    let lt = |a: EntryView, b: EntryView| entry_before(a, b);
    let c = shown_candidates(all, include_unchanged);
    let ordered = order::ranked_by(c, lt);
    let shown = selected_of(all, max_entries, include_unchanged);
    order::law_ranked_by_keeps_all(c, lt);
    lemma_candidate(all, include_unchanged, k);
    lemma_entries_in_order(c);
    assert(c.to_multiset().count(all[k]) > 0);
    assert(ordered.contains(all[k]));
    let p = choose|p: int| 0 <= p < ordered.len() && ordered[p] == all[k];
    if p < shown.len() {
        assert(shown[p] == all[k]);
    }
    assert forall|i: int| 0 <= i < shown.len() implies may_follow(#[trigger] shown[i], all[k]) by {
        assert(shown[i] == ordered[i]);
        assert(!entry_before(ordered[p], ordered[i]));
    }
}

/// The color of an entry tells what becomes of it: red for what goes, green for what
/// comes, yellow for what is modified.
pub proof fn law_colors_tell_states(e: EntryView, kind: RowKind)
    ensures
        text::begins(entry_text(e, kind), "\x1b[91m"@) <==> kind == RowKind::ReplacedOld || (kind
            == RowKind::Single && e.state == EntryState::Removed),
        text::begins(entry_text(e, kind), "\x1b[92m"@) <==> kind == RowKind::ReplacedNew || (kind
            == RowKind::Single && e.state == EntryState::Added),
        text::begins(entry_text(e, kind), "\x1b[93m"@) <==> kind == RowKind::Single && e.state
            == EntryState::Modified,
        text::begins(entry_text(e, kind), "\x1b[96m"@) <==> kind == RowKind::Single && e.state
            == EntryState::Identical,
        text::begins(entry_text(e, kind).skip(5), e.name),
        text::begins(entry_text(e, kind).skip(5 + e.name.len() as int), "/"@) <==> e.is_dir,
        text::ends(entry_text(e, kind), "\x1b[0m"@),
{
    reveal_strlit("\x1b[91m");
    reveal_strlit("\x1b[92m");
    reveal_strlit("\x1b[93m");
    reveal_strlit("\x1b[96m");
    reveal_strlit("\x1b[97m");
    reveal_strlit("\x1b[0m");
    reveal_strlit("/");
    reveal_strlit("");
    reveal_strlit(" (old)");
    reveal_strlit(" (new)");
    reveal_strlit(" (removed)");
    let t = entry_text(e, kind);
    assert(t.len() >= 9);
    let c = t.take(5);
    assert("\x1b[91m"@[3] == '1' && "\x1b[92m"@[3] == '2' && "\x1b[93m"@[3] == '3'
        && "\x1b[96m"@[3] == '6' && "\x1b[97m"@[3] == '7');
    assert(c[3] == t[3]);
    assert(kind == RowKind::ReplacedOld ==> c == "\x1b[91m"@);
    assert(kind == RowKind::ReplacedNew ==> c == "\x1b[92m"@);
    if kind == RowKind::Single {
        assert(e.state == EntryState::Removed ==> c == "\x1b[91m"@);
        assert(e.state == EntryState::Added ==> c == "\x1b[92m"@);
        assert(e.state == EntryState::Modified ==> c == "\x1b[93m"@);
        assert(e.state == EntryState::Identical ==> c == "\x1b[96m"@);
        assert(e.state == EntryState::Replaced || e.state == EntryState::Uncollided || e.state
            == EntryState::Unchanged ==> c == "\x1b[97m"@);
    }
    assert(t.skip(5).take(e.name.len() as int) == e.name);
    let after = t.skip(5 + e.name.len() as int);
    assert(after.len() >= 4);
    assert(e.is_dir ==> after[0] == '/');
    assert(!e.is_dir ==> after[0] != '/');
    assert(after.take(1)[0] == after[0]);
    assert(e.is_dir ==> after.take(1) == "/"@);
    assert(t.skip(t.len() - 4) == "\x1b[0m"@);
}

/// A name that is known beforehand and that neither the tree nor the directory has is a
/// directory as it is known to be.
pub proof fn law_kinds_of_known_names(s: LevelSource, i: int)
    requires
        0 <= i < s.extra.len(),
        forall|j: int| i < j < s.extra.len() ==> (#[trigger] s.extra[j]).name != s.extra[i].name,
        forall|j: int| 0 <= j < s.rows.len() ==> (#[trigger] s.rows[j]).name != s.extra[i].name,
        !s.tree.facts.contains_key(s.key + seq!['/'] + s.extra[i].name),
    ensures
        name_is_dir(s, s.extra[i].name) == s.extra[i].is_dir,
{
    let name = s.extra[i].name;
    assert(s.key.push('/') + name == s.key + seq!['/'] + name);
    lemma_last_place_is(extra_names(s.extra), name, i);
    lemma_last_place(row_names(s.rows), name);
    if row_names(s.rows).contains(name) {
        let k = choose|k: int| 0 <= k < s.rows.len() && row_names(s.rows)[k] == name;
        assert(s.rows[k].name == name);
    }
}

} // verus!
