//! A preview of the names at the root of a transfer.

use crate::change_tree;
use crate::domain::{ChangeItem, ChangeKind, SrcObjKind};
use crate::level;
use crate::level::{DirRowView, EntryView, LevelEntry};
use crate::paths;
use crate::preview;
use crate::preview::EntryState;
use crate::showall;
use crate::showall::{RootNames, RootNamesView, ShowAll, ShowAllInput, Shown, TreePreview};
use crate::table;
use crate::table::NameSet;
use crate::text;
use rustc_hash::FxHashMap;
use vstd::prelude::*;

verus! {

/// What is known of a name at the root.
#[derive(Clone, Copy, Debug, PartialEq, Eq, Structural)]
pub struct TopFacts {
    pub state: EntryState,
    pub is_dir: Option<bool>,
}

pub struct TopView {
    pub name: Seq<char>,
    pub facts: TopFacts,
}

pub open spec fn top_names(tops: Seq<TopView>) -> Seq<Seq<char>> {
    tops.map_values(|t: TopView| t.name)
}

/// What is known of a name.
pub open spec fn top_at(tops: Seq<TopView>, name: Seq<char>) -> Option<TopFacts> {
    match level::last_place(top_names(tops), name) {
        Some(i) => Some(tops[i].facts),
        None => None,
    }
}

/// The names with something known of one.
pub open spec fn with_top(tops: Seq<TopView>, name: Seq<char>, facts: TopFacts) -> Seq<TopView> {
    match level::last_place(top_names(tops), name) {
        Some(i) => tops.update(i, TopView { name, facts }),
        None => tops.push(TopView { name, facts }),
    }
}

struct TopMap {
    names: Vec<String>,
    facts: Vec<TopFacts>,
    positions: FxHashMap<String, usize>,
}

impl TopMap {
    spec fn model(&self) -> Seq<TopView> {
        Seq::new(
            self.names@.len(),
            |i: int| TopView { name: self.names@[i]@, facts: self.facts@[i] },
        )
    }

    spec fn wf(&self) -> bool {
        let t = table::names_in(self.positions);
        &&& self.facts@.len() == self.names@.len()
        &&& forall|i: int|
            0 <= i < self.names@.len() ==> t.contains_key(#[trigger] self.names@[i]@)
                && t[self.names@[i]@] == i
        &&& forall|k: Seq<char>| #[trigger]
            t.contains_key(k) ==> t[k] < self.names@.len() && self.names@[t[k] as int]@ == k
    }

    proof fn lemma_place(&self, name: Seq<char>)
        requires
            self.wf(),
        ensures
            level::last_place(top_names(self.model()), name) == (if table::names_in(
                self.positions,
            ).contains_key(name) {
                Some(table::names_in(self.positions)[name] as int)
            } else {
                None
            }),
    {
        let names = top_names(self.model());
        let t = table::names_in(self.positions);
        level::lemma_last_place(names, name);
        assert forall|i: int| 0 <= i < names.len() implies #[trigger] names[i] == self.names@[i]@ by {}
        if t.contains_key(name) {
            assert(names[t[name] as int] == name);
            assert(names.contains(name));
            let i = level::last_place(names, name)->0;
            assert(names[i] == name);
            assert(self.names@[i]@ == name);
        } else if names.contains(name) {
            let i = choose|i: int| 0 <= i < names.len() && names[i] == name;
            assert(self.names@[i]@ == name);
        }
    }

    fn new() -> (r: TopMap)
        ensures
            r.wf(),
            r.model() == Seq::<TopView>::empty(),
    {
        let r = TopMap { names: Vec::new(), facts: Vec::new(), positions: table::new_names() };
        assert(r.model() == Seq::<TopView>::empty());
        r
    }

    fn get(&self, name: &str) -> (r: Option<TopFacts>)
        requires
            self.wf(),
        ensures
            r == top_at(self.model(), name@),
    {
        proof {
            self.lemma_place(name@);
        }
        match table::name_position(&self.positions, name) {
            Some(i) => Some(self.facts[i]),
            None => None,
        }
    }

    fn set(&mut self, name: &str, facts: TopFacts)
        requires
            old(self).wf(),
        ensures
            final(self).wf(),
            final(self).model() == with_top(old(self).model(), name@, facts),
    {
        proof {
            self.lemma_place(name@);
        }
        let ghost before = *self;
        match table::name_position(&self.positions, name) {
            Some(i) => {
                self.facts.set(i, facts);
                assert(self.model() == before.model().update(i as int, TopView { name: name@, facts }));
            },
            None => {
                let i: usize = self.names.len();
                table::put_name(&mut self.positions, text::copy(name), i);
                self.names.push(text::copy(name));
                self.facts.push(facts);
                assert(self.model() == before.model().push(TopView { name: name@, facts }));
            },
        }
    }
}

/// The facts of a name with one change more.
pub open spec fn changed_top(before: Option<TopFacts>, state: EntryState, is_dir: bool) -> TopFacts {
    TopFacts {
        is_dir: if is_dir {
            Some(true)
        } else {
            match before {
                Some(f) => match f.is_dir {
                    Some(d) => Some(d),
                    None => Some(false),
                },
                None => Some(false),
            }
        },
        state: match before {
            Some(f) => if f.state == EntryState::Added || state == EntryState::Added {
                EntryState::Added
            } else {
                EntryState::Modified
            },
            None => state,
        },
    }
}

/// The names at the root with one change more.
pub open spec fn with_top_item(tops: Seq<TopView>, item: ChangeItem) -> Seq<TopView> {
    match change_tree::item_path(item.rel@) {
        Some(p) => if p.0[0].len() == 0 {
            tops
        } else {
            with_top(
                tops,
                p.0[0],
                changed_top(
                    top_at(tops, p.0[0]),
                    preview::state_of(item.kind),
                    p.1 || p.0.len() > 1,
                ),
            )
        },
        None => tops,
    }
}

/// The names at the root of a list of changes.
pub open spec fn item_tops(items: Seq<ChangeItem>) -> Seq<TopView>
    decreases items.len(),
{
    if items.len() == 0 {
        Seq::empty()
    } else {
        with_top_item(item_tops(items.drop_last()), items.last())
    }
}

/// The names at the root with a state set for each of some.
pub open spec fn with_states(
    tops: Seq<TopView>,
    names: Seq<Seq<char>>,
    state: EntryState,
    keep_added: bool,
) -> Seq<TopView>
    decreases names.len(),
{
    if names.len() == 0 {
        tops
    } else {
        let rest = with_states(tops, names.drop_last(), state, keep_added);
        let name = names.last();
        match top_at(rest, name) {
            Some(f) => if keep_added && f.state == EntryState::Added {
                rest
            } else {
                with_top(rest, name, TopFacts { state, ..f })
            },
            None => with_top(rest, name, TopFacts { state, is_dir: None }),
        }
    }
}

/// The names at the root that change.
pub open spec fn changed_tops(items: Seq<ChangeItem>, n: RootNamesView) -> Seq<TopView> {
    let a = with_states(item_tops(items), n.added, EntryState::Added, false);
    let b = with_states(a, n.modified, EntryState::Modified, true);
    let c = with_states(b, n.replaced, EntryState::Replaced, false);
    with_states(c, n.removed, EntryState::Removed, false)
}

/// A changed name as it is shown: one that is added where something stands is
/// modified.
pub open spec fn top_entry(
    t: TopView,
    existing: Set<Seq<char>>,
    directories: Set<Seq<char>>,
) -> EntryView {
    EntryView {
        name: t.name,
        state: if t.facts.state == EntryState::Added && existing.contains(t.name) {
            EntryState::Modified
        } else {
            t.facts.state
        },
        is_dir: match t.facts.is_dir {
            Some(d) => d,
            None => directories.contains(t.name),
        },
    }
}

/// The names that stand at the root and do not change.
pub open spec fn unchanged_entries(
    existing: Seq<Seq<char>>,
    tops: Seq<TopView>,
    source_top_entries: Set<Seq<char>>,
    directories: Set<Seq<char>>,
) -> Seq<EntryView>
    decreases existing.len(),
{
    if existing.len() == 0 {
        Seq::empty()
    } else {
        let rest = unchanged_entries(
            existing.drop_last(),
            tops,
            source_top_entries,
            directories,
        );
        let name = existing.last();
        if top_at(tops, name) is Some {
            rest
        } else {
            rest.push(
                EntryView {
                    name,
                    state: if source_top_entries.contains(name) {
                        EntryState::Identical
                    } else {
                        EntryState::Uncollided
                    },
                    is_dir: directories.contains(name),
                },
            )
        }
    }
}

/// What a preview of the names at a root is made from.
pub struct TopSource {
    pub items: Seq<ChangeItem>,
    pub names: RootNamesView,
    /// The names that stand there.
    pub existing: Seq<Seq<char>>,
    /// The names that the source brings.
    pub source_top_entries: Set<Seq<char>>,
}

/// The names at the root.
pub open spec fn top_entries(s: TopSource) -> Seq<EntryView> {
    let tops = changed_tops(s.items, s.names);
    tops.map_values(
        |t: TopView| top_entry(t, s.existing.to_set(), s.names.directories),
    ) + unchanged_entries(s.existing, tops, s.source_top_entries, s.names.directories)
}

pub struct TopInput<'a> {
    pub items: &'a Vec<ChangeItem>,
    pub names: &'a RootNames,
    pub existing: &'a NameSet,
    pub source_top_entries: &'a NameSet,
}

impl<'a> View for TopInput<'a> {
    type V = TopSource;

    open spec fn view(&self) -> TopSource {
        TopSource {
            items: self.items@,
            names: self.names@,
            existing: self.existing.listed(),
            source_top_entries: self.source_top_entries@,
        }
    }
}

impl<'a> TopInput<'a> {
    pub open spec fn wf(&self) -> bool {
        self.names.wf() && self.existing.wf()
    }
}

fn add_top_item(tops: &mut TopMap, item: &ChangeItem)
    requires
        old(tops).wf(),
    ensures
        final(tops).wf(),
        final(tops).model() == with_top_item(old(tops).model(), *item),
{
    let trimmed = text::trim(text::to_chars(item.rel.as_str()).as_slice());
    let p = paths::strip_repeated(trimmed.as_slice(), text::to_chars("./").as_slice());
    let bare = text::trim_end(p.as_slice(), '/');
    if bare.len() == 0 {
        return;
    }
    proof {
        change_tree::lemma_trim_end_len(p@);
        text::lemma_split_on_nonempty(bare@, '/');
    }
    let is_dir = p[p.len() - 1] == '/';
    let parts = text::split(bare.as_slice(), '/');
    let ghost names = text::rows(parts@);
    assert(change_tree::item_path(item.rel@) == Some((names, is_dir)));
    assert(names[0] == parts@[0]@);
    if parts[0].len() == 0 {
        return;
    }
    let top = text::from_chars(parts[0].as_slice());
    let before = tops.get(top.as_str());
    let state = match item.kind {
        ChangeKind::NewFile => EntryState::Added,
        ChangeKind::NewDir => EntryState::Added,
        ChangeKind::RemovedFile => EntryState::Removed,
        ChangeKind::RemovedDir => EntryState::Removed,
        ChangeKind::ModFile => EntryState::Modified,
    };
    let dir = is_dir || parts.len() > 1;
    let facts = TopFacts {
        is_dir: if dir {
            Some(true)
        } else {
            match before {
                Some(f) => match f.is_dir {
                    Some(d) => Some(d),
                    None => Some(false),
                },
                None => Some(false),
            }
        },
        state: match before {
            Some(f) => if f.state == EntryState::Added || state == EntryState::Added {
                EntryState::Added
            } else {
                EntryState::Modified
            },
            None => state,
        },
    };
    tops.set(top.as_str(), facts);
}

fn set_states(tops: &mut TopMap, names: &NameSet, state: EntryState, keep_added: bool)
    requires
        old(tops).wf(),
        names.wf(),
    ensures
        final(tops).wf(),
        final(tops).model() == with_states(old(tops).model(), names.listed(), state, keep_added),
{
    let ghost start = tops.model();
    let ghost all = names.listed();
    let n: usize = names.len();
    let mut i: usize = 0;
    assert(all.take(0) == Seq::<Seq<char>>::empty());
    while i < n
        invariant
            i <= n,
            n == all.len(),
            all == names.listed(),
            tops.wf(),
            tops.model() == with_states(start, all.take(i as int), state, keep_added),
        decreases n - i,
    {
        assert(all.take(i + 1).drop_last() == all.take(i as int));
        let name = names.name(i);
        match tops.get(name) {
            Some(f) => {
                if !(keep_added && f.state == EntryState::Added) {
                    tops.set(name, TopFacts { state, is_dir: f.is_dir });
                }
            },
            None => {
                tops.set(name, TopFacts { state, is_dir: None });
            },
        }
        i = i + 1;
    }
    assert(all.take(n as int) == all);
}

/// Lists the names at the root, with what becomes of each.
pub fn collect_top_level_preview(s: TopInput) -> (r: Vec<LevelEntry>)
    requires
        s.wf(),
    ensures
        level::entries(r@) == top_entries(s@),
{
    let mut tops = TopMap::new();
    let mut i: usize = 0;
    assert(s.items@.take(0) == Seq::<ChangeItem>::empty());
    while i < s.items.len()
        invariant
            i <= s.items@.len(),
            tops.wf(),
            tops.model() == item_tops(s.items@.take(i as int)),
        decreases s.items@.len() - i,
    {
        assert(s.items@.take(i + 1).drop_last() == s.items@.take(i as int));
        add_top_item(&mut tops, &s.items[i]);
        i = i + 1;
    }
    assert(s.items@.take(s.items@.len() as int) == s.items@);
    set_states(&mut tops, &s.names.added, EntryState::Added, false);
    set_states(&mut tops, &s.names.modified, EntryState::Modified, true);
    set_states(&mut tops, &s.names.replaced, EntryState::Replaced, false);
    set_states(&mut tops, &s.names.removed, EntryState::Removed, false);
    let ghost model = tops.model();
    assert(model == changed_tops(s.items@, s.names@));
    let ghost existing = s.existing.listed();
    proof {
        s.existing.lemma_listed();
    }
    let ghost changed = model.map_values(
        |t: TopView| top_entry(t, existing.to_set(), s.names@.directories),
    );
    let mut out: Vec<LevelEntry> = Vec::new();
    let mut i: usize = 0;
    assert(level::entries(out@) == changed.take(0));
    while i < tops.names.len()
        invariant
            i <= tops.names@.len(),
            tops.wf(),
            tops.model() == model,
            existing == s.existing.listed(),
            existing.to_set() == s.existing@,
            changed == model.map_values(
                |t: TopView| top_entry(t, existing.to_set(), s.names@.directories),
            ),
            level::entries(out@) == changed.take(i as int),
        decreases tops.names@.len() - i,
    {
        let name = tops.names[i].as_str();
        let facts = tops.facts[i];
        assert(model[i as int] == (TopView { name: name@, facts }));
        let state = if facts.state == EntryState::Added && s.existing.contains(name) {
            EntryState::Modified
        } else {
            facts.state
        };
        let is_dir = match facts.is_dir {
            Some(d) => d,
            None => s.names.directories.contains(name),
        };
        let ghost before = out@;
        out.push(LevelEntry { name: text::copy(name), state, is_dir });
        assert(level::entries(out@) == level::entries(before).push(changed[i as int]));
        assert(changed.take(i + 1) == changed.take(i as int).push(changed[i as int]));
        i = i + 1;
    }
    assert(changed.take(changed.len() as int) == changed);
    let n: usize = s.existing.len();
    let mut i: usize = 0;
    assert(existing.take(0) == Seq::<Seq<char>>::empty());
    assert(changed + Seq::<EntryView>::empty() == changed);
    while i < n
        invariant
            i <= n,
            n == existing.len(),
            tops.wf(),
            tops.model() == model,
            existing == s.existing.listed(),
            level::entries(out@) == changed + unchanged_entries(
                existing.take(i as int),
                model,
                s.source_top_entries@,
                s.names@.directories,
            ),
        decreases n - i,
    {
        let ghost step = existing.take(i + 1);
        assert(step.drop_last() == existing.take(i as int));
        let name = s.existing.name(i);
        assert(step.last() == name@);
        if tops.get(name).is_none() {
            let state = if s.source_top_entries.contains(name) {
                EntryState::Identical
            } else {
                EntryState::Uncollided
            };
            let ghost before = out@;
            let is_dir = s.names.directories.contains(name);
            out.push(LevelEntry { name: text::copy(name), state, is_dir });
            assert(level::entries(out@) == level::entries(before).push(
                EntryView { name: name@, state, is_dir },
            ));
            assert(level::entries(out@) == changed + unchanged_entries(
                step,
                model,
                s.source_top_entries@,
                s.names@.directories,
            ));
        }
        i = i + 1;
    }
    assert(existing.take(n as int) == existing);
    out
}

/// The line that tells of what is hidden.
pub open spec fn rest_lines(summary: Option<Seq<char>>) -> Seq<Seq<char>> {
    match summary {
        Some(s) => seq!["... and "@ + s],
        None => Seq::empty(),
    }
}

/// The lines of a preview of the names at a root.
pub open spec fn top_lines(s: TopSource, include_unchanged: bool, max_top_entries: int) -> Seq<
    Seq<char>,
> {
    let all = top_entries(s);
    let shown = level::selected_of(all, max_top_entries, include_unchanged);
    let rest = rest_lines(
        preview::hidden_summary(level::hidden_of(all, shown), !include_unchanged),
    );
    let rows = showall::entry_units(shown);
    if shown.len() == 0 {
        seq!["(no new additions)"@] + rest
    } else {
        showall::row_lines(rows, rows.len() as int) + rest
    }
}

/// Shows the names at the root of a transfer.
pub fn render_changed_top_preview(
    s: TopInput,
    include_unchanged: bool,
    max_top_entries: usize,
) -> (r: String)
    requires
        s.wf(),
    ensures
        r@ == showall::text_of_lines(top_lines(s@, include_unchanged, max_top_entries as int)),
{
    let ghost source = s@;
    let all = collect_top_level_preview(s);
    let picked = level::select_level_entries(&all, max_top_entries, include_unchanged);
    let selected = picked.selected;
    let hidden = picked.hidden;
    assert(all@.len() == all.len());
    let rest = preview::format_hidden_top_summary(
        hidden.new_count,
        hidden.modified_count,
        hidden.identical_count,
        hidden.uncollided_count,
        hidden.deleted_count,
        !include_unchanged,
    );
    let ghost shown = level::entries(selected@);
    let ghost rows = showall::entry_units(shown);
    let mut lines: Vec<String> = Vec::new();
    assert(text::texts(lines@) == Seq::<Seq<char>>::empty());
    if selected.len() == 0 {
        text::push_text(&mut lines, "(no new additions)");
        assert(text::texts(lines@) == seq!["(no new additions)"@]);
    } else {
        showall::write_rows(&selected, &mut lines);
        assert(text::texts(lines@) == showall::row_lines(rows, rows.len() as int));
    }
    let ghost body = text::texts(lines@);
    if let Some(t) = rest {
        let mut line = text::copy("... and ");
        line.push_str(t.as_str());
        lines.push(line);
        assert(text::texts(lines@) == body.push(line@));
    }
    assert(text::texts(lines@) == top_lines(source, include_unchanged, max_top_entries as int));
    showall::write_lines(&lines)
}

/// What decides the names that a preview shows in a state known beforehand.
pub struct ExtraFacts {
    /// Where what stands in the way is moved to.
    pub backup: Option<String>,
    /// What is replaced.
    pub overwrite_target: Option<String>,
    pub preview_inside_target_dir: bool,
    pub rename_target_only: Option<String>,
    pub rename_target_is_dir: bool,
    pub existing_same_name_target: bool,
    pub simple_rename_src: Option<String>,
    pub simple_rename_dst: Option<String>,
    pub is_move: bool,
}

/// The names in a state known beforehand.
pub struct ExtraNames {
    pub added: NameSet,
    pub replaced: NameSet,
    pub removed: NameSet,
}

/// The last name of a path, if both are there.
pub open spec fn name_of(path: Option<String>) -> Option<Seq<char>> {
    match path {
        Some(p) => paths::last_name(p@),
        None => None,
    }
}

/// A name without its slashes, if it is there.
pub open spec fn bare_name(name: Option<String>) -> Option<Seq<char>> {
    match name {
        Some(n) => Some(text::trim_end_char(n@, '/')),
        None => None,
    }
}

/// The set of those that are there.
pub open spec fn set_of(a: Option<Seq<char>>, b: Option<Seq<char>>, c: Option<Seq<char>>) -> Set<
    Seq<char>,
> {
    Set::new(|n: Seq<char>| a == Some(n) || b == Some(n) || c == Some(n))
}

/// The names that are added: the backup, unless something is replaced, and new
/// names for the source, unless something stands there.
pub open spec fn extra_added(f: ExtraFacts) -> Set<Seq<char>> {
    set_of(
        if f.overwrite_target is None {
            name_of(f.backup)
        } else {
            None
        },
        if !f.preview_inside_target_dir && !f.rename_target_is_dir && !f.existing_same_name_target {
            bare_name(f.rename_target_only)
        } else {
            None
        },
        if !f.existing_same_name_target {
            bare_name(f.simple_rename_dst)
        } else {
            None
        },
    )
}

/// The names that are replaced.
pub open spec fn extra_replaced(f: ExtraFacts) -> Set<Seq<char>> {
    set_of(
        if !f.preview_inside_target_dir {
            name_of(f.overwrite_target)
        } else {
            None
        },
        None,
        None,
    )
}

/// The names that are removed.
pub open spec fn extra_removed(f: ExtraFacts) -> Set<Seq<char>> {
    set_of(
        if f.is_move {
            bare_name(f.simple_rename_src)
        } else {
            None
        },
        None,
        None,
    )
}

fn insert_last_name(set: &mut NameSet, path: &Option<String>)
    requires
        old(set).wf(),
    ensures
        final(set).wf(),
        final(set)@ == (match name_of(*path) {
            Some(n) => old(set)@.insert(n),
            None => old(set)@,
        }),
{
    if let Some(p) = path {
        if let Some(n) = paths::file_name(p.as_str()) {
            set.insert(n);
        }
    }
}

fn insert_bare_name(set: &mut NameSet, name: &Option<String>)
    requires
        old(set).wf(),
    ensures
        final(set).wf(),
        final(set)@ == (match bare_name(*name) {
            Some(n) => old(set)@.insert(n),
            None => old(set)@,
        }),
{
    if let Some(n) = name {
        let bare = text::trim_end(text::to_chars(n.as_str()).as_slice(), '/');
        set.insert(text::from_chars(bare.as_slice()));
    }
}

/// Finds the names that a preview shows in a state known beforehand.
pub fn extra_names(f: &ExtraFacts) -> (r: ExtraNames)
    ensures
        r.added.wf() && r.replaced.wf() && r.removed.wf(),
        r.added@ == extra_added(*f),
        r.replaced@ == extra_replaced(*f),
        r.removed@ == extra_removed(*f),
{
    let mut added = NameSet::new();
    if f.overwrite_target.is_none() {
        insert_last_name(&mut added, &f.backup);
    }
    if !f.preview_inside_target_dir && !f.rename_target_is_dir && !f.existing_same_name_target {
        insert_bare_name(&mut added, &f.rename_target_only);
    }
    if !f.existing_same_name_target {
        insert_bare_name(&mut added, &f.simple_rename_dst);
    }
    let mut replaced = NameSet::new();
    if !f.preview_inside_target_dir {
        insert_last_name(&mut replaced, &f.overwrite_target);
    }
    let mut removed = NameSet::new();
    if f.is_move {
        insert_bare_name(&mut removed, &f.simple_rename_src);
    }
    assert(added@ == extra_added(*f));
    assert(replaced@ == extra_replaced(*f));
    assert(removed@ == extra_removed(*f));
    ExtraNames { added, replaced, removed }
}

/// The name that the source gets, where it gets another.
pub open spec fn renamed_top(
    kind: SrcObjKind,
    simple_rename_dst: Option<Seq<char>>,
    rename_target_only: Option<Seq<char>>,
    rename_target_is_dir: bool,
) -> Option<Seq<char>> {
    let chosen = match simple_rename_dst {
        Some(s) => Some(s),
        None => if kind == SrcObjKind::File || rename_target_is_dir {
            rename_target_only
        } else {
            None
        },
    };
    match chosen {
        Some(s) => if text::trim_end_char(s, '/').len() > 0 {
            Some(text::trim_end_char(s, '/'))
        } else {
            None
        },
        None => None,
    }
}

/// The names that a source brings to the root: those in it where only they are
/// taken, and else its own, or the new one.
pub open spec fn source_tops(
    src: Seq<char>,
    kind: SrcObjKind,
    include_root: bool,
    renamed: Option<Seq<char>>,
    children: Set<Seq<char>>,
) -> Set<Seq<char>> {
    if kind == SrcObjKind::Dir && !include_root {
        children
    } else {
        match renamed {
            Some(n) => set![n],
            None => match paths::last_name(src) {
                Some(n) => set![n],
                None => Set::empty(),
            },
        }
    }
}

pub open spec fn opt_str(s: Option<&str>) -> Option<Seq<char>> {
    match s {
        Some(t) => Some(t@),
        None => None,
    }
}

/// Finds the names that a source brings to the root. `children` are the names in
/// it.
pub fn collect_source_top_entries(
    src_mnt: &str,
    src_obj_kind: SrcObjKind,
    include_root: bool,
    simple_rename_dst: Option<&str>,
    rename_target_only: Option<&str>,
    rename_target_is_dir: bool,
    children: NameSet,
) -> (r: NameSet)
    requires
        children.wf(),
    ensures
        r.wf(),
        r@ == source_tops(
            src_mnt@,
            src_obj_kind,
            include_root,
            renamed_top(
                src_obj_kind,
                opt_str(simple_rename_dst),
                opt_str(rename_target_only),
                rename_target_is_dir,
            ),
            children@,
        ),
{
    if src_obj_kind == SrcObjKind::Dir && !include_root {
        return children;
    }
    let chosen = match simple_rename_dst {
        Some(s) => Some(s),
        None => if src_obj_kind == SrcObjKind::File || rename_target_is_dir {
            rename_target_only
        } else {
            None
        },
    };
    let mut out = NameSet::new();
    if let Some(s) = chosen {
        let bare = text::trim_end(text::to_chars(s).as_slice(), '/');
        if bare.len() > 0 {
            let name = text::from_chars(bare.as_slice());
            out.insert(name);
            assert(out@ == set![name@]);
            return out;
        }
    }
    if let Some(n) = paths::file_name(src_mnt) {
        out.insert(n);
        assert(out@ == set![n@]);
    }
    out
}

/// The most lines that a preview takes.
pub const BODY_MAX_LINES: usize = 25;

/// A preview down to a depth.
pub open spec fn shown_to(c: ShowAll, root: Seq<char>, n: RootNamesView, depth: int) -> Shown {
    showall::shown_level(
        ShowAll { max_depth: depth, ..c },
        showall::root_place(root),
        showall::root_extras_of(n),
    )
}

/// The greatest depth up to `max_depth` at which, as at every lesser one, a
/// preview takes no more than its lines. None is given as 0.
pub open spec fn best_depth(c: ShowAll, root: Seq<char>, n: RootNamesView, max_depth: int) -> int
    decreases max_depth,
{
    if max_depth <= 0 {
        0
    } else {
        let less = best_depth(c, root, n, max_depth - 1);
        if less == max_depth - 1 && shown_to(c, root, n, max_depth).lines.len() <= BODY_MAX_LINES {
            max_depth
        } else {
            less
        }
    }
}

proof fn lemma_best_depth_stops(c: ShowAll, root: Seq<char>, n: RootNamesView, d: int, max_depth: int)
    requires
        0 <= d <= max_depth,
        best_depth(c, root, n, d) < d,
    ensures
        best_depth(c, root, n, max_depth) == best_depth(c, root, n, d),
    decreases max_depth,
{
    if d < max_depth {
        lemma_best_depth_stops(c, root, n, d, max_depth - 1);
        lemma_best_depth_bound(c, root, n, d);
    }
}

proof fn lemma_best_depth_bound(c: ShowAll, root: Seq<char>, n: RootNamesView, d: int)
    requires
        0 <= d,
    ensures
        0 <= best_depth(c, root, n, d) <= d,
    decreases d,
{
    if d > 0 {
        lemma_best_depth_bound(c, root, n, d - 1);
    }
}

/// Whether a depth is the best one, whatever is read yet.
pub open spec fn is_final_depth(
    c: ShowAll,
    root: Seq<char>,
    n: RootNamesView,
    max_depth: int,
    d: int,
) -> bool {
    forall|more: Map<Seq<char>, Seq<DirRowView>>| #[trigger]
        showall::extends(more, c.dirs) ==> best_depth(
            showall::with_dirs(c, more),
            root,
            n,
            max_depth,
        ) == d
}

/// What came of looking for the deepest preview.
pub enum BestPreview {
    Text(String),
    /// Not even one level fits.
    NoDepth,
    /// This directory must be read first.
    Need(String),
}

/// Makes the deepest preview that fits. Every directory that it shows was read, and
/// reading others would not make another depth the best.
pub fn render_best(preview_root: &str, c: &ShowAllInput, names: &RootNames) -> (r: BestPreview)
    requires
        c.wf(),
        names.wf(),
    ensures
        match r {
            BestPreview::Text(t) => {
                let d = best_depth(c@, preview_root@, names@, c.max_depth as int);
                let shown = shown_to(c@, preview_root@, names@, d);
                &&& d > 0
                &&& t@ == showall::text_of_lines(shown.lines)
                &&& showall::all_read(c.dirs@, shown.visits)
                &&& is_final_depth(c@, preview_root@, names@, c.max_depth as int, d)
            },
            BestPreview::NoDepth => {
                &&& best_depth(c@, preview_root@, names@, c.max_depth as int) == 0
                &&& is_final_depth(c@, preview_root@, names@, c.max_depth as int, 0)
            },
            BestPreview::Need(p) => !c.dirs@.contains_key(p@) && exists|d: int|
                1 <= d <= c.max_depth && (#[trigger] shown_to(
                    c@,
                    preview_root@,
                    names@,
                    d,
                )).visits.contains(p@),
        },
{
    let ghost model = c@;
    let ghost root = preview_root@;
    let mut best: Option<String> = None;
    let mut depth: usize = 0;
    while depth < c.max_depth
        invariant
            depth <= c.max_depth,
            c.wf(),
            names.wf(),
            model == c@,
            root == preview_root@,
            best_depth(model, root, names@, depth as int) == depth,
            is_final_depth(model, root, names@, depth as int, depth as int),
            match best {
                Some(t) => {
                    let shown = shown_to(model, root, names@, depth as int);
                    depth > 0 && t@ == showall::text_of_lines(shown.lines) && showall::all_read(
                        c.dirs@,
                        shown.visits,
                    )
                },
                None => depth == 0,
            },
        decreases c.max_depth - depth,
    {
        let at = ShowAllInput {
            tree: c.tree,
            sources: c.sources,
            include_unchanged: c.include_unchanged,
            max_depth: depth + 1,
            trunc: c.trunc,
            dirs: c.dirs,
        };
        assert(at@ == (ShowAll { max_depth: depth + 1, ..model }));
        let ghost full = shown_to(model, root, names@, depth + 1);
        match showall::render_showall_tree_to_string_with_cache(
            preview_root,
            &at,
            names,
            Some(BODY_MAX_LINES),
        ) {
            TreePreview::Text(t) => {
                proof {
                    assert forall|more: Map<Seq<char>, Seq<DirRowView>>| #[trigger]
                        showall::extends(more, model.dirs) implies best_depth(
                        showall::with_dirs(model, more),
                        root,
                        names@,
                        depth + 1,
                    ) == depth + 1 by {
                        let then = showall::with_dirs(model, more);
                        showall::law_what_is_read_is_final(
                            at@,
                            more,
                            showall::root_place(root),
                            showall::root_extras_of(names@),
                        );
                        assert(showall::with_dirs(at@, more) == (ShowAll {
                            max_depth: depth + 1,
                            ..then
                        }));
                    }
                }
                best = Some(t);
                depth = depth + 1;
            },
            TreePreview::TooLong => {
                proof {
                    assert(best_depth(model, root, names@, depth + 1) == depth);
                    lemma_best_depth_stops(model, root, names@, depth + 1, c.max_depth as int);
                    assert forall|more: Map<Seq<char>, Seq<DirRowView>>| #[trigger]
                        showall::extends(more, model.dirs) implies best_depth(
                        showall::with_dirs(model, more),
                        root,
                        names@,
                        c.max_depth as int,
                    ) == depth by {
                        let then = showall::with_dirs(model, more);
                        assert(showall::with_dirs(at@, more) == (ShowAll {
                            max_depth: depth + 1,
                            ..then
                        }));
                        assert(showall::extends(more, at@.dirs));
                        assert(best_depth(then, root, names@, depth + 1) == depth);
                        lemma_best_depth_stops(then, root, names@, depth + 1, c.max_depth as int);
                    }
                }
                return match best {
                    Some(t) => BestPreview::Text(t),
                    None => BestPreview::NoDepth,
                };
            },
            TreePreview::Need(p) => {
                assert(full.visits.contains(p@));
                return BestPreview::Need(p);
            },
        }
    }
    match best {
        Some(t) => BestPreview::Text(t),
        None => BestPreview::NoDepth,
    }
}

proof fn lemma_top_at(tops: Seq<TopView>, name: Seq<char>, facts: TopFacts, m: Seq<char>)
    ensures
        top_at(with_top(tops, name, facts), m) == if m == name {
            Some(facts)
        } else {
            top_at(tops, m)
        },
{
    let names = top_names(tops);
    let r = with_top(tops, name, facts);
    level::lemma_last_place(names, name);
    level::lemma_last_place(names, m);
    match level::last_place(names, name) {
        Some(i) => {
            assert(names[i] == tops[i].name);
            assert(top_names(r) == names);
        },
        None => {
            assert(top_names(r) == names.push(name));
            assert(names.push(name).drop_last() == names);
            assert(names.push(name).last() == name);
        },
    }
}

/// A state that is set for some names is the state of each of them, but for what is kept
/// as added; the other names are left as they are.
pub proof fn law_states_are_set(
    tops: Seq<TopView>,
    names: Seq<Seq<char>>,
    state: EntryState,
    keep_added: bool,
    m: Seq<char>,
)
    ensures
        ({
            let before = top_at(tops, m);
            let after = top_at(with_states(tops, names, state, keep_added), m);
            if names.contains(m) {
                &&& after is Some
                &&& (after->0).state == if keep_added && before is Some && (before->0).state
                    == EntryState::Added {
                    EntryState::Added
                } else {
                    state
                }
                &&& before is Some ==> (after->0).is_dir == (before->0).is_dir
            } else {
                after == before
            }
        }),
    decreases names.len(),
{
    if names.len() > 0 {
        let less = names.drop_last();
        let name = names.last();
        law_states_are_set(tops, less, state, keep_added, m);
        let rest = with_states(tops, less, state, keep_added);
        assert(names.contains(m) <==> less.contains(m) || m == name) by {
            if less.contains(m) {
                let i = choose|i: int| 0 <= i < less.len() && less[i] == m;
                assert(names[i] == m);
            }
            assert(names[names.len() - 1] == name);
            if names.contains(m) && m != name {
                let i = choose|i: int| 0 <= i < names.len() && names[i] == m;
                assert(less[i] == m);
            }
        }
        match top_at(rest, name) {
            Some(f) => {
                lemma_top_at(rest, name, TopFacts { state, ..f }, m);
            },
            None => {
                lemma_top_at(rest, name, TopFacts { state, is_dir: None }, m);
            },
        }
    }
}

/// At the root a removal goes over a replacement, that over a modification, unless the name
/// is added, and that over what the changes say.
pub proof fn law_root_states_are_ranked(items: Seq<ChangeItem>, n: RootNamesView, name: Seq<char>)
    ensures
        ({
            let r = top_at(changed_tops(items, n), name);
            &&& n.removed.contains(name) ==> r is Some && (r->0).state == EntryState::Removed
            &&& !n.removed.contains(name) && n.replaced.contains(name) ==> r is Some && (
            r->0).state == EntryState::Replaced
            &&& !n.removed.contains(name) && !n.replaced.contains(name) && n.added.contains(name)
                ==> r is Some && (r->0).state == EntryState::Added
            &&& !n.removed.contains(name) && !n.replaced.contains(name) && !n.added.contains(name)
                && n.modified.contains(name) && top_at(item_tops(items), name) is None ==> r
                is Some && (r->0).state == EntryState::Modified
            &&& !n.removed.contains(name) && !n.replaced.contains(name) && !n.added.contains(name)
                && !n.modified.contains(name) ==> r == top_at(item_tops(items), name)
        }),
{
    let a = with_states(item_tops(items), n.added, EntryState::Added, false);
    let b = with_states(a, n.modified, EntryState::Modified, true);
    let c = with_states(b, n.replaced, EntryState::Replaced, false);
    law_states_are_set(item_tops(items), n.added, EntryState::Added, false, name);
    law_states_are_set(a, n.modified, EntryState::Modified, true, name);
    law_states_are_set(b, n.replaced, EntryState::Replaced, false, name);
    law_states_are_set(c, n.removed, EntryState::Removed, false, name);
}

/// A name is added if one of its changes adds it; one with several changes that add nothing
/// is modified; and it is a directory once a change says so.
pub proof fn law_changes_of_a_name_add_up(
    before: Option<TopFacts>,
    state: EntryState,
    is_dir: bool,
)
    ensures
        ({
            let r = changed_top(before, state, is_dir);
            &&& before is None ==> r.state == state
            &&& before is Some ==> (r.state == EntryState::Added <==> state == EntryState::Added
                || (before->0).state == EntryState::Added)
            &&& before is Some && r.state != EntryState::Added ==> r.state == EntryState::Modified
            &&& r.is_dir == Some(true) <==> is_dir || (before is Some && (before->0).is_dir == Some(
                true,
            ))
            &&& r.is_dir is Some
        }),
{
}

/// Every change names something at the root: the first name of its path.
pub proof fn law_changes_name_the_root(items: Seq<ChangeItem>, i: int)
    requires
        0 <= i < items.len(),
        change_tree::item_path(items[i].rel@) is Some,
        (change_tree::item_path(items[i].rel@)->0).0[0].len() > 0,
    ensures
        top_at(item_tops(items), (change_tree::item_path(items[i].rel@)->0).0[0]) is Some,
    decreases items.len(),
{
    let rest = items.drop_last();
    let last = items.last();
    let name = (change_tree::item_path(items[i].rel@)->0).0[0];
    if i < items.len() - 1 {
        assert(rest[i] == items[i]);
        law_changes_name_the_root(rest, i);
    }
    match change_tree::item_path(last.rel@) {
        Some(p) => {
            if p.0[0].len() > 0 {
                lemma_top_at(
                    item_tops(rest),
                    p.0[0],
                    changed_top(
                        top_at(item_tops(rest), p.0[0]),
                        preview::state_of(last.kind),
                        p.1 || p.0.len() > 1,
                    ),
                    name,
                );
            }
        },
        None => {},
    }
}

/// A name is shown as added only where nothing stands, and as modified where something
/// does; every other state is shown as it is.
pub proof fn law_only_new_names_are_added(
    t: TopView,
    existing: Set<Seq<char>>,
    directories: Set<Seq<char>>,
)
    ensures
        ({
            let e = top_entry(t, existing, directories);
            &&& e.name == t.name
            &&& e.state == EntryState::Added <==> t.facts.state == EntryState::Added
                && !existing.contains(t.name)
            &&& t.facts.state == EntryState::Added && existing.contains(t.name) ==> e.state
                == EntryState::Modified
            &&& t.facts.state != EntryState::Added ==> e.state == t.facts.state
            &&& t.facts.is_dir is None ==> (e.is_dir <==> directories.contains(t.name))
            &&& t.facts.is_dir is Some ==> Some(e.is_dir) == t.facts.is_dir
        }),
{
}

/// What stands at the root and does not change is listed, as identical if the source has
/// the name and as untouched if not.
pub proof fn law_what_stays_is_listed(
    existing: Seq<Seq<char>>,
    tops: Seq<TopView>,
    source_top_entries: Set<Seq<char>>,
    directories: Set<Seq<char>>,
    i: int,
) -> (k: int)
    requires
        0 <= i < existing.len(),
        top_at(tops, existing[i]) is None,
    ensures
        ({
            let r = unchanged_entries(existing, tops, source_top_entries, directories);
            &&& 0 <= k < r.len()
            &&& r[k].name == existing[i]
            &&& r[k].state == EntryState::Identical <==> source_top_entries.contains(existing[i])
            &&& r[k].state == EntryState::Uncollided <==> !source_top_entries.contains(existing[i])
            &&& r[k].is_dir <==> directories.contains(existing[i])
        }),
    decreases existing.len(),
{
    let r = unchanged_entries(existing, tops, source_top_entries, directories);
    if i < existing.len() - 1 {
        law_what_stays_is_listed(
            existing.drop_last(),
            tops,
            source_top_entries,
            directories,
            i,
        )
    } else {
        r.len() - 1
    }
}

/// What is listed as staying stands at the root and does not change.
pub proof fn law_only_what_stays_is_listed(
    existing: Seq<Seq<char>>,
    tops: Seq<TopView>,
    source_top_entries: Set<Seq<char>>,
    directories: Set<Seq<char>>,
    k: int,
)
    requires
        0 <= k < unchanged_entries(existing, tops, source_top_entries, directories).len(),
    ensures
        ({
            let r = unchanged_entries(existing, tops, source_top_entries, directories);
            existing.contains(r[k].name) && top_at(tops, r[k].name) is None
        }),
    decreases existing.len(),
{
    let r = unchanged_entries(existing, tops, source_top_entries, directories);
    let rest = unchanged_entries(existing.drop_last(), tops, source_top_entries, directories);
    if k < rest.len() {
        law_only_what_stays_is_listed(
            existing.drop_last(),
            tops,
            source_top_entries,
            directories,
            k,
        );
        let i = choose|i: int|
            0 <= i < existing.len() - 1 && existing.drop_last()[i] == rest[k].name;
        assert(existing[i] == r[k].name);
    } else {
        assert(existing[existing.len() - 1] == r[k].name);
    }
}

/// Only a move removes a name, and only its source's; what is replaced in a directory that
/// is looked into is not shown as replaced; a backup is shown where nothing is replaced; and
/// no new name is shown where something of that name stands.
pub proof fn law_names_known_beforehand(f: ExtraFacts, name: Seq<char>)
    ensures
        extra_removed(f).contains(name) <==> f.is_move && (f.simple_rename_src matches Some(s)
            && text::trim_end_char(s@, '/') == name),
        extra_replaced(f).contains(name) <==> !f.preview_inside_target_dir && (f.overwrite_target
            matches Some(t) && paths::last_name(t@) == Some(name)),
        f.overwrite_target is None && (f.backup matches Some(b) && paths::last_name(b@) == Some(
            name,
        )) ==> extra_added(f).contains(name),
        (f.simple_rename_dst matches Some(s) && text::trim_end_char(s@, '/') == name)
            && !f.existing_same_name_target ==> extra_added(f).contains(name),
        f.existing_same_name_target && extra_added(f).contains(name) ==> f.overwrite_target is None
            && (f.backup matches Some(b) && paths::last_name(b@) == Some(name)),
        f.overwrite_target is Some && f.simple_rename_dst is None && f.rename_target_only is None
            ==> !extra_added(f).contains(name),
        (f.preview_inside_target_dir || f.rename_target_is_dir) && f.simple_rename_dst is None
            && f.backup is None ==> !extra_added(f).contains(name),
{
}

/// A new name that is given goes over a target; a target renames a file, or anything that
/// goes into a directory; and a name of slashes alone is none.
pub proof fn law_new_names_of_sources(
    kind: SrcObjKind,
    simple_rename_dst: Option<Seq<char>>,
    rename_target_only: Option<Seq<char>>,
    rename_target_is_dir: bool,
)
    ensures
        ({
            let r = renamed_top(kind, simple_rename_dst, rename_target_only, rename_target_is_dir);
            &&& r matches Some(n) ==> n.len() > 0 && n.last() != '/'
            &&& simple_rename_dst matches Some(s) ==> (s.len() > 0 && s.last() != '/' ==> r == Some(
                s,
            ))
            &&& simple_rename_dst is None && kind == SrcObjKind::File ==> (rename_target_only
                matches Some(s) ==> (s.len() > 0 && s.last() != '/' ==> r == Some(s)))
            &&& simple_rename_dst is None && rename_target_is_dir ==> (rename_target_only
                matches Some(s) ==> (s.len() > 0 && s.last() != '/' ==> r == Some(s)))
            &&& simple_rename_dst is None && kind != SrcObjKind::File && !rename_target_is_dir ==> r
                is None
            &&& simple_rename_dst is None && rename_target_only is None ==> r is None
        }),
{
    match simple_rename_dst {
        Some(s) => lemma_trimmed_end(s),
        None => {},
    }
    match rename_target_only {
        Some(s) => lemma_trimmed_end(s),
        None => {},
    }
}

proof fn lemma_trimmed_end(s: Seq<char>)
    ensures
        text::trim_end_char(s, '/').len() > 0 ==> text::trim_end_char(s, '/').last() != '/',
    decreases s.len(),
{
    if s.len() > 0 && s.last() == '/' {
        lemma_trimmed_end(s.drop_last());
    }
}

/// A directory whose contents alone are taken brings the names in it; anything else brings
/// one name, the new one or its own.
pub proof fn law_names_that_sources_bring(
    src: Seq<char>,
    kind: SrcObjKind,
    include_root: bool,
    renamed: Option<Seq<char>>,
    children: Set<Seq<char>>,
    name: Seq<char>,
)
    ensures
        ({
            let r = source_tops(src, kind, include_root, renamed, children);
            &&& kind == SrcObjKind::Dir && !include_root ==> (r.contains(name)
                <==> children.contains(name))
            &&& kind != SrcObjKind::Dir || include_root ==> (r.contains(name) <==> if renamed
                is Some {
                renamed == Some(name)
            } else {
                paths::last_name(src) == Some(name)
            })
        }),
{
}

/// The best depth fits, and so does every lesser one; the next one does not, unless no
/// greater depth is asked for.
pub proof fn law_the_best_depth_is_the_greatest(
    c: ShowAll,
    root: Seq<char>,
    n: RootNamesView,
    max_depth: int,
    d: int,
)
    requires
        max_depth >= 0,
    ensures
        ({
            let best = best_depth(c, root, n, max_depth);
            &&& 0 <= best <= max_depth
            &&& 1 <= d <= best ==> shown_to(c, root, n, d).lines.len() <= 25
            &&& best < max_depth ==> shown_to(c, root, n, best + 1).lines.len() > 25
        }),
    decreases max_depth,
{
    if max_depth > 0 {
        law_the_best_depth_is_the_greatest(c, root, n, max_depth - 1, d);
    }
}

/// The entries at the root are the names that change and, behind them, those that stay: none
/// stands in both.
pub proof fn law_entries_at_the_root(s: TopSource, i: int, j: int)
    requires
        0 <= i < changed_tops(s.items, s.names).len() <= j < top_entries(s).len(),
    ensures
        top_entries(s)[i].name == changed_tops(s.items, s.names)[i].name,
        s.existing.contains(top_entries(s)[j].name),
        top_entries(s)[i].name != top_entries(s)[j].name,
        !level::is_change(top_entries(s)[j].state),
{
    let tops = changed_tops(s.items, s.names);
    let stay = unchanged_entries(s.existing, tops, s.source_top_entries, s.names.directories);
    let k = j - tops.len();
    assert(top_entries(s)[j] == stay[k]);
    law_only_what_stays_is_listed(
        s.existing,
        tops,
        s.source_top_entries,
        s.names.directories,
        k,
    );
    lemma_stay_states(s.existing, tops, s.source_top_entries, s.names.directories, k);
    let name = tops[i].name;
    level::lemma_last_place(top_names(tops), name);
    assert(top_names(tops)[i] == name);
    assert(top_names(tops).contains(name));
    assert(top_at(tops, name) is Some);
}

proof fn lemma_stay_states(
    existing: Seq<Seq<char>>,
    tops: Seq<TopView>,
    source_top_entries: Set<Seq<char>>,
    directories: Set<Seq<char>>,
    k: int,
)
    requires
        0 <= k < unchanged_entries(existing, tops, source_top_entries, directories).len(),
    ensures
        !level::is_change(
            unchanged_entries(existing, tops, source_top_entries, directories)[k].state,
        ),
    decreases existing.len(),
{
    let rest = unchanged_entries(existing.drop_last(), tops, source_top_entries, directories);
    if k < rest.len() {
        lemma_stay_states(existing.drop_last(), tops, source_top_entries, directories, k);
    }
}

/// Where nothing is shown of the names at a root, that is said; and else each entry has its
/// line, in the order in which they are shown. What is hidden is told at the end.
pub proof fn law_lines_of_the_root(s: TopSource, include_unchanged: bool, max_top_entries: int)
    requires
        max_top_entries >= 0,
    ensures
        ({
            let shown = level::selected_of(top_entries(s), max_top_entries, include_unchanged);
            let hidden = preview::hidden_summary(
                level::hidden_of(top_entries(s), shown),
                !include_unchanged,
            );
            let lines = top_lines(s, include_unchanged, max_top_entries);
            &&& shown.len() == 0 ==> lines[0] == "(no new additions)"@
            &&& shown.len() > 0 ==> lines.len() >= shown.len()
            &&& hidden is Some ==> lines.last() == "... and "@ + hidden->0
            &&& shown.len() == 0 ==> lines.len() == 1 + (if hidden is Some { 1int } else { 0int })
            &&& shown.len() > 0 ==> lines.len() == showall::entry_units(shown).len() + (if hidden
                is Some { 1int } else { 0int })
        }),
{
    let shown = level::selected_of(top_entries(s), max_top_entries, include_unchanged);
    let rows = showall::entry_units(shown);
    showall::law_rows_are_of_entries(shown);
    if shown.len() > 0 {
        showall::law_each_row_has_a_line(rows, rows.len() as int, 0);
    }
}

} // verus!
