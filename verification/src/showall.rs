//! A preview of a directory tree, level by level.

use crate::change_tree::ChangeTree;
use crate::level;
use crate::level::{DirRow, DirRowView, EntryView, Extra, ExtraView, LevelEntry, LevelInput, LevelSource, RowKind, TreeView};
use crate::paths;
use crate::preview;
use crate::preview::EntryState;
use crate::table;
use crate::table::NameSet;
use crate::text;
use rustc_hash::FxHashMap;
use vstd::prelude::*;

verus! {

/// The directories that have been read.
pub struct DirCache {
    listings: Vec<Vec<DirRow>>,
    positions: FxHashMap<String, usize>,
}

impl View for DirCache {
    type V = Map<Seq<char>, Seq<DirRowView>>;

    closed spec fn view(&self) -> Map<Seq<char>, Seq<DirRowView>> {
        Map::new(
            |k: Seq<char>| table::names_in(self.positions).contains_key(k),
            |k: Seq<char>|
                level::dir_rows(self.listings@[table::names_in(self.positions)[k] as int]@),
        )
    }
}

impl DirCache {
    pub closed spec fn wf(&self) -> bool {
        forall|k: Seq<char>| #[trigger]
            table::names_in(self.positions).contains_key(k) ==> table::names_in(self.positions)[k]
                < self.listings@.len()
    }

    /// No directory.
    pub fn new() -> (r: DirCache)
        ensures
            r.wf(),
            r@ == Map::<Seq<char>, Seq<DirRowView>>::empty(),
    {
        let r = DirCache { listings: Vec::new(), positions: table::new_names() };
        assert(r@ == Map::<Seq<char>, Seq<DirRowView>>::empty());
        r
    }

    /// What stands in a directory, if it has been read.
    pub fn get(&self, path: &str) -> (r: Option<&Vec<DirRow>>)
        requires
            self.wf(),
        ensures
            match r {
                Some(rows) => self@.contains_key(path@) && level::dir_rows(rows@) == self@[path@],
                None => !self@.contains_key(path@),
            },
    {
        match table::name_position(&self.positions, path) {
            Some(i) => Some(&self.listings[i]),
            None => None,
        }
    }

    /// Keeps what stands in a directory.
    pub fn put(&mut self, path: String, rows: Vec<DirRow>)
        requires
            old(self).wf(),
        ensures
            final(self).wf(),
            final(self)@ == old(self)@.insert(path@, level::dir_rows(rows@)),
    {
        let ghost before = *self;
        let at: usize = self.listings.len();
        table::put_name(&mut self.positions, path, at);
        self.listings.push(rows);
        assert forall|k: Seq<char>| before@.contains_key(k) && k != path@ implies self@[k]
            == #[trigger] before@[k] by {
            assert(table::names_in(before.positions).contains_key(k));
        }
        assert(self@ == before@.insert(path@, level::dir_rows(rows@)));
    }
}

/// What a preview shows, and how much of it.
pub struct ShowAll {
    pub tree: TreeView,
    pub sources: Set<Seq<char>>,
    pub include_unchanged: bool,
    pub max_depth: int,
    pub trunc: int,
    pub dirs: Map<Seq<char>, Seq<DirRowView>>,
}

/// A directory of a preview.
pub struct Place {
    pub path: Seq<char>,
    pub key: Seq<char>,
    pub rel: Seq<char>,
    /// What stands before each of its lines.
    pub prefix: Seq<char>,
    pub depth: int,
}

/// The lines of a preview, and the directories that it goes through.
pub struct Shown {
    pub lines: Seq<Seq<char>>,
    pub visits: Seq<Seq<char>>,
}

/// A line of a level: a row of an entry, or the summary of what is hidden.
pub enum UnitView {
    Row(EntryView, RowKind),
    Rest(Seq<char>),
}

/// The rows of the entries that are shown.
pub open spec fn entry_units(shown: Seq<EntryView>) -> Seq<UnitView>
    decreases shown.len(),
{
    if shown.len() == 0 {
        Seq::empty()
    } else {
        let rest = entry_units(shown.drop_last());
        let e = shown.last();
        if e.state == EntryState::Replaced {
            rest.push(UnitView::Row(e, RowKind::ReplacedOld)).push(
                UnitView::Row(e, RowKind::ReplacedNew),
            )
        } else {
            rest.push(UnitView::Row(e, RowKind::Single))
        }
    }
}

/// What stands in a directory. Nothing, where it has not been read.
pub open spec fn rows_at(dirs: Map<Seq<char>, Seq<DirRowView>>, path: Seq<char>) -> Seq<DirRowView> {
    if dirs.contains_key(path) {
        dirs[path]
    } else {
        Seq::empty()
    }
}

/// The lines of a level without what lies below.
pub open spec fn units_of(c: ShowAll, at: Place, extra: Seq<ExtraView>) -> Seq<UnitView> {
    let all = level::level_entries(
        LevelSource {
            tree: c.tree,
            key: at.key,
            rows: rows_at(c.dirs, at.path),
            extra,
            sources: c.sources,
            rel: at.rel,
        },
    );
    let shown = level::selected_of(all, c.trunc, c.include_unchanged);
    let rows = entry_units(shown);
    match preview::hidden_summary(level::hidden_of(all, shown), !c.include_unchanged) {
        Some(s) => rows.push(UnitView::Rest(s)),
        None => rows,
    }
}

/// Whether what lies below a row is shown too.
pub open spec fn expands(c: ShowAll, at: Place, u: UnitView) -> bool {
    match u {
        UnitView::Row(e, kind) => kind == RowKind::Single && e.is_dir && at.depth + 1 < c.max_depth
            && e.state != EntryState::Removed,
        UnitView::Rest(_) => false,
    }
}

/// The place of an entry.
pub open spec fn place_below(at: Place, name: Seq<char>, last: bool) -> Place {
    Place {
        path: paths::joined_path(at.path, name),
        key: level::child_key(at.key, name),
        rel: preview::joined_rel(at.rel, name),
        prefix: at.prefix + (if last {
            "    "@
        } else {
            "│   "@
        }),
        depth: at.depth + 1,
    }
}

/// A line of a level.
pub open spec fn unit_line(at: Place, u: UnitView, last: bool) -> Seq<char> {
    at.prefix + (if last {
        "└── "@
    } else {
        "├── "@
    }) + (match u {
        UnitView::Row(e, kind) => level::entry_text(e, kind),
        UnitView::Rest(s) => "... and "@ + s,
    })
}

/// The first `n` lines of a level with what lies below them.
pub open spec fn shown_units(c: ShowAll, at: Place, units: Seq<UnitView>, n: int) -> Shown
    decreases c.max_depth - at.depth, 0int, n,
{
    if n <= 0 {
        Shown { lines: Seq::empty(), visits: Seq::empty() }
    } else {
        let before = shown_units(c, at, units, n - 1);
        let u = units[n - 1];
        let last = n == units.len();
        let lines = before.lines.push(unit_line(at, u, last));
        if expands(c, at, u) {
            let below = shown_level(c, place_below(at, u->Row_0.name, last), Seq::empty());
            Shown { lines: lines + below.lines, visits: before.visits + below.visits }
        } else {
            Shown { lines, visits: before.visits }
        }
    }
}

/// A level with all that lies below it.
pub open spec fn shown_level(c: ShowAll, at: Place, extra: Seq<ExtraView>) -> Shown
    decreases c.max_depth - at.depth, 1int, 0int,
{
    let units = units_of(c, at, extra);
    let s = shown_units(c, at, units, units.len() as int);
    Shown { lines: s.lines, visits: seq![at.path] + s.visits }
}

/// What a preview is made from.
pub struct ShowAllInput<'a> {
    pub tree: &'a ChangeTree,
    pub sources: &'a NameSet,
    pub include_unchanged: bool,
    pub max_depth: usize,
    pub trunc: usize,
    pub dirs: &'a DirCache,
}

impl<'a> View for ShowAllInput<'a> {
    type V = ShowAll;

    open spec fn view(&self) -> ShowAll {
        ShowAll {
            tree: level::tree_view(*self.tree),
            sources: self.sources@,
            include_unchanged: self.include_unchanged,
            max_depth: self.max_depth as int,
            trunc: self.trunc as int,
            dirs: self.dirs@,
        }
    }
}

impl<'a> ShowAllInput<'a> {
    pub open spec fn wf(&self) -> bool {
        self.tree.wf() && self.sources.wf() && self.dirs.wf()
    }
}

/// A directory of a preview.
pub struct Spot {
    pub path: String,
    pub key: String,
    pub rel: String,
    pub prefix: String,
    pub depth: usize,
}

impl View for Spot {
    type V = Place;

    open spec fn view(&self) -> Place {
        Place {
            path: self.path@,
            key: self.key@,
            rel: self.rel@,
            prefix: self.prefix@,
            depth: self.depth as int,
        }
    }
}

/// How the showing of a level ended.
pub enum LevelEnd {
    Complete,
    /// There are more lines than allowed.
    TooLong,
    /// This directory has not been read.
    Need(String),
}

/// The ending of a level: complete if all the directories it goes through have
/// been read and the lines are within the limit.
pub open spec fn is_level_end(
    r: LevelEnd,
    full: Shown,
    dirs: Map<Seq<char>, Seq<DirRowView>>,
    start: Seq<Seq<char>>,
    done: Seq<Seq<char>>,
    max_lines: Option<usize>,
) -> bool {
    match r {
        LevelEnd::Complete => {
            &&& done == start + full.lines
            &&& all_read(dirs, full.visits)
            &&& within(done.len() as int, max_lines)
        },
        LevelEnd::TooLong => !within((start + full.lines).len() as int, max_lines),
        LevelEnd::Need(p) => full.visits.contains(p@) && !dirs.contains_key(p@),
    }
}

/// Whether a number of lines is allowed.
pub open spec fn within(n: int, max_lines: Option<usize>) -> bool {
    match max_lines {
        Some(m) => n <= m,
        None => true,
    }
}

/// Whether all of some directories have been read.
pub open spec fn all_read(dirs: Map<Seq<char>, Seq<DirRowView>>, visits: Seq<Seq<char>>) -> bool {
    forall|i: int| 0 <= i < visits.len() ==> dirs.contains_key(#[trigger] visits[i])
}

/// Whether more directories have been read, and what was read before still holds.
pub open spec fn extends(
    more: Map<Seq<char>, Seq<DirRowView>>,
    dirs: Map<Seq<char>, Seq<DirRowView>>,
) -> bool {
    forall|p: Seq<char>| #[trigger]
        dirs.contains_key(p) ==> more.contains_key(p) && more[p] == dirs[p]
}

/// A preview with other directories read.
pub open spec fn with_dirs(c: ShowAll, dirs: Map<Seq<char>, Seq<DirRowView>>) -> ShowAll {
    ShowAll { dirs, ..c }
}

/// Whether a level takes more lines than allowed behind `before` others, whatever is
/// read yet.
pub open spec fn stays_too_long(
    c: ShowAll,
    at: Place,
    extra: Seq<ExtraView>,
    before: int,
    max_lines: Option<usize>,
) -> bool {
    forall|more: Map<Seq<char>, Seq<DirRowView>>| #[trigger]
        extends(more, c.dirs) ==> !within(
            before + shown_level(with_dirs(c, more), at, extra).lines.len(),
            max_lines,
        )
}

proof fn lemma_units_are_final(
    c: ShowAll,
    more: Map<Seq<char>, Seq<DirRowView>>,
    at: Place,
    units: Seq<UnitView>,
    n: int,
)
    requires
        extends(more, c.dirs),
        all_read(c.dirs, shown_units(c, at, units, n).visits),
    ensures
        shown_units(with_dirs(c, more), at, units, n) == shown_units(c, at, units, n),
    decreases c.max_depth - at.depth, 0int, n,
{
    if n > 0 {
        let all = shown_units(c, at, units, n);
        let before = shown_units(c, at, units, n - 1);
        let u = units[n - 1];
        let last = n == units.len();
        assert forall|i: int| 0 <= i < before.visits.len() implies c.dirs.contains_key(
            #[trigger] before.visits[i],
        ) by {
            assert(all.visits[i] == before.visits[i]);
        }
        lemma_units_are_final(c, more, at, units, n - 1);
        if expands(c, at, u) {
            let place = place_below(at, u->Row_0.name, last);
            let below = shown_level(c, place, Seq::empty());
            assert forall|i: int| 0 <= i < below.visits.len() implies c.dirs.contains_key(
                #[trigger] below.visits[i],
            ) by {
                assert(all.visits[before.visits.len() + i] == below.visits[i]);
            }
            law_what_is_read_is_final(c, more, place, Seq::empty());
        }
    }
}

/// Once all the directories that a level goes through have been read, nothing that
/// is read further changes it.
pub proof fn law_what_is_read_is_final(
    c: ShowAll,
    more: Map<Seq<char>, Seq<DirRowView>>,
    at: Place,
    extra: Seq<ExtraView>,
)
    requires
        extends(more, c.dirs),
        all_read(c.dirs, shown_level(c, at, extra).visits),
    ensures
        shown_level(with_dirs(c, more), at, extra) == shown_level(c, at, extra),
    decreases c.max_depth - at.depth, 1int, 0int,
{
    let units = units_of(c, at, extra);
    let s = shown_units(c, at, units, units.len() as int);
    let all = shown_level(c, at, extra);
    assert(all.visits[0] == at.path);
    assert forall|i: int| 0 <= i < s.visits.len() implies c.dirs.contains_key(
        #[trigger] s.visits[i],
    ) by {
        assert(all.visits[i + 1] == s.visits[i]);
    }
    assert(units_of(with_dirs(c, more), at, extra) == units);
    lemma_units_are_final(c, more, at, units, units.len() as int);
}

proof fn lemma_units_grow(c: ShowAll, at: Place, units: Seq<UnitView>, n: int, m: int)
    requires
        0 <= n <= m,
    ensures
        shown_units(c, at, units, n).lines.len() <= shown_units(c, at, units, m).lines.len(),
        shown_units(c, at, units, n).lines.len() >= n,
        shown_units(c, at, units, m).lines.len() - shown_units(c, at, units, n).lines.len() >= m - n,
        forall|p: Seq<char>|
            shown_units(c, at, units, n).visits.contains(p) ==> #[trigger] shown_units(
                c,
                at,
                units,
                m,
            ).visits.contains(p),
    decreases m,
{
    if m > 0 {
        let a = shown_units(c, at, units, m - 1);
        let b = shown_units(c, at, units, m);
        if n < m {
            lemma_units_grow(c, at, units, n, m - 1);
        } else {
            lemma_units_grow(c, at, units, n - 1, m - 1);
        }
        assert forall|p: Seq<char>| a.visits.contains(p) implies #[trigger] b.visits.contains(p) by {
            let i = choose|i: int| 0 <= i < a.visits.len() && a.visits[i] == p;
            assert(b.visits[i] == p);
        }
    }
}

proof fn lemma_more_lines_follow(
    c: ShowAll,
    more: Map<Seq<char>, Seq<DirRowView>>,
    at: Place,
    extra: Seq<ExtraView>,
    i: int,
)
    requires
        extends(more, c.dirs),
        c.dirs.contains_key(at.path),
        0 <= i < units_of(c, at, extra).len(),
        all_read(c.dirs, shown_units(c, at, units_of(c, at, extra), i).visits),
    ensures
        ({
            let units = units_of(c, at, extra);
            let so_far = shown_units(c, at, units, i).lines.len() + 1;
            let place = place_below(at, units[i]->Row_0.name, i + 1 == units.len());
            let next = shown_level(with_dirs(c, more), place, Seq::empty());
            let all = shown_level(with_dirs(c, more), at, extra);
            &&& all.lines.len() >= so_far
            &&& expands(c, at, units[i]) ==> all.lines.len() >= so_far + next.lines.len()
        }),
{
    let units = units_of(c, at, extra);
    let then = with_dirs(c, more);
    assert(units_of(then, at, extra) == units);
    lemma_units_are_final(c, more, at, units, i);
    lemma_units_grow(then, at, units, i, units.len() as int);
    lemma_units_grow(then, at, units, i + 1, units.len() as int);
}

proof fn lemma_stays_too_long(
    c: ShowAll,
    at: Place,
    extra: Seq<ExtraView>,
    i: int,
    start: int,
    max_lines: Option<usize>,
)
    requires
        c.dirs.contains_key(at.path),
        0 <= i < units_of(c, at, extra).len(),
        all_read(c.dirs, shown_units(c, at, units_of(c, at, extra), i).visits),
        ({
            let units = units_of(c, at, extra);
            let so_far = start + shown_units(c, at, units, i).lines.len() + 1;
            let place = place_below(at, units[i]->Row_0.name, i + 1 == units.len());
            ||| !within(so_far, max_lines)
            ||| expands(c, at, units[i]) && stays_too_long(
                c,
                place,
                Seq::empty(),
                so_far,
                max_lines,
            )
        }),
    ensures
        stays_too_long(c, at, extra, start, max_lines),
{
    assert forall|more: Map<Seq<char>, Seq<DirRowView>>| #[trigger]
        extends(more, c.dirs) implies !within(
        start + shown_level(with_dirs(c, more), at, extra).lines.len(),
        max_lines,
    ) by {
        lemma_more_lines_follow(c, more, at, extra, i);
    }
}

/// A line of a level.
enum Unit {
    Row(usize, RowKind),
    Rest(String),
}

spec fn unit_view(u: Unit, selected: Seq<LevelEntry>) -> UnitView {
    match u {
        Unit::Row(i, kind) => UnitView::Row(selected[i as int]@, kind),
        Unit::Rest(s) => UnitView::Rest(s@),
    }
}

spec fn unit_views(units: Seq<Unit>, selected: Seq<LevelEntry>) -> Seq<UnitView> {
    units.map_values(|u: Unit| unit_view(u, selected))
}

spec fn in_bounds(units: Seq<Unit>, n: int) -> bool {
    forall|k: int|
        0 <= k < units.len() ==> match #[trigger] units[k] {
            Unit::Row(i, _) => i < n,
            Unit::Rest(_) => true,
        }
}

fn row_units(selected: &Vec<LevelEntry>) -> (r: Vec<Unit>)
    ensures
        unit_views(r@, selected@) == entry_units(level::entries(selected@)),
        in_bounds(r@, selected@.len() as int),
{
    let ghost shown = level::entries(selected@);
    let mut units: Vec<Unit> = Vec::new();
    let mut i: usize = 0;
    assert(shown.take(0) == Seq::<EntryView>::empty());
    assert(unit_views(units@, selected@) == Seq::<UnitView>::empty());
    while i < selected.len()
        invariant
            i <= selected@.len(),
            shown == level::entries(selected@),
            unit_views(units@, selected@) == entry_units(shown.take(i as int)),
            in_bounds(units@, selected@.len() as int),
        decreases selected@.len() - i,
    {
        let ghost step = shown.take(i + 1);
        let ghost before = units@;
        assert(step.drop_last() == shown.take(i as int));
        assert(step.last() == selected@[i as int]@);
        if selected[i].state == EntryState::Replaced {
            units.push(Unit::Row(i, RowKind::ReplacedOld));
            units.push(Unit::Row(i, RowKind::ReplacedNew));
            assert(unit_views(units@, selected@) == unit_views(before, selected@).push(
                UnitView::Row(step.last(), RowKind::ReplacedOld),
            ).push(UnitView::Row(step.last(), RowKind::ReplacedNew)));
        } else {
            units.push(Unit::Row(i, RowKind::Single));
            assert(unit_views(units@, selected@) == unit_views(before, selected@).push(
                UnitView::Row(step.last(), RowKind::Single),
            ));
        }
        i = i + 1;
    }
    assert(shown.take(shown.len() as int) == shown);
    units
}

struct LevelUnits {
    selected: Vec<LevelEntry>,
    units: Vec<Unit>,
}

fn list_units(c: &ShowAllInput, at: &Spot, rows: &Vec<DirRow>, extra: &Vec<Extra>) -> (r: LevelUnits)
    requires
        c.wf(),
        level::dir_rows(rows@) == rows_at(c.dirs@, at.path@),
    ensures
        unit_views(r.units@, r.selected@) == units_of(c@, at@, level::extras(extra@)),
        in_bounds(r.units@, r.selected@.len() as int),
{
    let input = LevelInput {
        tree: c.tree,
        key: at.key.as_str(),
        rows,
        extra,
        sources: c.sources,
        rel: at.rel.as_str(),
    };
    let all = level::collect_level_entries(input);
    let picked = level::select_level_entries(&all, c.trunc, c.include_unchanged);
    let selected = picked.selected;
    let hidden = picked.hidden;
    assert(all@.len() == all.len());
    let mut units = row_units(&selected);
    let ghost plain = units@;
    let rest = preview::format_hidden_top_summary(
        hidden.new_count,
        hidden.modified_count,
        hidden.identical_count,
        hidden.uncollided_count,
        hidden.deleted_count,
        !c.include_unchanged,
    );
    if let Some(s) = rest {
        units.push(Unit::Rest(s));
        assert(unit_views(units@, selected@) == unit_views(plain, selected@).push(
            UnitView::Rest(s@),
        ));
    }
    LevelUnits { selected, units }
}

fn write_unit(at: &Spot, u: &Unit, selected: &Vec<LevelEntry>, last: bool) -> (r: String)
    requires
        match *u {
            Unit::Row(i, _) => i < selected@.len(),
            Unit::Rest(_) => true,
        },
    ensures
        r@ == unit_line(at@, unit_view(*u, selected@), last),
{
    let mut line = text::copy(at.prefix.as_str());
    line.push_str(
        if last {
            "└── "
        } else {
            "├── "
        },
    );
    match u {
        Unit::Row(i, kind) => {
            let t = level::format_entry(&selected[*i], *kind);
            line.push_str(t.as_str());
        },
        Unit::Rest(s) => {
            let mut t = text::copy("... and ");
            t.push_str(s.as_str());
            line.push_str(t.as_str());
        },
    }
    line
}

/// The lines of the rows of a level on its own.
pub open spec fn row_lines(units: Seq<UnitView>, n: int) -> Seq<Seq<char>>
    decreases n,
{
    if n <= 0 {
        Seq::empty()
    } else {
        row_lines(units, n - 1).push(
            unit_line(root_place(Seq::empty()), units[n - 1], n == units.len()),
        )
    }
}

/// Writes the rows of the entries that are shown.
pub fn write_rows(selected: &Vec<LevelEntry>, out: &mut Vec<String>)
    ensures
        ({
            let units = entry_units(level::entries(selected@));
            text::texts(final(out)@) == text::texts(old(out)@) + row_lines(
                units,
                units.len() as int,
            )
        }),
{
    let units = row_units(selected);
    let ghost views = entry_units(level::entries(selected@));
    let ghost start = text::texts(out@);
    let at = Spot {
        path: String::new(),
        key: String::new(),
        rel: String::new(),
        prefix: String::new(),
        depth: 0,
    };
    assert(at@ == root_place(Seq::empty()));
    let mut i: usize = 0;
    assert(start + row_lines(views, 0) == start);
    while i < units.len()
        invariant
            i <= units@.len(),
            views == unit_views(units@, selected@),
            in_bounds(units@, selected@.len() as int),
            at@ == root_place(Seq::empty()),
            text::texts(out@) == start + row_lines(views, i as int),
        decreases units@.len() - i,
    {
        assert(views[i as int] == unit_view(units@[i as int], selected@));
        let line = write_unit(&at, &units[i], selected, i + 1 == units.len());
        let ghost before = text::texts(out@);
        out.push(line);
        assert(text::texts(out@) == before.push(line@));
        assert(text::texts(out@) == start + row_lines(views, i + 1));
        i = i + 1;
    }
}

fn spot_below(at: &Spot, name: &str, last: bool) -> (r: Spot)
    requires
        at.depth < usize::MAX,
    ensures
        r@ == place_below(at@, name@, last),
{
    let mut key = text::copy(at.key.as_str());
    key.push('/');
    key.push_str(name);
    let mut prefix = text::copy(at.prefix.as_str());
    prefix.push_str(
        if last {
            "    "
        } else {
            "│   "
        },
    );
    Spot {
        path: paths::join_path(at.path.as_str(), name),
        key,
        rel: preview::join_rel(at.rel.as_str(), name),
        prefix,
        depth: at.depth + 1,
    }
}

/// Shows a level with all that lies below it, up to a number of lines.
pub fn render_showall_level(
    c: &ShowAllInput,
    at: &Spot,
    extra: &Vec<Extra>,
    out: &mut Vec<String>,
    max_lines: Option<usize>,
) -> (r: LevelEnd)
    requires
        c.wf(),
        within(old(out)@.len() as int, max_lines),
    ensures
        is_level_end(
            r,
            shown_level(c@, at@, level::extras(extra@)),
            c.dirs@,
            text::texts(old(out)@),
            text::texts(final(out)@),
            max_lines,
        ),
        r is TooLong ==> stays_too_long(
            c@,
            at@,
            level::extras(extra@),
            old(out)@.len() as int,
            max_lines,
        ),
    decreases c.max_depth - at.depth,
{
    let ghost start = text::texts(out@);
    let ghost model = c@;
    let ghost place = at@;
    let ghost full = shown_level(model, place, level::extras(extra@));
    let rows = match c.dirs.get(at.path.as_str()) {
        Some(rows) => rows,
        None => {
            assert(full.visits[0] == at.path@);
            return LevelEnd::Need(at.path.clone());
        },
    };
    let level = list_units(c, at, rows, extra);
    let ghost units = units_of(model, place, level::extras(extra@));
    let ghost whole = shown_units(model, place, units, units.len() as int);
    let mut i: usize = 0;
    assert(start + shown_units(model, place, units, 0).lines == start);
    while i < level.units.len()
        invariant
            i <= level.units@.len(),
            c.wf(),
            model == c@,
            place == at@,
            start == text::texts(old(out)@),
            full == shown_level(model, place, level::extras(extra@)),
            units == units_of(model, place, level::extras(extra@)),
            units == unit_views(level.units@, level.selected@),
            in_bounds(level.units@, level.selected@.len() as int),
            whole == shown_units(model, place, units, units.len() as int),
            model.dirs.contains_key(place.path),
            text::texts(out@) == start + shown_units(model, place, units, i as int).lines,
            all_read(model.dirs, shown_units(model, place, units, i as int).visits),
            within(out@.len() as int, max_lines),
        decreases level.units@.len() - i,
    {
        let ghost before = shown_units(model, place, units, i as int);
        let ghost step = shown_units(model, place, units, i + 1);
        let ghost u = units[i as int];
        assert(u == unit_view(level.units@[i as int], level.selected@));
        proof {
            lemma_units_grow(model, place, units, i as int, units.len() as int);
            lemma_units_grow(model, place, units, i + 1, units.len() as int);
        }
        let last = i + 1 == level.units.len();
        if let Some(m) = max_lines {
            if out.len() >= m {
                assert(text::texts(out@).len() == out@.len());
                proof {
                    lemma_stays_too_long(
                        model,
                        place,
                        level::extras(extra@),
                        i as int,
                        start.len() as int,
                        max_lines,
                    );
                }
                return LevelEnd::TooLong;
            }
        }
        let line = write_unit(at, &level.units[i], &level.selected, last);
        let ghost lead = text::texts(out@);
        out.push(line);
        let ghost here = text::texts(out@);
        assert(here == lead.push(line@));
        assert(here == start + before.lines.push(line@));
        if let Unit::Row(k, RowKind::Single) = &level.units[i] {
            let entry = &level.selected[*k];
            if entry.is_dir && at.depth < c.max_depth && at.depth + 1 < c.max_depth && entry.state
                != EntryState::Removed {
                let below = spot_below(at, entry.name.as_str(), last);
                let none: Vec<Extra> = Vec::new();
                assert(level::extras(none@) == Seq::<ExtraView>::empty());
                assert(expands(model, place, u));
                let ghost sub = shown_level(model, below@, Seq::empty());
                assert(step.visits == before.visits + sub.visits);
                assert(step.lines == before.lines.push(line@) + sub.lines);
                match render_showall_level(c, &below, &none, out, max_lines) {
                    LevelEnd::Complete => {
                        assert(text::texts(out@) == start + step.lines);
                    },
                    LevelEnd::TooLong => {
                        assert(here.len() == start.len() + before.lines.len() + 1);
                        proof {
                            lemma_stays_too_long(
                                model,
                                place,
                                level::extras(extra@),
                                i as int,
                                start.len() as int,
                                max_lines,
                            );
                        }
                        return LevelEnd::TooLong;
                    },
                    LevelEnd::Need(p) => {
                        proof {
                            let j = choose|j: int|
                                0 <= j < sub.visits.len() && sub.visits[j] == p@;
                            assert(step.visits[before.visits.len() + j] == p@);
                            assert(step.visits.contains(p@));
                            assert(whole.visits.contains(p@));
                            let q = choose|q: int|
                                0 <= q < whole.visits.len() && whole.visits[q] == p@;
                            assert(full.visits[q + 1] == p@);
                        }
                        return LevelEnd::Need(p);
                    },
                }
                i = i + 1;
                continue;
            }
        }
        assert(!expands(model, place, u));
        assert(text::texts(out@) == start + step.lines);
        i = i + 1;
    }
    proof {
        assert(whole == shown_units(model, place, units, i as int));
        assert(text::texts(out@).len() == out@.len());
        assert forall|k: int| 0 <= k < full.visits.len() implies model.dirs.contains_key(
            #[trigger] full.visits[k],
        ) by {
            if k > 0 {
                assert(full.visits[k] == whole.visits[k - 1]);
            }
        }
    }
    LevelEnd::Complete
}

/// The state of a name at the root that is known beforehand: removed over
/// replaced over added over modified.
pub open spec fn root_state(
    added: Set<Seq<char>>,
    replaced: Set<Seq<char>>,
    removed: Set<Seq<char>>,
    name: Seq<char>,
) -> EntryState {
    if removed.contains(name) {
        EntryState::Removed
    } else if replaced.contains(name) {
        EntryState::Replaced
    } else if added.contains(name) {
        EntryState::Added
    } else {
        EntryState::Modified
    }
}

/// The names at the root whose state is known beforehand.
pub open spec fn root_extras_of(n: RootNamesView) -> Seq<ExtraView> {
    level::with_new_names(
        level::with_new_names(level::with_new_names(n.added, n.modified), n.replaced),
        n.removed,
    ).map_values(
        |name: Seq<char>|
            ExtraView {
                name,
                state: root_state(
                    n.added.to_set(),
                    n.replaced.to_set(),
                    n.removed.to_set(),
                    name,
                ),
                is_dir: n.directories.contains(name),
            },
    )
}

pub struct RootNamesView {
    pub added: Seq<Seq<char>>,
    pub modified: Seq<Seq<char>>,
    pub replaced: Seq<Seq<char>>,
    pub removed: Seq<Seq<char>>,
    pub directories: Set<Seq<char>>,
}

/// Names at the root whose state is known beforehand, and which of them are
/// directories now.
pub struct RootNames {
    pub added: NameSet,
    pub modified: NameSet,
    pub replaced: NameSet,
    pub removed: NameSet,
    pub directories: NameSet,
}

impl View for RootNames {
    type V = RootNamesView;

    open spec fn view(&self) -> RootNamesView {
        RootNamesView {
            added: self.added.listed(),
            modified: self.modified.listed(),
            replaced: self.replaced.listed(),
            removed: self.removed.listed(),
            directories: self.directories@,
        }
    }
}

impl RootNames {
    pub open spec fn wf(&self) -> bool {
        self.added.wf() && self.modified.wf() && self.replaced.wf() && self.removed.wf()
    }
}

fn add_names(all: &mut NameSet, more: &NameSet)
    requires
        old(all).wf(),
        more.wf(),
    ensures
        final(all).wf(),
        final(all).listed() == level::with_new_names(old(all).listed(), more.listed()),
{
    let ghost start = all.listed();
    let ghost names = more.listed();
    let n: usize = more.len();
    let mut i: usize = 0;
    assert(names.take(0) == Seq::<Seq<char>>::empty());
    while i < n
        invariant
            i <= n,
            n == names.len(),
            names == more.listed(),
            all.wf(),
            all.listed() == level::with_new_names(start, names.take(i as int)),
        decreases n - i,
    {
        assert(names.take(i + 1).drop_last() == names.take(i as int));
        proof {
            all.lemma_listed();
            assert(all.listed().to_set().contains(names[i as int]) == all.listed().contains(
                names[i as int],
            ));
        }
        all.insert(text::copy(more.name(i)));
        i = i + 1;
    }
    assert(names.take(n as int) == names);
}

proof fn lemma_new_names_from_empty(names: Seq<Seq<char>>)
    requires
        names.no_duplicates(),
    ensures
        level::with_new_names(Seq::empty(), names) == names,
    decreases names.len(),
{
    if names.len() > 0 {
        let rest = names.drop_last();
        lemma_new_names_from_empty(rest);
        if rest.contains(names.last()) {
            let i = choose|i: int| 0 <= i < rest.len() && rest[i] == names.last();
            assert(names[i] == names[names.len() - 1]);
        }
        assert(rest.push(names.last()) == names);
    }
}

/// Lists the names at the root whose state is known beforehand.
pub fn root_extras(n: &RootNames) -> (r: Vec<Extra>)
    requires
        n.wf(),
    ensures
        level::extras(r@) == root_extras_of(n@),
{
    let mut all = NameSet::new();
    add_names(&mut all, &n.added);
    proof {
        n.added.lemma_listed();
        n.replaced.lemma_listed();
        n.removed.lemma_listed();
        lemma_new_names_from_empty(n.added.listed());
    }
    add_names(&mut all, &n.modified);
    add_names(&mut all, &n.replaced);
    add_names(&mut all, &n.removed);
    let ghost want = root_extras_of(n@);
    let ghost names = all.listed();
    let count: usize = all.len();
    let mut out: Vec<Extra> = Vec::new();
    let mut i: usize = 0;
    assert(level::extras(out@) == want.take(0));
    while i < count
        invariant
            i <= count,
            count == names.len(),
            names == all.listed(),
            want == root_extras_of(n@),
            want.len() == names.len(),
            names == level::with_new_names(
                level::with_new_names(
                    level::with_new_names(n@.added, n@.modified),
                    n@.replaced,
                ),
                n@.removed,
            ),
            n@.added.to_set() == n.added@,
            n@.replaced.to_set() == n.replaced@,
            n@.removed.to_set() == n.removed@,
            level::extras(out@) == want.take(i as int),
        decreases count - i,
    {
        let name = all.name(i);
        let state = if n.removed.contains(name) {
            EntryState::Removed
        } else if n.replaced.contains(name) {
            EntryState::Replaced
        } else if n.added.contains(name) {
            EntryState::Added
        } else {
            EntryState::Modified
        };
        let ghost before = out@;
        out.push(
            Extra { name: text::copy(name), state, is_dir: n.directories.contains(name) },
        );
        assert(level::extras(out@) == level::extras(before).push(want[i as int]));
        assert(want.take(i + 1) == want.take(i as int).push(want[i as int]));
        i = i + 1;
    }
    assert(want.take(count as int) == want);
    out
}

/// Lines, each with its end.
pub open spec fn text_of_lines(lines: Seq<Seq<char>>) -> Seq<char>
    decreases lines.len(),
{
    if lines.len() == 0 {
        Seq::empty()
    } else {
        text_of_lines(lines.drop_last()) + lines.last().push('\n')
    }
}

/// Puts lines together.
pub fn write_lines(lines: &Vec<String>) -> (r: String)
    ensures
        r@ == text_of_lines(text::texts(lines@)),
{
    let ghost all = text::texts(lines@);
    let mut out = String::new();
    let mut i: usize = 0;
    assert(all.take(0) == Seq::<Seq<char>>::empty());
    while i < lines.len()
        invariant
            i <= lines@.len(),
            all == text::texts(lines@),
            out@ == text_of_lines(all.take(i as int)),
        decreases lines@.len() - i,
    {
        let ghost before = out@;
        assert(all.take(i + 1).drop_last() == all.take(i as int));
        assert(all.take(i + 1).last() == lines@[i as int]@);
        out.push_str(lines[i].as_str());
        out.push('\n');
        assert(out@ == before + lines@[i as int]@.push('\n'));
        i = i + 1;
    }
    assert(all.take(all.len() as int) == all);
    out
}

/// What came of a preview.
pub enum TreePreview {
    Text(String),
    TooLong,
    /// This directory must be read first.
    Need(String),
}

/// The root of a preview.
pub open spec fn root_place(path: Seq<char>) -> Place {
    Place {
        path,
        key: Seq::empty(),
        rel: Seq::empty(),
        prefix: Seq::empty(),
        depth: 0,
    }
}

/// Shows a directory tree with the changes in it. Where a directory has not
/// been read yet, says which.
pub fn render_showall_tree_to_string_with_cache(
    preview_root: &str,
    c: &ShowAllInput,
    names: &RootNames,
    max_lines: Option<usize>,
) -> (r: TreePreview)
    requires
        c.wf(),
        names.wf(),
    ensures
        ({
            let full = shown_level(c@, root_place(preview_root@), root_extras_of(names@));
            match r {
                TreePreview::Text(t) => {
                    &&& t@ == text_of_lines(full.lines)
                    &&& all_read(c.dirs@, full.visits)
                    &&& within(full.lines.len() as int, max_lines)
                },
                TreePreview::TooLong => !within(full.lines.len() as int, max_lines)
                    && stays_too_long(
                    c@,
                    root_place(preview_root@),
                    root_extras_of(names@),
                    0,
                    max_lines,
                ),
                TreePreview::Need(p) => full.visits.contains(p@) && !c.dirs@.contains_key(p@),
            }
        }),
{
    let extra = root_extras(names);
    let at = Spot {
        path: text::copy(preview_root),
        key: String::new(),
        rel: String::new(),
        prefix: String::new(),
        depth: 0,
    };
    assert(at@ == root_place(preview_root@));
    let mut lines: Vec<String> = Vec::new();
    assert(text::texts(lines@) == Seq::<Seq<char>>::empty());
    let ghost full = shown_level(c@, at@, level::extras(extra@));
    match render_showall_level(c, &at, &extra, &mut lines, max_lines) {
        LevelEnd::Complete => {
            assert(text::texts(lines@) == full.lines);
            TreePreview::Text(write_lines(&lines))
        },
        LevelEnd::TooLong => TreePreview::TooLong,
        LevelEnd::Need(p) => TreePreview::Need(p),
    }
}

/// What is replaced has two rows, the old above the new; every other entry has one.
pub proof fn law_every_entry_has_its_rows(shown: Seq<EntryView>, i: int) -> (k: int)
    requires
        0 <= i < shown.len(),
    ensures
        ({
            let units = entry_units(shown);
            &&& 0 <= k < units.len()
            &&& shown[i].state == EntryState::Replaced ==> k + 1 < units.len() && units[k]
                == UnitView::Row(shown[i], RowKind::ReplacedOld) && units[k + 1] == UnitView::Row(
                shown[i],
                RowKind::ReplacedNew,
            )
            &&& shown[i].state != EntryState::Replaced ==> units[k] == UnitView::Row(
                shown[i],
                RowKind::Single,
            )
        }),
    decreases shown.len(),
{
    let rest = entry_units(shown.drop_last());
    let units = entry_units(shown);
    if i < shown.len() - 1 {
        assert(shown.drop_last()[i] == shown[i]);
        law_every_entry_has_its_rows(shown.drop_last(), i)
    } else {
        rest.len() as int
    }
}

/// There are as many rows as entries, and one more for each that is replaced.
pub proof fn law_rows_are_of_entries(shown: Seq<EntryView>)
    ensures
        entry_units(shown).len() == shown.len() + shown.filter(
            |e: EntryView| e.state == EntryState::Replaced,
        ).len(),
    decreases shown.len(),
{
    reveal(Seq::filter);
    if shown.len() > 0 {
        law_rows_are_of_entries(shown.drop_last());
    }
}

proof fn lemma_closed_units(c: ShowAll, at: Place, units: Seq<UnitView>, n: int)
    requires
        0 <= n <= units.len(),
        forall|k: int| 0 <= k < units.len() ==> !expands(c, at, #[trigger] units[k]),
    ensures
        shown_units(c, at, units, n).visits == Seq::<Seq<char>>::empty(),
        shown_units(c, at, units, n).lines.len() == n,
        forall|k: int|
            0 <= k < n ==> #[trigger] shown_units(c, at, units, n).lines[k] == unit_line(
                at,
                units[k],
                k == units.len() - 1,
            ),
    decreases n,
{
    if n > 0 {
        lemma_closed_units(c, at, units, n - 1);
        assert(!expands(c, at, units[n - 1]));
    }
}

/// At the greatest depth a level is its own lines, and no directory in it is looked into.
pub proof fn law_nothing_below_the_depth_is_shown(c: ShowAll, at: Place, extra: Seq<ExtraView>)
    requires
        at.depth + 1 >= c.max_depth,
    ensures
        shown_level(c, at, extra).visits == seq![at.path],
        shown_level(c, at, extra).lines.len() == units_of(c, at, extra).len(),
{
    let units = units_of(c, at, extra);
    lemma_closed_units(c, at, units, units.len() as int);
}

/// Where all the directories of a level are removed or replaced, none is looked into.
pub proof fn law_what_goes_is_not_looked_into(c: ShowAll, at: Place, extra: Seq<ExtraView>)
    requires
        forall|k: int|
            0 <= k < units_of(c, at, extra).len() ==> (#[trigger] units_of(c, at, extra)[k]
                matches UnitView::Row(e, kind) ==> (e.is_dir ==> e.state == EntryState::Removed
                || kind != RowKind::Single)),
    ensures
        shown_level(c, at, extra).visits == seq![at.path],
        shown_level(c, at, extra).lines.len() == units_of(c, at, extra).len(),
{
    let units = units_of(c, at, extra);
    assert forall|k: int| 0 <= k < units.len() implies !expands(c, at, #[trigger] units[k]) by {
    }
    lemma_closed_units(c, at, units, units.len() as int);
}

proof fn lemma_visited(c: ShowAll, at: Place, units: Seq<UnitView>, n: int, k: int)
    requires
        0 <= k < n <= units.len(),
        expands(c, at, units[k]),
    ensures
        shown_units(c, at, units, n).visits.contains(
            paths::joined_path(at.path, units[k]->Row_0.name),
        ),
    decreases n,
{
    let path = paths::joined_path(at.path, units[k]->Row_0.name);
    let r = shown_units(c, at, units, n);
    let before = shown_units(c, at, units, n - 1);
    if k < n - 1 {
        lemma_visited(c, at, units, n - 1, k);
        let i = choose|i: int| 0 <= i < before.visits.len() && before.visits[i] == path;
        assert(r.visits[i] == path);
    } else {
        let last = n == units.len();
        let below = shown_level(c, place_below(at, units[k]->Row_0.name, last), Seq::empty());
        assert(below.visits[0] == path);
        assert(r.visits[before.visits.len() as int] == path);
    }
}

/// Above the greatest depth every directory that is shown and stays is looked into, and so
/// is the level itself.
pub proof fn law_directories_are_looked_into(
    c: ShowAll,
    at: Place,
    extra: Seq<ExtraView>,
    k: int,
)
    requires
        0 <= k < units_of(c, at, extra).len(),
        units_of(c, at, extra)[k] matches UnitView::Row(e, RowKind::Single) && e.is_dir && e.state
            != EntryState::Removed,
        at.depth + 1 < c.max_depth,
    ensures
        shown_level(c, at, extra).visits.contains(at.path),
        shown_level(c, at, extra).visits.contains(
            paths::joined_path(at.path, units_of(c, at, extra)[k]->Row_0.name),
        ),
{
    let units = units_of(c, at, extra);
    let s = shown_units(c, at, units, units.len() as int);
    let r = shown_level(c, at, extra);
    let path = paths::joined_path(at.path, units[k]->Row_0.name);
    lemma_visited(c, at, units, units.len() as int, k);
    let i = choose|i: int| 0 <= i < s.visits.len() && s.visits[i] == path;
    assert(r.visits[i + 1] == path);
    assert(r.visits[0] == at.path);
}

/// The last line of a level closes it and every other one leaves it open; each stands behind
/// what the levels above have drawn.
pub proof fn law_the_last_line_closes(at: Place, u: UnitView, last: bool)
    ensures
        text::begins(unit_line(at, u, last), at.prefix),
        text::begins(unit_line(at, u, last).skip(at.prefix.len() as int), "└── "@) <==> last,
        text::begins(unit_line(at, u, last).skip(at.prefix.len() as int), "├── "@) <==> !last,
{
    reveal_strlit("└── ");
    reveal_strlit("├── ");
    let t = unit_line(at, u, last);
    let what = match u {
        UnitView::Row(e, kind) => level::entry_text(e, kind),
        UnitView::Rest(s) => "... and "@ + s,
    };
    let connector = if last {
        "└── "@
    } else {
        "├── "@
    };
    assert(t.take(at.prefix.len() as int) == at.prefix);
    let rest = t.skip(at.prefix.len() as int);
    assert(rest == connector + what);
    assert(rest.take(4) == connector);
    assert("└── "@[0] != "├── "@[0]);
}

/// What lies below an entry is a level deeper, at the entry's path, and is drawn behind what
/// stands above: a bar, if more entries follow.
pub proof fn law_levels_are_nested(at: Place, name: Seq<char>, last: bool)
    ensures
        ({
            let below = place_below(at, name, last);
            &&& below.depth == at.depth + 1
            &&& below.path == paths::joined_path(at.path, name)
            &&& below.key == at.key + seq!['/'] + name
            &&& text::begins(below.prefix, at.prefix)
            &&& below.prefix.len() == at.prefix.len() + 4
            &&& below.prefix[at.prefix.len() as int] == '│' <==> !last
            &&& forall|i: int|
                at.prefix.len() < i < below.prefix.len() ==> #[trigger] below.prefix[i] == ' '
        }),
{
    reveal_strlit("    ");
    reveal_strlit("│   ");
    let below = place_below(at, name, last);
    assert(below.prefix.take(at.prefix.len() as int) == at.prefix);
    assert(at.key.push('/') + name == at.key + seq!['/'] + name);
}

/// A name at the root is removed, replaced, added or modified: the first of these in whose
/// list it is.
pub proof fn law_root_names_keep_their_states(n: RootNamesView, i: int)
    requires
        0 <= i < root_extras_of(n).len(),
    ensures
        ({
            let e = root_extras_of(n)[i];
            &&& e.state == EntryState::Removed <==> n.removed.contains(e.name)
            &&& e.state == EntryState::Replaced <==> n.replaced.contains(e.name)
                && !n.removed.contains(e.name)
            &&& e.state == EntryState::Added <==> n.added.contains(e.name) && !n.removed.contains(
                e.name,
            ) && !n.replaced.contains(e.name)
            &&& e.state == EntryState::Modified ==> n.modified.contains(e.name)
            &&& e.is_dir <==> n.directories.contains(e.name)
        }),
{
    let a = level::with_new_names(n.added, n.modified);
    let b = level::with_new_names(a, n.replaced);
    let all = level::with_new_names(b, n.removed);
    level::law_new_names_are_added_once(n.added, n.modified);
    level::law_new_names_are_added_once(a, n.replaced);
    level::law_new_names_are_added_once(b, n.removed);
    let e = root_extras_of(n)[i];
    assert(all[i] == e.name);
    assert(all.contains(e.name));
    assert(n.removed.to_set().contains(e.name) <==> n.removed.contains(e.name));
    assert(n.replaced.to_set().contains(e.name) <==> n.replaced.contains(e.name));
    assert(n.added.to_set().contains(e.name) <==> n.added.contains(e.name));
}

/// Every name that is known at the root beforehand is listed.
pub proof fn law_no_root_name_is_lost(n: RootNamesView, name: Seq<char>) -> (i: int)
    requires
        n.added.contains(name) || n.modified.contains(name) || n.replaced.contains(name)
            || n.removed.contains(name),
    ensures
        0 <= i < root_extras_of(n).len(),
        root_extras_of(n)[i].name == name,
{
    let a = level::with_new_names(n.added, n.modified);
    let b = level::with_new_names(a, n.replaced);
    let all = level::with_new_names(b, n.removed);
    level::law_new_names_are_added_once(n.added, n.modified);
    level::law_new_names_are_added_once(a, n.replaced);
    level::law_new_names_are_added_once(b, n.removed);
    assert(a.contains(name) <==> n.added.contains(name) || n.modified.contains(name));
    assert(b.contains(name) <==> a.contains(name) || n.replaced.contains(name));
    assert(all.contains(name));
    choose|i: int| 0 <= i < all.len() && all[i] == name
}

/// The text of some lines and more is the text of both, one behind the other, and a line is
/// followed by its end.
pub proof fn law_lines_follow_each_other(a: Seq<Seq<char>>, b: Seq<Seq<char>>)
    ensures
        text_of_lines(a + b) == text_of_lines(a) + text_of_lines(b),
        a.len() == 1 ==> text_of_lines(a) == a[0] + seq!['\n'],
    decreases b.len(),
{
    if a.len() == 1 {
        assert(a.drop_last() == Seq::<Seq<char>>::empty());
        assert(text_of_lines(a.drop_last()) == Seq::<char>::empty());
        assert(text_of_lines(a) == text_of_lines(a.drop_last()) + a.last().push('\n'));
    }
    if b.len() > 0 {
        law_lines_follow_each_other(a, b.drop_last());
        assert((a + b).drop_last() == a + b.drop_last());
        assert((a + b).last() == b.last());
    } else {
        assert(a + b == a);
    }
}

/// Each row of a level has its line, and the last one closes it.
pub proof fn law_each_row_has_a_line(units: Seq<UnitView>, n: int, k: int)
    requires
        0 <= k < n <= units.len(),
    ensures
        row_lines(units, n).len() == n,
        row_lines(units, n)[k] == unit_line(
            root_place(Seq::empty()),
            units[k],
            k == units.len() - 1,
        ),
    decreases n,
{
    if n > 1 {
        law_each_row_has_a_line(units, n - 1, if k < n - 1 { k } else { 0 });
    } else {
        assert(row_lines(units, 0).len() == 0);
    }
}

/// The last line of a level tells what is hidden, if anything is: those that do not change
/// together, unless they are shown too.
pub proof fn law_hidden_entries_have_a_line(c: ShowAll, at: Place, extra: Seq<ExtraView>)
    ensures
        ({
            let all = level::level_entries(
                LevelSource {
                    tree: c.tree,
                    key: at.key,
                    rows: rows_at(c.dirs, at.path),
                    extra,
                    sources: c.sources,
                    rel: at.rel,
                },
            );
            let shown = level::selected_of(all, c.trunc, c.include_unchanged);
            let hidden = level::hidden_of(all, shown);
            let units = units_of(c, at, extra);
            &&& units.len() == entry_units(shown).len() + (if preview::hidden_total(hidden) > 0 {
                1int
            } else {
                0int
            })
            &&& preview::hidden_total(hidden) > 0 ==> units.last() is Rest && Some(
                units.last()->Rest_0,
            ) == preview::hidden_summary(hidden, !c.include_unchanged)
        }),
{
    let all = level::level_entries(
        LevelSource {
            tree: c.tree,
            key: at.key,
            rows: rows_at(c.dirs, at.path),
            extra,
            sources: c.sources,
            rel: at.rel,
        },
    );
    let shown = level::selected_of(all, c.trunc, c.include_unchanged);
    preview::law_hidden_entries_are_told(level::hidden_of(all, shown), !c.include_unchanged);
}

} // verus!
