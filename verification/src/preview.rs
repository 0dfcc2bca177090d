//! Previews of what a transfer changes.

use crate::domain::{ChangeItem, ChangeKind};
use crate::paths;
use crate::placement;
use crate::table::NameSet;
use crate::text;
use vstd::prelude::*;

verus! {

/// What a transfer does to an entry.
#[derive(Clone, Copy, Debug, PartialEq, Eq, Structural)]
pub enum EntryState {
    Added,
    Modified,
    Replaced,
    Removed,
    Identical,
    Uncollided,
    Unchanged,
}

/// What a change does to the entry it names.
pub open spec fn state_of(kind: ChangeKind) -> EntryState {
    match kind {
        ChangeKind::NewFile | ChangeKind::NewDir => EntryState::Added,
        ChangeKind::RemovedFile | ChangeKind::RemovedDir => EntryState::Removed,
        ChangeKind::ModFile => EntryState::Modified,
    }
}

/// Where a state stands in a listing: changes first.
pub open spec fn priority(state: EntryState) -> int {
    match state {
        EntryState::Modified | EntryState::Replaced => 0,
        EntryState::Added => 1,
        EntryState::Removed => 2,
        EntryState::Identical => 3,
        EntryState::Uncollided => 4,
        EntryState::Unchanged => 9,
    }
}

/// Finds where a state stands in a listing.
pub fn state_sort_priority(state: EntryState) -> (r: u8)
    ensures
        r == priority(state),
{
    match state {
        EntryState::Modified => 0,
        EntryState::Replaced => 0,
        EntryState::Added => 1,
        EntryState::Removed => 2,
        EntryState::Identical => 3,
        EntryState::Uncollided => 4,
        EntryState::Unchanged => 9,
    }
}

/// A name below a relative path.
pub open spec fn joined_rel(parent: Seq<char>, name: Seq<char>) -> Seq<char> {
    if parent.len() == 0 {
        name
    } else {
        parent.push('/') + name
    }
}

/// Joins a name to a relative path.
pub fn join_rel(parent: &str, name: &str) -> (r: String)
    ensures
        r@ == joined_rel(parent@, name@),
{
    let mut out = text::to_chars(parent);
    if out.len() > 0 {
        out.push('/');
    }
    text::extend(&mut out, text::to_chars(name).as_slice());
    assert(out@ == joined_rel(parent@, name@));
    text::from_chars(out.as_slice())
}

/// An item as seen from above a directory that is shown under `prefix`.
pub open spec fn remapped(item: Seq<char>, prefix: Seq<char>) -> Seq<char> {
    if item.len() > 0 && paths::matches_prefix(item, prefix) {
        item
    } else {
        prefix.push('/') + item
    }
}

/// Moves an item under a prefix, unless it is there already.
pub fn remap_item_under_prefix(item: &str, prefix: &str) -> (r: String)
    ensures
        r@ == remapped(item@, prefix@),
{
    if !item.is_empty() && paths::rel_matches_prefix(item, prefix) {
        return text::copy(item);
    }
    let mut out = text::to_chars(prefix);
    out.push('/');
    text::extend(&mut out, text::to_chars(item).as_slice());
    text::from_chars(out.as_slice())
}

/// Moving an item under a prefix again changes nothing.
pub proof fn law_remapping_is_idempotent(item: Seq<char>, prefix: Seq<char>)
    ensures
        remapped(remapped(item, prefix), prefix) == remapped(item, prefix),
{
    let once = remapped(item, prefix);
    if once != item || item.len() == 0 {
        assert(once == prefix.push('/') + item);
        assert(once.take(prefix.len() as int + 1) == prefix.push('/'));
    }
}

/// The paths of a set under a prefix, without trailing slashes.
pub open spec fn all_remapped(set: Set<Seq<char>>, prefix: Seq<char>) -> Set<Seq<char>> {
    Set::new(
        |p: Seq<char>|
            exists|q: Seq<char>| #[trigger]
                set.contains(q) && p == text::trim_end_char(remapped(q, prefix), '/'),
    )
}

/// Moves the paths of a set under a prefix.
pub fn remap_path_set_under_prefix(set: &NameSet, prefix: &str) -> (r: NameSet)
    requires
        set.wf(),
    ensures
        r.wf(),
        r@ == all_remapped(set@, prefix@),
{
    let mut out = NameSet::new();
    let n: usize = set.len();
    let ghost listed = set.listed();
    let mut i: usize = 0;
    assert(listed.take(0).to_set() == Set::<Seq<char>>::empty());
    assert(out@ == all_remapped(listed.take(0).to_set(), prefix@));
    while i < n
        invariant
            i <= n,
            listed == set.listed(),
            n == listed.len(),
            out.wf(),
            out@ == all_remapped(listed.take(i as int).to_set(), prefix@),
        decreases n - i,
    {
        let ghost before = out@;
        let moved = remap_item_under_prefix(set.name(i), prefix);
        let bare = text::trim_end(text::to_chars(moved.as_str()).as_slice(), '/');
        let path = text::from_chars(bare.as_slice());
        out.insert(path);
        proof {
            lemma_remapped_step(listed, i as int, prefix@);
        }
        i = i + 1;
    }
    proof {
        set.lemma_listed();
        assert(listed.take(n as int) == listed);
    }
    out
}

proof fn lemma_remapped_step(listed: Seq<Seq<char>>, i: int, prefix: Seq<char>)
    requires
        0 <= i < listed.len(),
    ensures
        all_remapped(listed.take(i + 1).to_set(), prefix) == all_remapped(
            listed.take(i).to_set(),
            prefix,
        ).insert(text::trim_end_char(remapped(listed[i], prefix), '/')),
{
    let small = listed.take(i).to_set();
    let large = listed.take(i + 1).to_set();
    assert forall|q: Seq<char>| large.contains(q) == (small.contains(q) || q == listed[i]) by {
        assert(listed.take(i + 1) == listed.take(i).push(listed[i]));
        if large.contains(q) && q != listed[i] {
            let k = listed.take(i + 1).index_of(q);
            assert(listed.take(i)[k] == q);
        }
        if small.contains(q) {
            let k = listed.take(i).index_of(q);
            assert(listed.take(i + 1)[k] == q);
        }
        assert(listed.take(i + 1)[i] == listed[i]);
    }
    let left = all_remapped(large, prefix);
    let last = text::trim_end_char(remapped(listed[i], prefix), '/');
    let right = all_remapped(small, prefix).insert(last);
    assert forall|p: Seq<char>| left.contains(p) == right.contains(p) by {
        if left.contains(p) {
            let q = choose|q: Seq<char>| #[trigger]
                large.contains(q) && p == text::trim_end_char(remapped(q, prefix), '/');
            assert(small.contains(q) || q == listed[i]);
        }
        if all_remapped(small, prefix).contains(p) {
            let q = choose|q: Seq<char>| #[trigger]
                small.contains(q) && p == text::trim_end_char(remapped(q, prefix), '/');
            assert(large.contains(q));
        }
        assert(large.contains(listed[i]));
    }
    assert(left == right);
}

/// A change as a kind and a relative path.
pub open spec fn changes_of(items: Seq<ChangeItem>) -> Seq<(ChangeKind, Seq<char>)> {
    items.map_values(|item: ChangeItem| (item.kind, item.rel@))
}

/// Changes as seen from above a directory that is shown under `prefix`.
pub open spec fn moved_changes(changes: Seq<(ChangeKind, Seq<char>)>, prefix: Seq<char>) -> Seq<
    (ChangeKind, Seq<char>),
> {
    changes.map_values(
        |c: (ChangeKind, Seq<char>)| (c.0, remapped(paths::skip_repeated(c.1, "./"@), prefix)),
    )
}

/// Moves changes under a prefix.
fn move_changes(items: &Vec<ChangeItem>, prefix: &str) -> (r: Vec<ChangeItem>)
    ensures
        changes_of(r@) == moved_changes(changes_of(items@), prefix@),
{
    let dot = text::to_chars("./");
    let mut out: Vec<ChangeItem> = Vec::new();
    let mut i: usize = 0;
    while i < items.len()
        invariant
            i <= items.len(),
            dot@ == "./"@,
            changes_of(out@) == moved_changes(changes_of(items@.take(i as int)), prefix@),
        decreases items.len() - i,
    {
        let item = &items[i];
        let bare = paths::strip_repeated(text::to_chars(item.rel.as_str()).as_slice(), dot.as_slice());
        let rel = remap_item_under_prefix(text::from_chars(bare.as_slice()).as_str(), prefix);
        let ghost before = out@;
        let moved = ChangeItem { kind: item.kind, rel };
        out.push(moved);
        assert(changes_of(out@) == changes_of(before).push((moved.kind, moved.rel@)));
        assert(items@.take(i + 1) == items@.take(i as int).push(*item));
        assert(moved_changes(changes_of(items@.take(i + 1)), prefix@) == moved_changes(
            changes_of(items@.take(i as int)),
            prefix@,
        ).push((moved.kind, moved.rel@)));
        i = i + 1;
    }
    assert(items@.take(i as int) == items@);
    out
}

/// What a preview is shown from, and what it shows.
pub struct PreviewContents {
    pub root: String,
    pub items: Vec<ChangeItem>,
    pub sources: NameSet,
}

/// The model of what a preview shows.
pub struct ContentsModel {
    pub root: Seq<char>,
    pub changes: Seq<(ChangeKind, Seq<char>)>,
    pub sources: Set<Seq<char>>,
}

impl View for PreviewContents {
    type V = ContentsModel;

    open spec fn view(&self) -> ContentsModel {
        ContentsModel {
            root: self.root@,
            changes: changes_of(self.items@),
            sources: self.sources@,
        }
    }
}

/// What a preview shows when its directory is shown under a name.
pub open spec fn below_name(c: ContentsModel, name: Seq<char>, showall: bool) -> ContentsModel {
    ContentsModel {
        root: c.root,
        changes: moved_changes(c.changes, name),
        sources: if showall {
            all_remapped(c.sources, name)
        } else {
            c.sources
        },
    }
}

/// Shows the directory of a preview under the new name that a directory gets.
pub fn show_under_new_name(c: PreviewContents, name: &str, showall: bool) -> (r: PreviewContents)
    requires
        c.sources.wf(),
    ensures
        r.sources.wf(),
        r@ == below_name(c@, name@, showall),
{
    let items = move_changes(&c.items, name);
    let sources = if showall {
        remap_path_set_under_prefix(&c.sources, name)
    } else {
        c.sources
    };
    PreviewContents { root: c.root, items, sources }
}

/// What a preview shows from the directory of a backup: with all entries shown,
/// those of its own directory are below that directory's name.
pub open spec fn from_backup_directory(
    c: ContentsModel,
    directory: Seq<char>,
    showall: bool,
) -> ContentsModel {
    let root = placement::argument_text(directory, true);
    match paths::last_name(c.root) {
        Some(name) if showall => ContentsModel { root, ..below_name(c, name, true) },
        _ => ContentsModel { root, ..c },
    }
}

/// Shows a preview from the directory where a backup will be.
pub fn show_from_backup_directory(c: PreviewContents, directory: &str, showall: bool) -> (r:
    PreviewContents)
    requires
        c.sources.wf(),
    ensures
        r.sources.wf(),
        r@ == from_backup_directory(c@, directory@, showall),
{
    let root = placement::transfer_path_arg(directory, true);
    match paths::file_name(c.root.as_str()) {
        Some(name) if showall => {
            let moved = show_under_new_name(c, name.as_str(), true);
            PreviewContents { root, items: moved.items, sources: moved.sources }
        },
        _ => PreviewContents { root, items: c.items, sources: c.sources },
    }
}

/// The directory that a move takes away below the root of a preview, when the
/// contents of a directory go into its parent.
pub open spec fn removed_source(source: Seq<char>, root: Seq<char>) -> Option<Seq<char>> {
    let rel = text::joined(paths::below(source, root), "/"@);
    if !paths::under(source, root) || rel.len() == 0 || rel == "."@ || rel == ".."@ || text::begins(
        rel,
        "../"@,
    ) {
        None
    } else {
        Some(text::trim_end_char(rel, '/').push('/'))
    }
}

/// Adds the directory that a move takes away, given the real paths of the
/// source and of the root.
pub fn show_removed_source(c: &mut PreviewContents, source: &str, root: &str)
    ensures
        final(c)@ == (match removed_source(source@, root@) {
            Some(rel) => ContentsModel {
                changes: old(c)@.changes.push((ChangeKind::RemovedDir, rel)),
                ..old(c)@
            },
            None => old(c)@,
        }),
        final(c).sources == old(c).sources,
{
    if let Some(rel) = paths::relative_to(source, root) {
        let chars = text::to_chars(rel.as_str());
        let up = text::to_chars("../");
        if chars.len() > 0 && !text::is_text(chars.as_slice(), ".") && !text::is_text(
            chars.as_slice(),
            "..",
        ) && !text::begins_with(chars.as_slice(), up.as_slice()) {
            let mut shown = text::trim_end(chars.as_slice(), '/');
            shown.push('/');
            let ghost before = c.items@;
            let item = ChangeItem {
                kind: ChangeKind::RemovedDir,
                rel: text::from_chars(shown.as_slice()),
            };
            c.items.push(item);
            assert(changes_of(c.items@) == changes_of(before).push((item.kind, item.rel@)));
        }
    }
}

/// How many entries are not shown, by state.
#[derive(Clone, Copy, Debug, PartialEq, Eq, Structural)]
pub struct HiddenStateCounts {
    pub new_count: usize,
    pub modified_count: usize,
    pub identical_count: usize,
    pub uncollided_count: usize,
    pub deleted_count: usize,
}

/// Nothing hidden.
pub open spec fn nothing_hidden() -> HiddenStateCounts {
    HiddenStateCounts {
        new_count: 0,
        modified_count: 0,
        identical_count: 0,
        uncollided_count: 0,
        deleted_count: 0,
    }
}

/// The sum of all counts.
pub open spec fn hidden_total(h: HiddenStateCounts) -> int {
    h.new_count + h.modified_count + h.identical_count + h.uncollided_count + h.deleted_count
}

/// The counts with one entry more.
pub open spec fn with_hidden(h: HiddenStateCounts, state: EntryState) -> HiddenStateCounts {
    match state {
        EntryState::Added => HiddenStateCounts { new_count: (h.new_count + 1) as usize, ..h },
        EntryState::Removed => HiddenStateCounts {
            deleted_count: (h.deleted_count + 1) as usize,
            ..h
        },
        EntryState::Identical => HiddenStateCounts {
            identical_count: (h.identical_count + 1) as usize,
            ..h
        },
        EntryState::Uncollided | EntryState::Unchanged => HiddenStateCounts {
            uncollided_count: (h.uncollided_count + 1) as usize,
            ..h
        },
        EntryState::Modified | EntryState::Replaced => HiddenStateCounts {
            modified_count: (h.modified_count + 1) as usize,
            ..h
        },
    }
}

impl HiddenStateCounts {
    /// Counts an entry that is not shown.
    pub fn count(&mut self, state: EntryState)
        requires
            hidden_total(*old(self)) < usize::MAX,
        ensures
            *final(self) == with_hidden(*old(self), state),
            hidden_total(*final(self)) == hidden_total(*old(self)) + 1,
    {
        match state {
            EntryState::Added => {
                self.new_count = self.new_count + 1;
            },
            EntryState::Removed => {
                self.deleted_count = self.deleted_count + 1;
            },
            EntryState::Identical => {
                self.identical_count = self.identical_count + 1;
            },
            EntryState::Uncollided => {
                self.uncollided_count = self.uncollided_count + 1;
            },
            EntryState::Unchanged => {
                self.uncollided_count = self.uncollided_count + 1;
            },
            _ => {
                self.modified_count = self.modified_count + 1;
            },
        }
    }

    /// How many entries are not shown.
    pub fn total(self) -> (r: usize)
        requires
            hidden_total(self) <= usize::MAX,
        ensures
            r == hidden_total(self),
    {
        self.new_count + self.modified_count + self.identical_count + self.uncollided_count
            + self.deleted_count
    }
}

/// A count and what it counts, where there is anything.
pub open spec fn count_phrase(n: int, what: Seq<char>) -> Seq<Seq<char>> {
    if n > 0 {
        seq![text::decimal(n as nat) + " more "@ + what]
    } else {
        Seq::empty()
    }
}

/// What is said of entries that are not shown, piece by piece.
pub open spec fn hidden_phrases(h: HiddenStateCounts, combine: bool) -> Seq<Seq<char>> {
    count_phrase(h.new_count as int, "new"@) + count_phrase(h.modified_count as int, "modified"@)
        + (if combine {
        count_phrase(h.identical_count + h.uncollided_count, "identical/uncollided"@)
    } else {
        count_phrase(h.identical_count as int, "identical"@) + count_phrase(
            h.uncollided_count as int,
            "uncollided"@,
        )
    }) + count_phrase(h.deleted_count as int, "deleted"@)
}

/// What is said of entries that are not shown, if there are any.
pub open spec fn hidden_summary(h: HiddenStateCounts, combine: bool) -> Option<Seq<char>> {
    let parts = hidden_phrases(h, combine);
    if parts.len() == 0 {
        None
    } else {
        Some(text::joined(parts, " "@))
    }
}

fn push_phrase(parts: &mut Vec<Vec<char>>, n: usize, what: &str)
    ensures
        text::rows(final(parts)@) == text::rows(old(parts)@) + count_phrase(n as int, what@),
{
    if n > 0 {
        let mut s = text::number(n as u64);
        text::extend(&mut s, text::to_chars(" more ").as_slice());
        text::extend(&mut s, text::to_chars(what).as_slice());
        parts.push(s);
    }
    assert(text::rows(parts@) == text::rows(old(parts)@) + count_phrase(n as int, what@));
}

/// Says how many entries are not shown; those that are the same and those that
/// have no counterpart are taken together on request.
pub fn format_hidden_top_summary(
    hidden_new: usize,
    hidden_modified: usize,
    hidden_identical: usize,
    hidden_uncollided: usize,
    hidden_deleted: usize,
    combine_unchanged: bool,
) -> (r: Option<String>)
    requires
        hidden_identical + hidden_uncollided <= usize::MAX,
    ensures
        paths::opt_text(r) == hidden_summary(
            HiddenStateCounts {
                new_count: hidden_new,
                modified_count: hidden_modified,
                identical_count: hidden_identical,
                uncollided_count: hidden_uncollided,
                deleted_count: hidden_deleted,
            },
            combine_unchanged,
        ),
{
    let ghost h = HiddenStateCounts {
        new_count: hidden_new,
        modified_count: hidden_modified,
        identical_count: hidden_identical,
        uncollided_count: hidden_uncollided,
        deleted_count: hidden_deleted,
    };
    let mut parts: Vec<Vec<char>> = Vec::new();
    push_phrase(&mut parts, hidden_new, "new");
    push_phrase(&mut parts, hidden_modified, "modified");
    if combine_unchanged {
        push_phrase(&mut parts, hidden_identical + hidden_uncollided, "identical/uncollided");
    } else {
        push_phrase(&mut parts, hidden_identical, "identical");
        push_phrase(&mut parts, hidden_uncollided, "uncollided");
    }
    push_phrase(&mut parts, hidden_deleted, "deleted");
    assert(text::rows(parts@) == hidden_phrases(h, combine_unchanged));
    assert(text::rows(parts@).len() == parts@.len());
    if parts.len() == 0 {
        None
    } else {
        let space = text::to_chars(" ");
        Some(text::from_chars(text::join(parts.as_slice(), space.as_slice()).as_slice()))
    }
}

/// What is new is added, what is removed is removed, and what is modified is modified, file
/// or directory alike.
pub proof fn law_states_say_what_happens(kind: ChangeKind)
    ensures
        state_of(kind) is Added <==> kind is NewFile || kind is NewDir,
        state_of(kind) is Removed <==> kind is RemovedFile || kind is RemovedDir,
        state_of(kind) is Modified <==> kind is ModFile,
{
}

/// A listing shows what is modified first, then what is added and removed, and what stays as
/// it is last.
pub proof fn law_changes_are_listed_first()
    ensures
        priority(EntryState::Modified) == priority(EntryState::Replaced),
        priority(EntryState::Modified) < priority(EntryState::Added),
        priority(EntryState::Added) < priority(EntryState::Removed),
        priority(EntryState::Removed) < priority(EntryState::Identical),
        priority(EntryState::Identical) < priority(EntryState::Uncollided),
        priority(EntryState::Uncollided) < priority(EntryState::Unchanged),
{
}

/// A name below nothing is the name, and below a path it follows a slash.
pub proof fn law_names_are_joined_by_a_slash(parent: Seq<char>, name: Seq<char>)
    ensures
        joined_rel(Seq::empty(), name) == name,
        parent.len() > 0 ==> joined_rel(parent, name) == parent + seq!['/'] + name,
{
    if parent.len() > 0 {
        assert(parent.push('/') + name == parent + seq!['/'] + name);
    }
}

/// What is moved under a prefix lies at or below it, with all of its own path at the end.
pub proof fn law_remapped_items_lie_below(item: Seq<char>, prefix: Seq<char>)
    requires
        item.len() > 0,
    ensures
        remapped(item, prefix) == prefix || text::begins(remapped(item, prefix), prefix.push('/')),
        text::ends(remapped(item, prefix), item),
        item != prefix && !text::begins(item, prefix.push('/')) ==> remapped(item, prefix)
            == prefix.push('/') + item,
        item == prefix || text::begins(item, prefix.push('/')) ==> remapped(item, prefix) == item,
{
    let r = remapped(item, prefix);
    if item == prefix || text::begins(item, prefix.push('/')) {
        assert(r.skip(0) == item);
    } else {
        assert(r.take(prefix.len() as int + 1) == prefix.push('/'));
        assert(r.skip(r.len() - item.len()) == item);
    }
}

/// Every change keeps its kind when its directory is shown under a name, and none is lost.
pub proof fn law_shown_under_a_name_all_stays(c: ContentsModel, name: Seq<char>, showall: bool, i: int)
    requires
        0 <= i < c.changes.len(),
    ensures
        below_name(c, name, showall).changes.len() == c.changes.len(),
        below_name(c, name, showall).changes[i].0 == c.changes[i].0,
        below_name(c, name, showall).root == c.root,
        !showall ==> below_name(c, name, showall).sources == c.sources,
{
}

/// An entry that is not shown counts once, for its own state; one that stays as it is counts
/// as one without a counterpart.
pub proof fn law_hidden_entries_count_once(h: HiddenStateCounts, state: EntryState)
    requires
        hidden_total(h) < usize::MAX,
    ensures
        ({
            let r = with_hidden(h, state);
            &&& hidden_total(r) == hidden_total(h) + 1
            &&& state is Added <==> r.new_count == h.new_count + 1
            &&& state is Removed <==> r.deleted_count == h.deleted_count + 1
            &&& state is Identical <==> r.identical_count == h.identical_count + 1
            &&& state is Modified || state is Replaced <==> r.modified_count == h.modified_count + 1
            &&& state is Uncollided || state is Unchanged <==> r.uncollided_count
                == h.uncollided_count + 1
        }),
{
}

/// Something is said of entries that are not shown exactly where there are any, one phrase
/// for each state that has some.
pub proof fn law_hidden_entries_are_told(h: HiddenStateCounts, combine: bool)
    ensures
        hidden_summary(h, combine) is None <==> hidden_total(h) == 0,
        !combine ==> hidden_phrases(h, combine).len() == (if h.new_count > 0 {
            1int
        } else {
            0
        }) + (if h.modified_count > 0 {
            1int
        } else {
            0
        }) + (if h.identical_count > 0 {
            1int
        } else {
            0
        }) + (if h.uncollided_count > 0 {
            1int
        } else {
            0
        }) + (if h.deleted_count > 0 {
            1int
        } else {
            0
        }),
        h.new_count > 0 ==> hidden_phrases(h, combine)[0] == text::decimal(h.new_count as nat)
            + " more "@ + "new"@,
        h.deleted_count > 0 ==> hidden_phrases(h, combine).last() == text::decimal(
            h.deleted_count as nat,
        ) + " more "@ + "deleted"@,
        combine && h.identical_count + h.uncollided_count > 0 ==> hidden_phrases(
            h,
            combine,
        ).contains(
            text::decimal((h.identical_count + h.uncollided_count) as nat) + " more "@
                + "identical/uncollided"@,
        ),
{
    let all = hidden_phrases(h, combine);
    if combine && h.identical_count + h.uncollided_count > 0 {
        let first = count_phrase(h.new_count as int, "new"@) + count_phrase(
            h.modified_count as int,
            "modified"@,
        );
        assert(all[first.len() as int] == text::decimal(
            (h.identical_count + h.uncollided_count) as nat,
        ) + " more "@ + "identical/uncollided"@);
    }
}

/// A directory that a move takes away is shown below the root with a slash, and only where
/// it lies below it.
pub proof fn law_removed_sources_lie_below_the_root(source: Seq<char>, root: Seq<char>)
    ensures
        !paths::under(source, root) ==> removed_source(source, root) is None,
        removed_source(source, root) matches Some(rel) ==> rel.last() == '/',
        paths::same_path(source, root) ==> removed_source(source, root) is None,
{
    if paths::same_path(source, root) {
        assert(paths::below(source, root) =~= Seq::empty());
    }
}

/// From the directory of a backup a preview has that directory as its root and every change
/// that it had; without all entries shown nothing else differs.
pub proof fn law_backups_are_shown_in_their_directory(
    c: ContentsModel,
    directory: Seq<char>,
    showall: bool,
    i: int,
)
    requires
        directory.len() > 0,
        0 <= i < c.changes.len(),
    ensures
        ({
            let r = from_backup_directory(c, directory, showall);
            &&& r.root == directory + seq!['/']
            &&& r.changes.len() == c.changes.len()
            &&& r.changes[i].0 == c.changes[i].0
            &&& !showall || paths::last_name(c.root) is None ==> r.changes == c.changes && r.sources
                == c.sources
        }),
{
    assert(directory.push('/') == directory + seq!['/']);
}

/// A source below the root of a preview is shown as removed under its own path, with a slash
/// behind it; a path that goes up again is not.
pub proof fn law_removed_sources_are_shown(source: Seq<char>, root: Seq<char>)
    requires
        paths::under(source, root),
    ensures
        ({
            let rel = text::joined(paths::below(source, root), "/"@);
            &&& rel == "."@ || rel == ".."@ || text::begins(rel, "../"@) ==> removed_source(
                source,
                root,
            ) is None
            &&& rel.len() > 0 && rel != "."@ && rel != ".."@ && !text::begins(rel, "../"@)
                && rel.last() != '/' ==> removed_source(source, root) == Some(rel + seq!['/'])
        }),
{
    let rel = text::joined(paths::below(source, root), "/"@);
    assert(rel.push('/') == rel + seq!['/']);
}

} // verus!
