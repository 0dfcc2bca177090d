//! The set of changed paths that a preview shows.

use crate::domain::{ChangeItem, ChangeKind};
use crate::paths;
use crate::table;
use crate::text;
use rustc_hash::FxHashMap;
use vstd::prelude::*;

verus! {

/// The kind that stands for a change below a directory of the preview's
/// greatest depth.
pub open spec fn bounded_kind(kind: ChangeKind) -> ChangeKind {
    match kind {
        ChangeKind::NewFile => ChangeKind::NewDir,
        ChangeKind::RemovedFile => ChangeKind::RemovedDir,
        other => other,
    }
}

/// A change as a preview of limited depth shows it: a deeper path is replaced
/// by its ancestor at that depth.
pub open spec fn bounded_change(rel: Seq<char>, kind: ChangeKind, depth: Option<usize>) -> (
    Seq<char>,
    ChangeKind,
) {
    let parts = text::split_on(text::trim_end_char(rel, '/'), '/');
    if depth is None || depth->0 == 0 || parts.len() <= depth->0 {
        (rel, kind)
    } else {
        (text::joined(parts.take(depth->0 as int), "/"@).push('/'), bounded_kind(kind))
    }
}

/// Limits a change to a depth.
pub fn bounded_preview_change(rel: String, kind: ChangeKind, depth: Option<usize>) -> (r: (
    String,
    ChangeKind,
))
    ensures
        (r.0@, r.1) == bounded_change(rel@, kind, depth),
{
    let depth: usize = match depth {
        Some(depth) => depth,
        None => 0,
    };
    if depth == 0 {
        return (rel, kind);
    }
    let chars = text::to_chars(rel.as_str());
    let trimmed = text::trim_end(chars.as_slice(), '/');
    let parts = text::split(trimmed.as_slice(), '/');
    let ghost all = text::rows(parts@);
    if parts.len() <= depth {
        return (rel, kind);
    }
    let head = paths::between(parts.as_slice(), 0, depth);
    assert(all.subrange(0, depth as int) == all.take(depth as int));
    let slash = text::to_chars("/");
    let mut bounded = text::from_chars(
        text::join(head.as_slice(), slash.as_slice()).as_slice(),
    );
    bounded.push('/');
    let kind = match kind {
        ChangeKind::NewFile => ChangeKind::NewDir,
        ChangeKind::RemovedFile => ChangeKind::RemovedDir,
        other => other,
    };
    (bounded, kind)
}

/// A change is at most `depth` names deep once it is limited to `depth`.
pub proof fn law_bounded_change_is_shallow(rel: Seq<char>, kind: ChangeKind, depth: usize)
    requires
        depth > 0,
    ensures
        ({
            let shown = bounded_change(rel, kind, Some(depth)).0;
            text::split_on(text::trim_end_char(shown, '/'), '/').len() <= depth
        }),
{
    let parts = text::split_on(text::trim_end_char(rel, '/'), '/');
    if parts.len() > depth {
        let head = parts.take(depth as int);
        let joined = text::joined(head, "/"@);
        lemma_pieces_have_no_separator(text::trim_end_char(rel, '/'), '/');
        assert forall|i: int| 0 <= i < head.len() implies !(#[trigger] head[i]).contains('/') by {
            assert(head[i] == parts[i]);
        }
        lemma_split_joined(head);
        assert(joined.push('/').drop_last() == joined);
        assert(text::trim_end_char(joined.push('/'), '/') == text::trim_end_char(joined, '/'));
        lemma_trim_shortens_split(joined);
    }
}

/// The pieces that a split yields do not hold the separator.
pub proof fn lemma_pieces_have_no_separator(s: Seq<char>, c: char)
    ensures
        forall|i: int| 0 <= i < text::split_on(s, c).len() ==> !(#[trigger] text::split_on(
            s,
            c,
        )[i]).contains(c),
    decreases s.len(),
{
    text::lemma_split_on_nonempty(s, c);
    if s.len() > 0 {
        let before = text::split_on(s.drop_last(), c);
        lemma_pieces_have_no_separator(s.drop_last(), c);
        text::lemma_split_on_nonempty(s.drop_last(), c);
        let all = text::split_on(s, c);
        assert forall|i: int| 0 <= i < all.len() implies !(#[trigger] all[i]).contains(c) by {
            if s.last() == c {
                if i < before.len() {
                    assert(all[i] == before[i]);
                }
            } else if i < before.len() - 1 {
                assert(all[i] == before[i]);
            } else {
                assert(!before[before.len() - 1].contains(c));
                assert(all[i] == before.last().push(s.last()));
                if all[i].contains(c) {
                    let k = choose|k: int| 0 <= k < all[i].len() && all[i][k] == c;
                    if k < before.last().len() {
                        assert(before.last()[k] == c);
                    }
                }
            }
        }
    }
}

/// Appending text without the separator extends the last piece.
pub proof fn lemma_split_append(s: Seq<char>, t: Seq<char>, c: char)
    requires
        !t.contains(c),
    ensures
        text::split_on(s + t, c) == text::split_on(s, c).drop_last().push(
            text::split_on(s, c).last() + t,
        ),
    decreases t.len(),
{
    let base = text::split_on(s, c);
    text::lemma_split_on_nonempty(s, c);
    if t.len() == 0 {
        assert(s + t == s);
        assert(base.last() + t == base.last());
        assert(base.drop_last().push(base.last()) == base);
    } else {
        let u = t.drop_last();
        assert(!u.contains(c)) by {
            if u.contains(c) {
                let k = choose|k: int| 0 <= k < u.len() && u[k] == c;
                assert(t[k] == c);
            }
        }
        lemma_split_append(s, u, c);
        assert((s + t).drop_last() == s + u);
        assert(t.contains(t.last()));
        assert((base.last() + u).push(t.last()) == base.last() + t);
    }
}

/// Joining pieces without slashes and splitting again gives them back.
pub proof fn lemma_split_joined(parts: Seq<Seq<char>>)
    requires
        parts.len() > 0,
        forall|i: int| 0 <= i < parts.len() ==> !(#[trigger] parts[i]).contains('/'),
    ensures
        text::split_on(text::joined(parts, "/"@), '/') == parts,
    decreases parts.len(),
{
    reveal_strlit("/");
    let last = parts.last();
    assert(!parts[parts.len() - 1].contains('/'));
    if parts.len() == 1 {
        lemma_split_append(Seq::empty(), last, '/');
        assert(Seq::<char>::empty() + last == last);
        assert(text::split_on(last, '/') == parts);
    } else {
        let front = parts.drop_last();
        assert forall|i: int| 0 <= i < front.len() implies !(#[trigger] front[i]).contains('/') by {
            assert(front[i] == parts[i]);
        }
        lemma_split_joined(front);
        let head = text::joined(front, "/"@);
        let with = head.push('/');
        assert(head + "/"@ == with);
        assert(with.drop_last() == head);
        assert(text::split_on(with, '/') == front.push(Seq::empty()));
        lemma_split_append(with, last, '/');
        assert(front.push(Seq::empty()).drop_last() == front);
        assert(Seq::<char>::empty() + last == last);
        assert(front.push(last) == parts);
    }
}

proof fn lemma_trim_shortens_split(s: Seq<char>)
    ensures
        text::split_on(text::trim_end_char(s, '/'), '/').len() <= text::split_on(s, '/').len(),
    decreases s.len(),
{
    if s.len() > 0 && s.last() == '/' {
        lemma_trim_shortens_split(s.drop_last());
    }
}

/// The changes after one more: a path that is already there changes only when
/// the new change is a modification.
pub open spec fn with_change(
    changes: Map<Seq<char>, ChangeKind>,
    rel: Seq<char>,
    kind: ChangeKind,
    depth: Option<usize>,
) -> Map<Seq<char>, ChangeKind> {
    let shown = bounded_change(rel, kind, depth);
    if changes.contains_key(shown.0) && shown.1 != ChangeKind::ModFile {
        changes
    } else {
        changes.insert(shown.0, shown.1)
    }
}

/// Changed paths, each with the kind of its change.
pub struct ChangeMap {
    items: Vec<ChangeItem>,
    positions: FxHashMap<String, usize>,
}

impl View for ChangeMap {
    type V = Map<Seq<char>, ChangeKind>;

    closed spec fn view(&self) -> Map<Seq<char>, ChangeKind> {
        Map::new(
            |k: Seq<char>| table::names_in(self.positions).contains_key(k),
            |k: Seq<char>| self.items@[table::names_in(self.positions)[k] as int].kind,
        )
    }
}

/// `items` lists each path of `changes` once, with its kind.
pub open spec fn lists(items: Seq<ChangeItem>, changes: Map<Seq<char>, ChangeKind>) -> bool {
    &&& forall|i: int|
        0 <= i < items.len() ==> changes.contains_key(#[trigger] items[i].rel@)
            && changes[items[i].rel@] == items[i].kind
    &&& forall|k: Seq<char>| #[trigger]
        changes.contains_key(k) ==> exists|i: int|
            0 <= i < items.len() && #[trigger] items[i].rel@ == k
    &&& forall|i: int, j: int|
        0 <= i < j < items.len() ==> #[trigger] items[i].rel@ != #[trigger] items[j].rel@
}

impl ChangeMap {
    /// The table and the list agree.
    pub closed spec fn wf(&self) -> bool {
        let names = table::names_in(self.positions);
        &&& forall|i: int|
            0 <= i < self.items@.len() ==> names.contains_key(#[trigger] self.items@[i].rel@)
                && names[self.items@[i].rel@] == i
        &&& forall|k: Seq<char>| #[trigger]
            names.contains_key(k) ==> names[k] < self.items@.len() && self.items@[names[k] as int].rel@
                == k
    }

    /// No changes.
    pub fn new() -> (r: ChangeMap)
        ensures
            r.wf(),
            r@ == Map::<Seq<char>, ChangeKind>::empty(),
    {
        let r = ChangeMap { items: Vec::new(), positions: table::new_names() };
        assert(r@ == Map::<Seq<char>, ChangeKind>::empty());
        r
    }

    /// Sets the kind of a path.
    pub fn set(&mut self, rel: String, kind: ChangeKind)
        requires
            old(self).wf(),
        ensures
            final(self).wf(),
            final(self)@ == old(self)@.insert(rel@, kind),
    {
        match table::name_position(&self.positions, rel.as_str()) {
            Some(i) => {
                let ghost name = self.items@[i as int].rel@;
                let item = ChangeItem { kind, rel };
                self.items.set(i, item);
                assert(name == rel@);
                assert(self@ == old(self)@.insert(rel@, kind));
            },
            None => {
                let position: usize = self.items.len();
                table::put_name(&mut self.positions, rel.clone(), position);
                self.items.push(ChangeItem { kind, rel });
                assert(self@ == old(self)@.insert(rel@, kind));
            },
        }
    }

    /// Whether a path is among the changes.
    pub fn has(&self, rel: &str) -> (r: bool)
        ensures
            r == self@.contains_key(rel@),
    {
        table::name_position(&self.positions, rel).is_some()
    }

    /// Whether there is no change.
    pub fn is_empty(&self) -> (r: bool)
        requires
            self.wf(),
        ensures
            r == (self@.dom() == Set::<Seq<char>>::empty()),
    {
        proof {
            if self.items@.len() == 0 {
                assert(self@.dom() == Set::<Seq<char>>::empty());
            } else {
                assert(self@.dom().contains(self.items@[0].rel@));
            }
        }
        self.items.len() == 0
    }

    /// Adds all changes of another map; they replace what is there.
    pub fn extend(&mut self, other: ChangeMap)
        requires
            old(self).wf(),
            other.wf(),
        ensures
            final(self).wf(),
            final(self)@ == old(self)@.union_prefer_right(other@),
    {
        let ghost all = other.items@;
        let mut items = other.items;
        let ghost mut n: int = all.len() as int;
        let ghost start = self@;
        assert(self@ == start.union_prefer_right(
            Map::new(|k: Seq<char>| false, |k: Seq<char>| other@[k]),
        ));
        while items.len() > 0
            invariant
                0 <= n <= all.len(),
                items@ == all.take(n),
                all == other.items@,
                other.wf(),
                self.wf(),
                forall|k: Seq<char>| #[trigger]
                    self@.contains_key(k) <==> start.contains_key(k) || exists|i: int|
                        n <= i < all.len() && #[trigger] all[i].rel@ == k,
                forall|i: int|
                    n <= i < all.len() ==> self@.contains_key(#[trigger] all[i].rel@)
                        && self@[all[i].rel@] == all[i].kind,
                forall|k: Seq<char>| #[trigger]
                    self@.contains_key(k) && !(exists|i: int|
                        n <= i < all.len() && #[trigger] all[i].rel@ == k) ==> self@[k] == start[k],
            decreases items@.len(),
        {
            let ghost before = self@;
            let item = items.pop().unwrap();
            proof {
                n = n - 1;
            }
            assert(item == all[n]);
            let ghost name = item.rel@;
            self.set(item.rel, item.kind);
            assert forall|k: Seq<char>| #[trigger] self@.contains_key(k) <==> start.contains_key(k)
                || exists|i: int| n <= i < all.len() && #[trigger] all[i].rel@ == k by {
                if k == name {
                    assert(all[n].rel@ == k);
                }
            }
            assert forall|i: int| n <= i < all.len() implies self@.contains_key(
                #[trigger] all[i].rel@,
            ) && self@[all[i].rel@] == all[i].kind by {
                if i > n {
                    assert(all[i].rel@ != all[n].rel@);
                }
            }
            assert forall|k: Seq<char>| #[trigger]
                self@.contains_key(k) && !(exists|i: int|
                    n <= i < all.len() && #[trigger] all[i].rel@ == k) implies self@[k]
                == start[k] by {
                assert(all[n].rel@ != k);
                assert(before.contains_key(k));
                if exists|i: int| n + 1 <= i < all.len() && #[trigger] all[i].rel@ == k {
                    let i = choose|i: int| n + 1 <= i < all.len() && #[trigger] all[i].rel@ == k;
                    assert(all[i].rel@ == k);
                }
            }
        }
        assert forall|k: Seq<char>| #[trigger] other@.contains_key(k) implies exists|i: int|
            0 <= i < all.len() && #[trigger] all[i].rel@ == k by {
            assert(all[table::names_in(other.positions)[k] as int].rel@ == k);
        }
        assert(self@ == start.union_prefer_right(other@));
    }

    /// The changes as a list.
    pub fn into_items(self) -> (r: Vec<ChangeItem>)
        requires
            self.wf(),
        ensures
            lists(r@, self@),
    {
        proof {
            assert forall|k: Seq<char>| #[trigger] self@.contains_key(k) implies exists|i: int|
                0 <= i < self.items@.len() && #[trigger] self.items@[i].rel@ == k by {
                assert(self.items@[table::names_in(self.positions)[k] as int].rel@ == k);
            }
        }
        self.items
    }
}

/// Records a change.
pub fn insert_preview_change(
    changes: &mut ChangeMap,
    rel: String,
    kind: ChangeKind,
    depth: Option<usize>,
)
    requires
        old(changes).wf(),
    ensures
        final(changes).wf(),
        final(changes)@ == with_change(old(changes)@, rel@, kind, depth),
{
    let (rel, kind) = bounded_preview_change(rel, kind, depth);
    let modified = match kind {
        ChangeKind::ModFile => true,
        _ => false,
    };
    if !changes.has(rel.as_str()) || modified {
        changes.set(rel, kind);
    }
}

/// Once a path counts as modified, no further change alters that.
pub proof fn law_modified_stays_modified(
    changes: Map<Seq<char>, ChangeKind>,
    rel: Seq<char>,
    kind: ChangeKind,
    depth: Option<usize>,
    path: Seq<char>,
)
    requires
        changes.contains_key(path),
        changes[path] == ChangeKind::ModFile,
    ensures
        with_change(changes, rel, kind, depth).contains_key(path),
        with_change(changes, rel, kind, depth)[path] == ChangeKind::ModFile,
{
}

/// A path among the changes is in their list, with its kind.
pub proof fn lemma_listed_change(
    items: Seq<ChangeItem>,
    changes: Map<Seq<char>, ChangeKind>,
    path: Seq<char>,
)
    requires
        lists(items, changes),
        changes.contains_key(path),
    ensures
        exists|k: int|
            0 <= k < items.len() && (#[trigger] items[k]).rel@ == path && items[k].kind
                == changes[path],
{
    let k = choose|i: int| 0 <= i < items.len() && #[trigger] items[i].rel@ == path;
    assert(items[k].rel@ == path);
}

/// Without a limit a change is recorded under its own path and kind: one that is there
/// already gives way only to a modification, and no other path is touched.
pub proof fn law_changes_are_recorded(
    changes: Map<Seq<char>, ChangeKind>,
    rel: Seq<char>,
    kind: ChangeKind,
    other: Seq<char>,
)
    ensures
        ({
            let after = with_change(changes, rel, kind, None);
            &&& after.contains_key(rel)
            &&& !changes.contains_key(rel) ==> after[rel] == kind
            &&& changes.contains_key(rel) && kind != ChangeKind::ModFile ==> after[rel]
                == changes[rel]
            &&& kind == ChangeKind::ModFile ==> after[rel] == ChangeKind::ModFile
            &&& other != rel ==> (after.contains_key(other) <==> changes.contains_key(other))
            &&& other != rel && changes.contains_key(other) ==> after[other] == changes[other]
        }),
{
}

/// A path of no more names than the limit is shown as it is; a deeper one is shown as a
/// directory: what is new below it as new, what is removed as removed, and what is modified
/// as modified.
pub proof fn law_only_deeper_changes_are_limited(rel: Seq<char>, kind: ChangeKind, depth: usize)
    requires
        depth > 0,
    ensures
        ({
            let names = text::split_on(text::trim_end_char(rel, '/'), '/').len();
            let r = bounded_change(rel, kind, Some(depth));
            &&& names <= depth ==> r == (rel, kind)
            &&& names > depth ==> r.0.last() == '/'
            &&& names > depth && kind is NewFile ==> r.1 is NewDir
            &&& names > depth && kind is RemovedFile ==> r.1 is RemovedDir
            &&& kind is ModFile || kind is NewDir || kind is RemovedDir ==> r.1 == kind
        }),
{
}

} // verus!
