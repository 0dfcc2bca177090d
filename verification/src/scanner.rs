//! Plans built from what a walk of the source and of the destination found.

use crate::order;
use crate::paths;
use crate::table::{self, NameSet};
use crate::text;
use rustc_hash::FxHashMap;
use vstd::prelude::*;

verus! {

/// What a walk found at a path.
#[derive(Clone, Copy, Debug, PartialEq, Eq, Structural)]
pub enum WalkKind {
    File,
    Dir,
    Symlink,
    /// Neither a file, a directory nor a symbolic link.
    Other,
    /// The entry's metadata could not be read.
    Unreadable,
}

/// One entry of a walk. Times are in nanoseconds since the epoch; the size,
/// device, inode and times are zero or absent where they could not be read.
pub struct WalkedEntry {
    /// The text of the path relative to the walk's root, with single slashes. It
    /// stands for the path byte for byte, see `names`.
    pub rel: String,
    /// Whether the path is known as text; where not, `rel` is empty.
    pub utf8: bool,
    pub depth: usize,
    pub kind: WalkKind,
    pub size: u64,
    pub dev: u64,
    pub ino: u64,
    pub nlink: u64,
    pub mtime: Option<i128>,
    /// The times to restore on a directory.
    pub restore_atime: i128,
    pub restore_mtime: i128,
    pub link_target: Option<String>,
}

/// Counts of a tree's entries.
#[derive(Clone, Copy, Debug, PartialEq, Eq, Structural)]
pub struct TreeCounts {
    pub files: u64,
    pub bytes: u64,
    pub dirs: u64,
}

/// Counts with one more entry.
pub open spec fn counted(c: TreeCounts, e: WalkedEntry) -> TreeCounts {
    if e.depth == 0 {
        c
    } else {
        match e.kind {
            WalkKind::Dir => TreeCounts { dirs: crate::domain::sat_add(c.dirs, 1), ..c },
            WalkKind::File => TreeCounts {
                files: crate::domain::sat_add(c.files, 1),
                bytes: crate::domain::sat_add(c.bytes, e.size),
                ..c
            },
            _ => c,
        }
    }
}

/// The counts of the entries below a root.
pub open spec fn tree_counts(walked: Seq<WalkedEntry>, start: TreeCounts) -> TreeCounts
    decreases walked.len(),
{
    if walked.len() == 0 {
        start
    } else {
        counted(tree_counts(walked.drop_last(), start), walked.last())
    }
}

/// Counts what lies at a path. `root` is the kind and size of the path itself,
/// where it could be read; `walked` what a walk below it found.
pub fn count_tree_any(
    root: Option<(WalkKind, u64)>,
    walked: &[WalkedEntry],
    include_root_dir: bool,
) -> (r: TreeCounts)
    ensures
        r == (match root {
            Some((WalkKind::File, size)) => TreeCounts { files: 1, bytes: size, dirs: 0 },
            Some((WalkKind::Dir, _)) => tree_counts(
                walked@,
                TreeCounts {
                    files: 0,
                    bytes: 0,
                    dirs: if include_root_dir {
                        1
                    } else {
                        0
                    },
                },
            ),
            _ => TreeCounts { files: 0, bytes: 0, dirs: 0 },
        }),
{
    match root {
        Some((WalkKind::File, size)) => TreeCounts { files: 1, bytes: size, dirs: 0 },
        Some((WalkKind::Dir, _)) => {
            let start = TreeCounts {
                files: 0,
                bytes: 0,
                dirs: if include_root_dir {
                    1
                } else {
                    0
                },
            };
            let mut counts = start;
            let mut i: usize = 0;
            assert(walked@.take(0) == Seq::<WalkedEntry>::empty());
            while i < walked.len()
                invariant
                    i <= walked@.len(),
                    counts == tree_counts(walked@.take(i as int), start),
                decreases walked@.len() - i,
            {
                assert(walked@.take(i + 1).drop_last() == walked@.take(i as int));
                let entry = &walked[i];
                if entry.depth > 0 {
                    match entry.kind {
                        WalkKind::Dir => {
                            counts.dirs = counts.dirs.saturating_add(1);
                        },
                        WalkKind::File => {
                            counts.files = counts.files.saturating_add(1);
                            counts.bytes = counts.bytes.saturating_add(entry.size);
                        },
                        _ => {},
                    }
                }
                i = i + 1;
            }
            assert(walked@.take(walked@.len() as int) == walked@);
            counts
        },
        _ => TreeCounts { files: 0, bytes: 0, dirs: 0 },
    }
}

/// What stands at a destination path.
#[derive(Clone, Copy, Debug, PartialEq, Eq, Structural)]
pub enum DestinationKind {
    Regular,
    Directory,
    Symlink,
}

/// One entry of the destination.
pub struct DestinationEntry {
    pub rel: String,
    pub kind: DestinationKind,
    pub size: u64,
    pub dev: u64,
    pub ino: u64,
    pub mtime: Option<i128>,
    pub link_target: Option<String>,
}

/// The destination's entries by relative path.
pub struct DestinationIndex {
    entries: Vec<DestinationEntry>,
    positions: FxHashMap<String, usize>,
    complete: bool,
}

impl View for DestinationIndex {
    type V = Map<Seq<char>, DestinationEntry>;

    closed spec fn view(&self) -> Map<Seq<char>, DestinationEntry> {
        Map::new(
            |k: Seq<char>| table::names_in(self.positions).contains_key(k),
            |k: Seq<char>| self.entries@[table::names_in(self.positions)[k] as int],
        )
    }
}

/// The index after a walk's entry, and whether the entry could be indexed.
pub open spec fn index_step(
    entries: Map<Seq<char>, DestinationEntry>,
    walked: Option<WalkedEntry>,
) -> (Map<Seq<char>, DestinationEntry>, bool) {
    match walked {
        None => (entries, false),
        Some(e) => if e.rel@.len() == 0 {
            (entries, e.depth == 0 || e.utf8)
        } else {
            match e.kind {
                WalkKind::File => (
                    entries.insert(
                        e.rel@,
                        DestinationEntry {
                            rel: e.rel,
                            kind: DestinationKind::Regular,
                            size: e.size,
                            dev: e.dev,
                            ino: e.ino,
                            mtime: e.mtime,
                            link_target: None,
                        },
                    ),
                    true,
                ),
                WalkKind::Dir => if e.depth > 0 {
                    (
                        entries.insert(
                            e.rel@,
                            DestinationEntry {
                                rel: e.rel,
                                kind: DestinationKind::Directory,
                                size: 0,
                                dev: e.dev,
                                ino: e.ino,
                                mtime: e.mtime,
                                link_target: None,
                            },
                        ),
                        true,
                    )
                } else {
                    (entries, false)
                },
                WalkKind::Symlink => (
                    entries.insert(
                        e.rel@,
                        DestinationEntry {
                            rel: e.rel,
                            kind: DestinationKind::Symlink,
                            size: 0,
                            dev: 0,
                            ino: 0,
                            mtime: None,
                            link_target: e.link_target,
                        },
                    ),
                    true,
                ),
                _ => (entries, false),
            }
        },
    }
}

/// The index of a walk, and whether all of it could be indexed.
pub open spec fn indexed(walked: Seq<Option<WalkedEntry>>) -> (
    Map<Seq<char>, DestinationEntry>,
    bool,
)
    decreases walked.len(),
{
    if walked.len() == 0 {
        (Map::empty(), true)
    } else {
        let before = indexed(walked.drop_last());
        let step = index_step(before.0, walked.last());
        (step.0, before.1 && step.1)
    }
}

impl DestinationIndex {
    /// The entries, each path once, in the order in which the paths came.
    pub closed spec fn listed(&self) -> Seq<DestinationEntry> {
        self.entries@
    }

    /// Whether the walk found everything there is.
    pub closed spec fn whole(&self) -> bool {
        self.complete
    }

    /// The table and the list agree.
    pub closed spec fn wf(&self) -> bool {
        let names = table::names_in(self.positions);
        &&& forall|i: int|
            0 <= i < self.entries@.len() ==> names.contains_key(#[trigger] self.entries@[i].rel@)
                && names[self.entries@[i].rel@] == i
        &&& forall|k: Seq<char>| #[trigger]
            names.contains_key(k) ==> names[k] < self.entries@.len() && self.entries@[names[k] as int].rel@
                == k
    }

    /// What the list has to do with the map.
    pub proof fn lemma_listed(&self)
        requires
            self.wf(),
        ensures
            forall|i: int|
                #![trigger self.listed()[i]]
                0 <= i < self.listed().len() ==> self@.contains_key(self.listed()[i].rel@)
                    && self@[self.listed()[i].rel@] == self.listed()[i],
            forall|i: int, j: int|
                #![trigger self.listed()[i], self.listed()[j]]
                0 <= i < j < self.listed().len() ==> self.listed()[i].rel@
                    != self.listed()[j].rel@,
            forall|k: Seq<char>| #[trigger]
                self@.contains_key(k) ==> self@[k].rel@ == k && self.listed().contains(self@[k]),
    {
        assert forall|i: int|
            #![trigger self.listed()[i]]
            0 <= i < self.listed().len() implies self@.contains_key(self.listed()[i].rel@)
            && self@[self.listed()[i].rel@] == self.listed()[i] by {
            assert(self.entries@[i].rel@ == self.listed()[i].rel@);
        }
        assert forall|i: int, j: int|
            #![trigger self.listed()[i], self.listed()[j]]
            0 <= i < j < self.listed().len() implies self.listed()[i].rel@
            != self.listed()[j].rel@ by {
            assert(self.entries@[i].rel@ == self.listed()[i].rel@);
            assert(self.entries@[j].rel@ == self.listed()[j].rel@);
        }
        assert forall|k: Seq<char>| #[trigger] self@.contains_key(k) implies self@[k].rel@ == k
            && self.listed().contains(self@[k]) by {
            let i = table::names_in(self.positions)[k] as int;
            assert(self.entries@[i].rel@ == k);
            assert(self.listed()[i] == self@[k]);
        }
    }

    /// The index of a destination that holds nothing.
    pub fn empty() -> (r: DestinationIndex)
        ensures
            r.wf(),
            r@ == Map::<Seq<char>, DestinationEntry>::empty(),
            r.whole(),
    {
        let r = DestinationIndex {
            entries: Vec::new(),
            positions: table::new_names(),
            complete: true,
        };
        assert(r@ == Map::<Seq<char>, DestinationEntry>::empty());
        r
    }

    fn put(&mut self, entry: DestinationEntry)
        requires
            old(self).wf(),
        ensures
            final(self).wf(),
            final(self)@ == old(self)@.insert(entry.rel@, entry),
            final(self).whole() == old(self).whole(),
    {
        match table::name_position(&self.positions, entry.rel.as_str()) {
            Some(i) => {
                self.entries.set(i, entry);
                assert(self@ == old(self)@.insert(entry.rel@, entry));
            },
            None => {
                let position: usize = self.entries.len();
                table::put_name(&mut self.positions, entry.rel.clone(), position);
                self.entries.push(entry);
                assert(self@ == old(self)@.insert(entry.rel@, entry));
            },
        }
    }

    /// Whether something stands at a path.
    pub fn path_exists(&self, rel: &str) -> (r: bool)
        ensures
            r == self@.contains_key(rel@),
    {
        table::name_position(&self.positions, rel).is_some()
    }

    /// The entry at a path.
    pub fn get(&self, rel: &str) -> (r: Option<&DestinationEntry>)
        requires
            self.wf(),
        ensures
            match r {
                Some(e) => self@.contains_key(rel@) && self@[rel@] == *e,
                None => !self@.contains_key(rel@),
            },
    {
        match table::name_position(&self.positions, rel) {
            Some(i) => Some(&self.entries[i]),
            None => None,
        }
    }

    /// Whether the walk found everything there is.
    pub fn is_complete(&self) -> (r: bool)
        ensures
            r == self.whole(),
    {
        self.complete
    }

    /// How many entries are of a kind.
    pub fn count_kind(&self, kind: DestinationKind) -> (r: u64)
        ensures
            r == self.listed().filter(|e: DestinationEntry| e.kind == kind).len(),
    {
        let ghost f = |e: DestinationEntry| e.kind == kind;
        let mut n: u64 = 0;
        let mut i: usize = 0;
        assert(self.entries@.take(0).filter(f).len() == 0) by {
            reveal(Seq::filter);
        }
        while i < self.entries.len()
            invariant
                i <= self.entries@.len(),
                f == (|e: DestinationEntry| e.kind == kind),
                n == self.entries@.take(i as int).filter(f).len(),
                n <= i,
            decreases self.entries@.len() - i,
        {
            proof {
                lemma_filter_step(self.entries@, i as int, f);
            }
            if self.entries[i].kind == kind {
                n = n + 1;
            }
            i = i + 1;
        }
        assert(self.entries@.take(self.entries@.len() as int) == self.entries@);
        n
    }

    /// How many entries of a kind have a path outside a set.
    pub fn count_kind_outside(&self, kind: DestinationKind, names: &NameSet) -> (r: u64)
        ensures
            r == self.listed().filter(
                |e: DestinationEntry| e.kind == kind && !names@.contains(e.rel@),
            ).len(),
    {
        let ghost f = |e: DestinationEntry| e.kind == kind && !names@.contains(e.rel@);
        let mut n: u64 = 0;
        let mut i: usize = 0;
        assert(self.entries@.take(0).filter(f).len() == 0) by {
            reveal(Seq::filter);
        }
        while i < self.entries.len()
            invariant
                i <= self.entries@.len(),
                f == (|e: DestinationEntry| e.kind == kind && !names@.contains(e.rel@)),
                n == self.entries@.take(i as int).filter(f).len(),
                n <= i,
            decreases self.entries@.len() - i,
        {
            proof {
                lemma_filter_step(self.entries@, i as int, f);
            }
            let entry = &self.entries[i];
            if entry.kind == kind && !names.contains(entry.rel.as_str()) {
                n = n + 1;
            }
            i = i + 1;
        }
        assert(self.entries@.take(self.entries@.len() as int) == self.entries@);
        n
    }

    /// The number of entries.
    pub fn len(&self) -> (r: usize)
        ensures
            r == self.listed().len(),
    {
        self.entries.len()
    }

    /// The entry that came at position `i`.
    pub fn entry(&self, i: usize) -> (r: &DestinationEntry)
        requires
            i < self.listed().len(),
        ensures
            *r == self.listed()[i as int],
    {
        &self.entries[i]
    }
}

/// Filtering one item more.
pub proof fn lemma_filter_step<T>(s: Seq<T>, i: int, f: spec_fn(T) -> bool)
    requires
        0 <= i < s.len(),
    ensures
        s.take(i + 1).filter(f) == (if f(s[i]) {
            s.take(i).filter(f).push(s[i])
        } else {
            s.take(i).filter(f)
        }),
{
    reveal(Seq::filter);
    assert(s.take(i + 1).drop_last() == s.take(i));
}

/// Indexes a destination from a walk; an absent entry is one that the walk
/// could not read.
pub fn build_destination_index(walked: Vec<Option<WalkedEntry>>) -> (r: DestinationIndex)
    ensures
        r.wf(),
        (r@, r.whole()) == indexed(walked@),
{
    let ghost all = walked@;
    let mut rest = walked;
    order::reverse(&mut rest);
    let mut index = DestinationIndex::empty();
    let ghost mut n: int = 0;
    assert(all.take(0) == Seq::<Option<WalkedEntry>>::empty());
    while rest.len() > 0
        invariant
            0 <= n <= all.len(),
            rest@ == all.skip(n).reverse(),
            index.wf(),
            (index@, index.whole()) == indexed(all.take(n)),
        decreases rest@.len(),
    {
        let item = rest.pop().unwrap();
        proof {
            assert(item == all[n]) by {
                assert(all.skip(n).reverse().last() == all.skip(n)[0]);
            }
            assert(all.take(n + 1).drop_last() == all.take(n));
            assert(all.take(n + 1).last() == item);
            assert(all.skip(n).reverse().drop_last() == all.skip(n + 1).reverse());
            n = n + 1;
        }
        match item {
            None => {
                index.complete = false;
            },
            Some(e) => {
                if e.rel.as_str().is_empty() {
                    if e.depth > 0 && !e.utf8 {
                        index.complete = false;
                    }
                } else {
                    match e.kind {
                        WalkKind::File => {
                            index.put(
                                DestinationEntry {
                                    rel: e.rel,
                                    kind: DestinationKind::Regular,
                                    size: e.size,
                                    dev: e.dev,
                                    ino: e.ino,
                                    mtime: e.mtime,
                                    link_target: None,
                                },
                            );
                        },
                        WalkKind::Dir => {
                            if e.depth > 0 {
                                index.put(
                                    DestinationEntry {
                                        rel: e.rel,
                                        kind: DestinationKind::Directory,
                                        size: 0,
                                        dev: e.dev,
                                        ino: e.ino,
                                        mtime: e.mtime,
                                        link_target: None,
                                    },
                                );
                            } else {
                                index.complete = false;
                            }
                        },
                        WalkKind::Symlink => {
                            index.put(
                                DestinationEntry {
                                    rel: e.rel,
                                    kind: DestinationKind::Symlink,
                                    size: 0,
                                    dev: 0,
                                    ino: 0,
                                    mtime: None,
                                    link_target: e.link_target,
                                },
                            );
                        },
                        _ => {
                            index.complete = false;
                        },
                    }
                }
            },
        }
    }
    assert(all.take(all.len() as int) == all);
    index
}

/// How many regular files the destination holds, and how many of them are not
/// among the source's.
pub fn destination_file_counts(index: &DestinationIndex, source_rel_files: &NameSet) -> (r: (
    u64,
    u64,
))
    ensures
        r.0 == index.listed().filter(|e: DestinationEntry| e.kind == DestinationKind::Regular).len(),
        r.1 == index.listed().filter(
            |e: DestinationEntry|
                e.kind == DestinationKind::Regular && !source_rel_files@.contains(e.rel@),
        ).len(),
{
    (
        index.count_kind(DestinationKind::Regular),
        index.count_kind_outside(DestinationKind::Regular, source_rel_files),
    )
}

/// The directories above a relative path, and the root (the empty path) where
/// it counts.
pub open spec fn parent_chain(rel: Seq<char>, include_root: bool) -> Set<Seq<char>>
    decreases rel.len(),
{
    let root = if include_root {
        set![Seq::<char>::empty()]
    } else {
        Set::empty()
    };
    match paths::rel_parent(rel) {
        Some(p) => if p.len() == 0 || p.len() >= rel.len() {
            root
        } else {
            parent_chain(p, include_root).insert(p)
        },
        None => root,
    }
}

/// The chain of a path that may be empty.
pub open spec fn chain_of(rel: Seq<char>, include_root: bool) -> Set<Seq<char>> {
    if rel.len() == 0 {
        Set::empty()
    } else {
        parent_chain(rel, include_root)
    }
}

/// Adds the directories above a relative path to a set.
pub fn add_parent_dir_chain(rel: &str, include_root: bool, out: &mut NameSet)
    requires
        old(out).wf(),
    ensures
        final(out).wf(),
        final(out)@ == old(out)@.union(chain_of(rel@, include_root)),
{
    if rel.is_empty() {
        assert(out@ == old(out)@.union(chain_of(rel@, include_root)));
        return ;
    }
    let mut cur = text::to_chars(rel);
    let ghost start = out@;
    let ghost whole = parent_chain(rel@, include_root);
    loop
        invariant_except_break
            cur@.len() > 0,
            out.wf(),
            out@.union(parent_chain(cur@, include_root)) == start.union(whole),
        ensures
            out.wf(),
            out@ == start.union(whole),
        decreases cur@.len(),
    {
        match text::rfind(cur.as_slice(), '/') {
            Some(at) => {
                let parent = text::part(cur.as_slice(), 0, at);
                assert(parent@ == cur@.take(at as int));
                let ghost before = out@;
                let ghost chain = parent_chain(cur@, include_root);
                if parent.len() == 0 {
                    if include_root {
                        let _ = out.insert(String::new());
                        assert(Seq::<char>::empty() == parent@);
                    }
                    assert(out@ == before.union(chain));
                    break ;
                }
                let _ = out.insert(text::from_chars(parent.as_slice()));
                assert(out@.union(parent_chain(parent@, include_root)) == before.union(chain));
                cur = parent;
            },
            None => {
                let ghost before = out@;
                if include_root {
                    let _ = out.insert(String::new());
                }
                assert(out@ == before.union(parent_chain(cur@, include_root)));
                break ;
            },
        }
    }
}

/// What a walk of the destination finds at a path is indexed as it was walked: a file with
/// its size, its identity and its time, a directory with its identity, a symbolic link
/// with its target.
pub proof fn law_walked_entries_are_indexed(walked: Seq<Option<WalkedEntry>>, k: int)
    requires
        0 <= k < walked.len(),
        walked[k] is Some,
        walked[k]->0.rel@.len() > 0,
        walked[k]->0.depth > 0,
        forall|j: int|
            0 <= j < walked.len() && j != k && (#[trigger] walked[j]) is Some ==> walked[j]->0.rel@
                != walked[k]->0.rel@,
    ensures
        ({
            let w = walked[k]->0;
            let entries = indexed(walked).0;
            let d = entries[w.rel@];
            &&& w.kind is File || w.kind is Dir || w.kind is Symlink <==> entries.contains_key(
                w.rel@,
            )
            &&& w.kind is File ==> d.kind is Regular && d.size == w.size && d.mtime == w.mtime
                && d.dev == w.dev && d.ino == w.ino && d.rel@ == w.rel@
            &&& w.kind is Dir ==> d.kind is Directory && d.dev == w.dev && d.ino == w.ino
                && d.rel@ == w.rel@
            &&& w.kind is Symlink ==> d.kind is Symlink && d.link_target == w.link_target && d.rel@
                == w.rel@
        }),
    decreases walked.len(),
{
    let front = walked.drop_last();
    let w = walked[k]->0;
    if k < front.len() {
        assert(front[k] == walked[k]);
        assert forall|j: int|
            0 <= j < front.len() && j != k && (#[trigger] front[j]) is Some implies front[j]->0.rel@
            != front[k]->0.rel@ by {
            assert(front[j] == walked[j]);
        }
        law_walked_entries_are_indexed(front, k);
        let last = walked[walked.len() - 1];
        assert(last is Some ==> last->0.rel@ != w.rel@);
    } else {
        lemma_unwalked(front, w.rel@);
    }
}

proof fn lemma_unwalked(walked: Seq<Option<WalkedEntry>>, rel: Seq<char>)
    requires
        forall|j: int|
            0 <= j < walked.len() && (#[trigger] walked[j]) is Some ==> walked[j]->0.rel@ != rel,
    ensures
        !indexed(walked).0.contains_key(rel),
    decreases walked.len(),
{
    if walked.len() > 0 {
        let front = walked.drop_last();
        assert forall|j: int| 0 <= j < front.len() && (#[trigger] front[j]) is Some implies
            front[j]->0.rel@ != rel by {
            assert(front[j] == walked[j]);
        }
        lemma_unwalked(front, rel);
        let last = walked[walked.len() - 1];
        assert(last is Some ==> last->0.rel@ != rel);
    }
}

/// An index holds only what was walked.
pub proof fn law_only_walked_entries_are_indexed(
    walked: Seq<Option<WalkedEntry>>,
    rel: Seq<char>,
)
    requires
        indexed(walked).0.contains_key(rel),
    ensures
        exists|j: int|
            0 <= j < walked.len() && (#[trigger] walked[j]) is Some && walked[j]->0.rel@ == rel,
{
    if forall|j: int|
        0 <= j < walked.len() && (#[trigger] walked[j]) is Some ==> walked[j]->0.rel@ != rel {
        lemma_unwalked(walked, rel);
    }
}

/// A destination of which something could not be read, or that holds something which is no
/// file, directory or symbolic link, is not indexed as a whole.
pub proof fn law_an_index_tells_what_it_missed(walked: Seq<Option<WalkedEntry>>, k: int)
    requires
        0 <= k < walked.len(),
        walked[k] is None || (walked[k]->0.rel@.len() > 0 && (walked[k]->0.kind is Other
            || walked[k]->0.kind is Unreadable)) || (walked[k]->0.rel@.len() == 0
            && walked[k]->0.depth > 0 && !walked[k]->0.utf8),
    ensures
        !indexed(walked).1,
    decreases walked.len(),
{
    let front = walked.drop_last();
    if k < front.len() {
        assert(front[k] == walked[k]);
        law_an_index_tells_what_it_missed(front, k);
    }
}

/// Counting below a root: every file adds itself and its size, every directory itself, the
/// root nothing, and links nothing.
pub proof fn law_every_entry_below_counts(
    walked: Seq<WalkedEntry>,
    start: TreeCounts,
    e: WalkedEntry,
)
    ensures
        ({
            let a = tree_counts(walked, start);
            let b = tree_counts(walked.push(e), start);
            &&& tree_counts(Seq::empty(), start) == start
            &&& e.depth == 0 ==> b == a
            &&& e.depth > 0 && e.kind is File ==> b.dirs == a.dirs
            &&& e.depth > 0 && e.kind is File && a.files < u64::MAX ==> b.files == a.files + 1
            &&& e.depth > 0 && e.kind is File && a.bytes + e.size <= u64::MAX ==> b.bytes == a.bytes
                + e.size
            &&& e.depth > 0 && e.kind is Dir ==> b.files == a.files && b.bytes == a.bytes
            &&& e.depth > 0 && e.kind is Dir && a.dirs < u64::MAX ==> b.dirs == a.dirs + 1
            &&& !(e.kind is File) && !(e.kind is Dir) ==> b == a
        }),
{
    assert(walked.push(e).drop_last() == walked);
}

/// The directories above a path are its parts that end before a slash, and the root where
/// it counts.
pub proof fn law_every_directory_above_is_in_the_chain(
    rel: Seq<char>,
    include_root: bool,
    k: int,
)
    requires
        0 < k < rel.len(),
        rel[k] == '/',
        rel[0] != '/',
    ensures
        chain_of(rel, include_root).contains(rel.take(k)),
    decreases rel.len(),
{
    lemma_last_slash(rel, k);
    let at = text::rfind_char(rel, '/');
    let p = rel.take(at);
    if k < at {
        law_every_directory_above_is_in_the_chain(p, include_root, k);
        assert(p.take(k) == rel.take(k));
    }
}

proof fn lemma_last_slash(s: Seq<char>, k: int)
    requires
        0 <= k < s.len(),
        s[k] == '/',
    ensures
        k <= text::rfind_char(s, '/') < s.len(),
        s[text::rfind_char(s, '/')] == '/',
    decreases s.len(),
{
    if s.last() != '/' {
        lemma_last_slash(s.drop_last(), k);
    }
}

/// Nothing but the directories above a path is in its chain, and the root exactly where it
/// counts.
pub proof fn law_only_directories_above_are_in_the_chain(
    rel: Seq<char>,
    include_root: bool,
    p: Seq<char>,
)
    requires
        chain_of(rel, include_root).contains(p),
    ensures
        p.len() < rel.len(),
        p == rel.take(p.len() as int),
        p.len() > 0 ==> rel[p.len() as int] == '/',
        p.len() == 0 ==> include_root,
    decreases rel.len(),
{
    let at = text::rfind_char(rel, '/');
    lemma_slash_found(rel);
    if at > 0 {
        let q = rel.take(at);
        if p != q {
            law_only_directories_above_are_in_the_chain(q, include_root, p);
            assert(q.take(p.len() as int) == rel.take(p.len() as int));
            if p.len() > 0 {
                assert(q[p.len() as int] == rel[p.len() as int]);
            }
        }
    } else {
        assert(p.len() == 0);
        assert(rel.take(0) == p);
    }
}

proof fn lemma_slash_found(s: Seq<char>)
    ensures
        -1 <= text::rfind_char(s, '/') < s.len(),
        text::rfind_char(s, '/') >= 0 ==> s[text::rfind_char(s, '/')] == '/',
    decreases s.len(),
{
    if s.len() > 0 && s.last() != '/' {
        lemma_slash_found(s.drop_last());
    }
}

/// The root is in the chain of every path exactly where it counts.
pub proof fn law_the_root_is_above_all(rel: Seq<char>, include_root: bool)
    requires
        rel.len() > 0,
    ensures
        chain_of(rel, include_root).contains(Seq::empty()) <==> include_root,
    decreases rel.len(),
{
    let at = text::rfind_char(rel, '/');
    lemma_slash_found(rel);
    if at > 0 {
        law_the_root_is_above_all(rel.take(at), include_root);
        assert(rel.take(at).len() > 0);
    } else if include_root {
        assert(set![Seq::<char>::empty()].contains(Seq::empty()));
    }
}

} // verus!
