//! Moving whole children of a directory by rename before a merge.

use crate::domain;
use crate::order;
use crate::paths;
use crate::prescan::{ManifestDir, ManifestFileEntry, TransferManifest};
use crate::table;
use crate::table::NameSet;
use crate::text;
use rustc_hash::FxHashMap;
use vstd::prelude::*;

verus! {

/// What a pass of plain renames did.
#[derive(Clone, Copy, Debug, PartialEq, Eq, Structural)]
pub struct PreMergeFastRenameStats {
    pub moved_entries: u64,
    pub moved_files: u64,
    pub moved_bytes: u64,
    pub removed_copy_bytes: u64,
}

/// The files of a manifest below one child of the source.
#[derive(Clone, Copy, Debug, PartialEq, Eq, Structural)]
pub struct TopTally {
    pub files: u64,
    pub bytes: u64,
    /// The bytes that were to be copied.
    pub copy_bytes: u64,
}

pub open spec fn no_files() -> TopTally {
    TopTally { files: 0, bytes: 0, copy_bytes: 0 }
}

/// A tally with one file more.
pub open spec fn tally_plus(t: TopTally, size: u64, copied: bool) -> TopTally {
    TopTally {
        files: domain::sat_add(t.files, 1),
        bytes: domain::sat_add(t.bytes, size),
        copy_bytes: if copied {
            domain::sat_add(t.copy_bytes, size)
        } else {
            t.copy_bytes
        },
    }
}

/// A tally with the files below `name` added.
pub open spec fn tally_with(
    t: TopTally,
    files: Seq<ManifestFileEntry>,
    name: Seq<char>,
    copied: bool,
) -> TopTally
    decreases files.len(),
{
    if files.len() == 0 {
        t
    } else {
        let before = tally_with(t, files.drop_last(), name, copied);
        if paths::top_name(files.last().rel@) == Some(name) {
            tally_plus(before, files.last().size, copied)
        } else {
            before
        }
    }
}

/// The tally of a child of the source.
pub open spec fn top_tally(m: TransferManifest, name: Seq<char>) -> TopTally {
    tally_with(
        tally_with(no_files(), m.identical_files@, name, false),
        m.copy_files@,
        name,
        true,
    )
}

/// The tallies of the children of the source.
pub struct TopTallies {
    tallies: Vec<TopTally>,
    positions: FxHashMap<String, usize>,
}

impl TopTallies {
    pub closed spec fn wf(&self) -> bool {
        let names = table::names_in(self.positions);
        &&& forall|k: Seq<char>| #[trigger]
            names.contains_key(k) ==> names[k] < self.tallies@.len()
        &&& forall|a: Seq<char>, b: Seq<char>|
            names.contains_key(a) && names.contains_key(b) && #[trigger] names[a]
                == #[trigger] names[b] ==> a == b
    }

    /// The tally of a child; zero for one without files.
    pub closed spec fn of(&self, name: Seq<char>) -> TopTally {
        let names = table::names_in(self.positions);
        if names.contains_key(name) {
            self.tallies@[names[name] as int]
        } else {
            no_files()
        }
    }

    fn add(&mut self, name: String, size: u64, copied: bool)
        requires
            old(self).wf(),
        ensures
            final(self).wf(),
            forall|k: Seq<char>| #[trigger]
                final(self).of(k) == (if k == name@ {
                    tally_plus(old(self).of(k), size, copied)
                } else {
                    old(self).of(k)
                }),
    {
        let at: usize = match table::name_position(&self.positions, name.as_str()) {
            Some(i) => i,
            None => {
                let i: usize = self.tallies.len();
                table::put_name(&mut self.positions, name, i);
                self.tallies.push(TopTally { files: 0, bytes: 0, copy_bytes: 0 });
                i
            },
        };
        let mut t = self.tallies[at];
        t.files = t.files.saturating_add(1);
        t.bytes = t.bytes.saturating_add(size);
        if copied {
            t.copy_bytes = t.copy_bytes.saturating_add(size);
        }
        self.tallies.set(at, t);
    }

    fn add_all(&mut self, files: &Vec<ManifestFileEntry>, copied: bool)
        requires
            old(self).wf(),
        ensures
            final(self).wf(),
            forall|k: Seq<char>| #[trigger]
                final(self).of(k) == tally_with(old(self).of(k), files@, k, copied),
    {
        let ghost start = *self;
        let mut i: usize = 0;
        assert(files@.take(0) == Seq::<ManifestFileEntry>::empty());
        while i < files.len()
            invariant
                i <= files@.len(),
                self.wf(),
                forall|k: Seq<char>| #[trigger]
                    self.of(k) == tally_with(start.of(k), files@.take(i as int), k, copied),
            decreases files@.len() - i,
        {
            assert(files@.take(i + 1).drop_last() == files@.take(i as int));
            let e = &files[i];
            if let Some(top) = paths::top_level_rel_component(e.rel.as_str()) {
                self.add(top, e.size, copied);
            }
            i = i + 1;
        }
        assert(files@.take(files@.len() as int) == files@);
    }

    /// Tallies the files of a manifest.
    pub fn from_manifest(m: &TransferManifest) -> (r: TopTallies)
        ensures
            r.wf(),
            forall|k: Seq<char>| #[trigger] r.of(k) == top_tally(*m, k),
    {
        let mut r = TopTallies { tallies: Vec::new(), positions: table::new_names() };
        r.add_all(&m.identical_files, false);
        r.add_all(&m.copy_files, true);
        r
    }

    /// The tally of a child.
    pub fn get(&self, name: &str) -> (r: TopTally)
        requires
            self.wf(),
        ensures
            r == self.of(name@),
    {
        match table::name_position(&self.positions, name) {
            Some(i) => self.tallies[i],
            None => TopTally { files: 0, bytes: 0, copy_bytes: 0 },
        }
    }
}

/// Whether a child of the source may be renamed into the destination.
pub open spec fn is_renamable(
    name: &str,
    exclude: Option<&str>,
    source: &str,
    destination: &str,
    destination_exists: bool,
    same_filesystem: bool,
) -> bool {
    !(exclude is Some && exclude->0@ == name@) && !destination_exists
    && !paths::same_path(source@, destination@) && same_filesystem
}

/// Tests whether a child of the source may be renamed into the destination.
pub fn may_rename_child(
    name: &str,
    exclude: Option<&str>,
    source: &str,
    destination: &str,
    destination_exists: bool,
    same_filesystem: bool,
) -> (r: bool)
    ensures
        r == is_renamable(name, exclude, source, destination, destination_exists, same_filesystem),
{
    if let Some(left_out) = exclude {
        if text::equal(left_out, name) {
            return false;
        }
    }
    !destination_exists && !paths::paths_equal(source, destination) && same_filesystem
}

impl PreMergeFastRenameStats {
    /// Nothing moved.
    pub fn none() -> (r: Self)
        ensures
            r == (PreMergeFastRenameStats {
                moved_entries: 0,
                moved_files: 0,
                moved_bytes: 0,
                removed_copy_bytes: 0,
            }),
    {
        PreMergeFastRenameStats {
            moved_entries: 0,
            moved_files: 0,
            moved_bytes: 0,
            removed_copy_bytes: 0,
        }
    }

    /// Counts a child that was renamed.
    pub fn count(&mut self, t: TopTally)
        ensures
            *final(self) == (PreMergeFastRenameStats {
                moved_entries: domain::sat_add(old(self).moved_entries, 1),
                moved_files: domain::sat_add(old(self).moved_files, t.files),
                moved_bytes: domain::sat_add(old(self).moved_bytes, t.bytes),
                removed_copy_bytes: domain::sat_add(old(self).removed_copy_bytes, t.copy_bytes),
            }),
    {
        self.moved_entries = self.moved_entries.saturating_add(1);
        self.moved_files = self.moved_files.saturating_add(t.files);
        self.moved_bytes = self.moved_bytes.saturating_add(t.bytes);
        self.removed_copy_bytes = self.removed_copy_bytes.saturating_add(t.copy_bytes);
    }
}

/// Something that a manifest lists by its relative path.
pub trait Listed: Sized {
    spec fn rel_text(self) -> Seq<char>;

    fn rel(&self) -> (r: &str)
        ensures
            r@ == self.rel_text(),
    ;
}

impl Listed for ManifestDir {
    open spec fn rel_text(self) -> Seq<char> {
        self.rel@
    }

    fn rel(&self) -> (r: &str) {
        self.rel.as_str()
    }
}

impl Listed for ManifestFileEntry {
    open spec fn rel_text(self) -> Seq<char> {
        self.rel@
    }

    fn rel(&self) -> (r: &str) {
        self.rel.as_str()
    }
}

/// Whether a path lies below none of the moved children.
pub open spec fn stays(rel: Seq<char>, moved: Set<Seq<char>>) -> bool {
    match paths::top_name(rel) {
        Some(top) => !moved.contains(top),
        None => true,
    }
}

/// What of a list lies below none of the moved children, in order.
pub open spec fn staying<T: Listed>(list: Seq<T>, moved: Set<Seq<char>>) -> Seq<T>
    decreases list.len(),
{
    if list.len() == 0 {
        list
    } else if stays(list.last().rel_text(), moved) {
        staying(list.drop_last(), moved).push(list.last())
    } else {
        staying(list.drop_last(), moved)
    }
}

fn keep_staying<T: Listed>(list: Vec<T>, moved: &NameSet) -> (r: Vec<T>)
    ensures
        r@ == staying(list@, moved@),
{
    let ghost all = list@;
    let mut rest = list;
    order::reverse(&mut rest);
    let mut out: Vec<T> = Vec::new();
    let ghost mut n: int = 0;
    assert(all.skip(0) == all);
    assert(all.take(0) == Seq::<T>::empty());
    while rest.len() > 0
        invariant
            0 <= n <= all.len(),
            rest@ == all.skip(n).reverse(),
            out@ == staying(all.take(n), moved@),
        decreases rest@.len(),
    {
        let ghost held = rest@;
        if let Some(x) = rest.pop() {
            proof {
                assert(held.last() == all[n]);
                assert(all.take(n + 1).drop_last() == all.take(n));
                assert(rest@ == all.skip(n + 1).reverse());
                n = n + 1;
            }
            let keeps = match paths::top_level_rel_component(x.rel()) {
                Some(top) => !moved.contains(top.as_str()),
                None => true,
            };
            if keeps {
                out.push(x);
            }
        }
    }
    assert(n == all.len());
    assert(all.take(n) == all);
    out
}

/// Takes the moved children out of a manifest.
pub fn without_moved(m: TransferManifest, moved: &NameSet) -> (r: TransferManifest)
    ensures
        r.dirs@ == staying(m.dirs@, moved@),
        r.copy_files@ == staying(m.copy_files@, moved@),
        r.identical_files@ == staying(m.identical_files@, moved@),
        r.dir_times == m.dir_times,
        r.sync_delete_files == m.sync_delete_files,
        r.sync_delete_dirs == m.sync_delete_dirs,
{
    TransferManifest {
        dirs: keep_staying(m.dirs, moved),
        dir_times: m.dir_times,
        copy_files: keep_staying(m.copy_files, moved),
        identical_files: keep_staying(m.identical_files, moved),
        sync_delete_files: m.sync_delete_files,
        sync_delete_dirs: m.sync_delete_dirs,
    }
}

/// Nothing that stays lies below a moved child, and what does not is still
/// there.
pub proof fn law_moved_children_are_done<T: Listed>(list: Seq<T>, moved: Set<Seq<char>>, x: T)
    ensures
        staying(list, moved).contains(x) <==> list.contains(x) && stays(x.rel_text(), moved),
    decreases list.len(),
{
    if list.len() > 0 {
        law_moved_children_are_done(list.drop_last(), moved, x);
        let rest = list.drop_last();
        assert(list == rest.push(list.last()));
        let kept = staying(rest, moved);
        if list.contains(x) {
            let i = choose|i: int| 0 <= i < list.len() && list[i] == x;
            if i < rest.len() {
                assert(rest[i] == x);
            }
        }
        if rest.contains(x) {
            let i = choose|i: int| 0 <= i < rest.len() && rest[i] == x;
            assert(list[i] == x);
        }
        let more = kept.push(list.last());
        if kept.contains(x) {
            let i = choose|i: int| 0 <= i < kept.len() && kept[i] == x;
            assert(more[i] == x);
        }
        assert(more[kept.len() as int] == list.last());
        if more.contains(x) {
            let i = choose|i: int| 0 <= i < more.len() && more[i] == x;
            if i < kept.len() {
                assert(kept[i] == x);
            }
        }
        assert(list[list.len() - 1] == list.last());
    }
}

/// A child is renamed only to a free place on the same file system that is not its own, and
/// not where it is left out.
pub proof fn law_children_replace_nothing(
    name: &str,
    exclude: Option<&str>,
    source: &str,
    destination: &str,
    destination_exists: bool,
    same_filesystem: bool,
)
    ensures
        ({
            let r = is_renamable(
                name,
                exclude,
                source,
                destination,
                destination_exists,
                same_filesystem,
            );
            &&& destination_exists || !same_filesystem ==> !r
            &&& (exclude matches Some(x) && x@ == name@) ==> !r
            &&& paths::same_path(source@, destination@) ==> !r
            &&& (!destination_exists && same_filesystem && !paths::same_path(source@, destination@)
                && (exclude matches Some(x) ==> x@ != name@)) ==> r
        }),
{
}

/// A tally counts every file below a child, with its size, and as copied where it is; files
/// below other children do not count.
pub proof fn law_every_file_below_counts(
    t: TopTally,
    files: Seq<ManifestFileEntry>,
    e: ManifestFileEntry,
    name: Seq<char>,
    copied: bool,
)
    ensures
        ({
            let a = tally_with(t, files, name, copied);
            let b = tally_with(t, files.push(e), name, copied);
            let below = paths::top_name(e.rel@) == Some(name);
            &&& !below ==> b == a
            &&& below && a.files < u64::MAX ==> b.files == a.files + 1
            &&& below && a.bytes + e.size <= u64::MAX ==> b.bytes == a.bytes + e.size
            &&& below && copied && a.copy_bytes + e.size <= u64::MAX ==> b.copy_bytes
                == a.copy_bytes + e.size
            &&& !copied ==> b.copy_bytes == a.copy_bytes
            &&& tally_with(t, Seq::empty(), name, copied) == t
        }),
{
    assert(files.push(e).drop_last() == files);
}

/// What lies directly at or below a moved child goes, and what lies below another one stays.
pub proof fn law_what_lies_below_a_moved_child_goes(
    top: Seq<char>,
    rest: Seq<char>,
    moved: Set<Seq<char>>,
)
    requires
        top.len() > 0,
        !top.contains('/'),
        top != "."@,
    ensures
        stays(top, moved) <==> !moved.contains(top),
        stays(top.push('/') + rest, moved) <==> !moved.contains(top),
{
    lemma_top_name(top, top);
    assert((top.push('/') + rest).take(top.len() as int) == top);
    lemma_top_name(top, top.push('/') + rest);
}

proof fn lemma_top_name(top: Seq<char>, rel: Seq<char>)
    requires
        top.len() > 0,
        !top.contains('/'),
        top != "."@,
        rel == top || (rel.len() > top.len() && rel.take(top.len() as int) == top && rel[top.len() as int]
            == '/'),
    ensures
        paths::top_name(rel) == Some(top),
{
    reveal_strlit("./");
    reveal_strlit("/");
    reveal_strlit(".");
    assert(rel.take(top.len() as int) == top);
    assert(rel[0] == top[0]) by {
        assert(rel.take(top.len() as int)[0] == rel[0]);
    }
    assert(top[0] != '/') by {
        assert(top.contains(top[0]));
    }
    if rel.len() >= 2 && rel.take(2) == "./"@ {
        assert(rel.take(2)[0] == '.' && rel.take(2)[1] == '/');
        if top.len() == 1 {
            assert(top == "."@);
        } else {
            assert(rel.take(top.len() as int)[1] == rel[1]);
            assert(top.contains(top[1]));
        }
    }
    assert(!text::begins(rel, "./"@));
    if text::begins(rel, "/"@) {
        assert(rel.take(1)[0] == '/');
    }
    text::lemma_find_char(rel, '/');
    let at = text::find_char(rel, '/') as int;
    if at < top.len() {
        assert(rel[at] == '/');
        assert(rel.take(top.len() as int)[at] == '/');
        assert(top.contains('/'));
    }
    if rel.len() > top.len() {
        assert(at <= top.len());
    } else {
        assert(at <= rel.len());
    }
    assert(rel.take(at) == top);
}

/// What is copied of a child is part of what lies below it, and where nothing is copied, no
/// bytes are.
pub proof fn law_tallies_hold_what_is_copied(m: TransferManifest, name: Seq<char>)
    ensures
        top_tally(m, name).copy_bytes <= top_tally(m, name).bytes,
        m.copy_files@.len() == 0 ==> top_tally(m, name).copy_bytes == 0,
        m.identical_files@.len() == 0 ==> top_tally(m, name).copy_bytes == top_tally(m, name).bytes,
        m.identical_files@.len() == 0 && m.copy_files@.len() == 0 ==> top_tally(m, name).files == 0,
{
    let same = tally_with(no_files(), m.identical_files@, name, false);
    lemma_tally_of_kept(m.identical_files@, name);
    lemma_tally_of_copied(same, m.copy_files@, name);
}

proof fn lemma_tally_of_kept(files: Seq<ManifestFileEntry>, name: Seq<char>)
    ensures
        tally_with(no_files(), files, name, false).copy_bytes == 0,
    decreases files.len(),
{
    if files.len() > 0 {
        lemma_tally_of_kept(files.drop_last(), name);
    }
}

proof fn lemma_tally_of_copied(t: TopTally, files: Seq<ManifestFileEntry>, name: Seq<char>)
    requires
        t.copy_bytes <= t.bytes,
    ensures
        tally_with(t, files, name, true).copy_bytes <= tally_with(t, files, name, true).bytes,
        t.copy_bytes == t.bytes ==> tally_with(t, files, name, true).copy_bytes == tally_with(
            t,
            files,
            name,
            true,
        ).bytes,
    decreases files.len(),
{
    if files.len() > 0 {
        lemma_tally_of_copied(t, files.drop_last(), name);
    }
}

/// A path without a name lies below no moved child, and where none is moved every path
/// stays.
pub proof fn law_nameless_paths_stay(rel: Seq<char>, moved: Set<Seq<char>>)
    ensures
        paths::top_name(rel) is None ==> stays(rel, moved),
        moved == Set::<Seq<char>>::empty() ==> stays(rel, moved),
        !stays(rel, moved) ==> paths::top_name(rel) is Some && moved.contains(
            paths::top_name(rel)->0,
        ),
{
}

} // verus!
