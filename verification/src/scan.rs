//! The scan of a directory tree, directory by directory.

use crate::aggregation;
use crate::aggregation::{FoldEntry, Folded};
use crate::paths;
use crate::table;
use crate::text;
use crate::tree;
use crate::tree::{EntryMeta, EntryStub, PathFacts, ScanResult};
use crate::tree_git;
use dashmap::{DashMap, DashSet};
use rustc_hash::{FxBuildHasher, FxHashMap};
use vstd::prelude::*;

verus! {

/// `dashmap::DashSet`, carried as a type only.
#[verifier::external_type_specification]
#[verifier::external_body]
#[verifier::reject_recursive_types(K)]
#[verifier::reject_recursive_types(S)]
pub struct ExDashSet<K, S>(DashSet<K, S>);

/// The inodes that a set holds.
pub uninterp spec fn inodes_in(set: DashSet<(u64, u64), FxBuildHasher>) -> Set<(u64, u64)>;

/// No inodes.
pub open spec fn no_inodes() -> Set<(u64, u64)> {
    Set::empty()
}

/// `DashSet::with_hasher` makes a set without items.
#[verifier::external_body]
fn new_inodes() -> (r: DashSet<(u64, u64), FxBuildHasher>)
    ensures
        inodes_in(r) == no_inodes(),
{
    DashSet::with_hasher(FxBuildHasher)
}

/// `DashSet::insert` adds an inode to a set and tells whether it is new. The set
/// is borrowed for the call alone, so that nothing else adds to it meanwhile.
#[verifier::external_body]
fn claim(set: &mut DashSet<(u64, u64), FxBuildHasher>, key: (u64, u64)) -> (r: bool)
    ensures
        r == !inodes_in(*old(set)).contains(key),
        inodes_in(*final(set)) == inodes_in(*old(set)).insert(key),
{
    set.insert(key)
}

/// The inodes that a table holds for each directory.
pub uninterp spec fn visible_in(
    table: DashMap<String, DashSet<(u64, u64), FxBuildHasher>, FxBuildHasher>,
) -> Map<Seq<char>, Set<(u64, u64)>>;

/// No inodes for any directory.
pub open spec fn none_visible() -> Map<Seq<char>, Set<(u64, u64)>> {
    Map::empty()
}

/// The inodes that are held for a directory.
pub open spec fn held_for(m: Map<Seq<char>, Set<(u64, u64)>>, dir: Seq<char>) -> Set<(u64, u64)> {
    if m.contains_key(dir) {
        m[dir]
    } else {
        no_inodes()
    }
}

/// `DashMap::with_hasher` makes a table without entries.
#[verifier::external_body]
fn new_visible() -> (r: DashMap<String, DashSet<(u64, u64), FxBuildHasher>, FxBuildHasher>)
    ensures
        visible_in(r) == none_visible(),
{
    DashMap::with_hasher(FxBuildHasher)
}

/// `DashMap::entry` with `Entry::or_default` finds the set of a directory, or puts
/// in an empty one, and `DashSet::insert` adds an inode to it and tells whether it
/// is new. The table is borrowed for the call alone, so that nothing else adds to it
/// meanwhile.
#[verifier::external_body]
fn claim_for(
    table: &mut DashMap<String, DashSet<(u64, u64), FxBuildHasher>, FxBuildHasher>,
    dir: String,
    key: (u64, u64),
) -> (r: bool)
    ensures
        r == !held_for(visible_in(*old(table)), dir@).contains(key),
        visible_in(*final(table)) == visible_in(*old(table)).insert(
            dir@,
            held_for(visible_in(*old(table)), dir@).insert(key),
        ),
{
    table.entry(dir).or_default().insert(key)
}

/// What a scan collects.
#[derive(Clone, Copy, Debug, PartialEq, Eq, Structural)]
pub struct ScanOptions {
    /// Entries are kept to be listed above this depth.
    pub max_depth: usize,
    pub sizes: bool,
    pub counts: bool,
    pub follow_links: bool,
    pub no_dedupe_hardlinks: bool,
    pub no_expand_git: bool,
    pub classify: bool,
    /// What is known of each entry is read.
    pub collect_metadata: bool,
    /// Sizes are summed for the directories that are shown, and for no others.
    pub shallow: bool,
}

/// An entry as a scan meets it.
pub struct ScanEntry {
    pub name: String,
    pub path: String,
    /// The entry could be read.
    pub readable: bool,
    /// A rule says to leave it out.
    pub ignored: bool,
    pub is_dir: bool,
    pub is_symlink: bool,
    pub meta: Option<EntryMeta>,
    pub dev: u64,
    pub ino: u64,
    pub nlink: u64,
}

/// Tells whether what is known of an entry is to be read.
pub fn wants_metadata(o: ScanOptions, is_dir: bool) -> (r: bool)
    ensures
        r == (o.collect_metadata || (o.classify && !is_dir)),
{
    o.collect_metadata || (o.classify && !is_dir)
}

/// The bytes of its own that a directory starts with. Where sizes are summed for
/// the shown directories alone, its own bytes are added there.
pub fn seed_size(own: u64, sizes: bool, shallow: bool) -> (r: u64)
    ensures
        r == (if sizes && !shallow {
            own
        } else {
            0
        }),
{
    if sizes && !shallow {
        own
    } else {
        0
    }
}

/// The visible directories above a directory: the first and the second below the
/// root, as deep as is shown.
pub struct VisibleView {
    pub depth1: Option<Seq<char>>,
    pub depth2: Option<Seq<char>>,
}

/// The visible directories above a directory.
pub struct Visible {
    pub depth1: Option<String>,
    pub depth2: Option<String>,
}

impl View for Visible {
    type V = VisibleView;

    open spec fn view(&self) -> VisibleView {
        VisibleView {
            depth1: paths::opt_text(self.depth1),
            depth2: paths::opt_text(self.depth2),
        }
    }
}

/// Which inodes of an entry are to be claimed.
#[derive(Clone, Copy, Debug, PartialEq, Eq, Structural)]
pub struct Needs {
    /// As a directory that is gone through once.
    pub dir: bool,
    /// As a file that the root counts once.
    pub root: bool,
    /// As a file that the first visible directory above it counts once.
    pub first: bool,
    /// As a file that the second visible directory above it counts once.
    pub second: bool,
}

/// What an entry counts for.
#[derive(Clone, Copy, Debug, PartialEq, Eq, Structural)]
pub struct Claims {
    /// It was not gone through before.
    pub dir: bool,
    /// It counts for the root.
    pub root: bool,
    /// It counts for the first visible directory above it; where there is none,
    /// as for the root.
    pub first: bool,
    /// It counts for the second visible directory above it; where there is none,
    /// as for the first.
    pub second: bool,
}

/// Whether an entry is passed over.
pub open spec fn is_passed(e: ScanEntry) -> bool {
    !e.readable || (e.ignored && !e.is_dir)
}

/// Whether an entry is a file with more than one name.
pub open spec fn is_shared(e: ScanEntry) -> bool {
    e.meta is Some && !e.is_dir && e.nlink > 1
}

/// Whether an entry is a file with several names that counts once, however many
/// of them are met.
pub open spec fn is_counted_once(e: ScanEntry, o: ScanOptions) -> bool {
    !is_passed(e) && o.sizes && !o.no_dedupe_hardlinks && is_shared(e)
}

/// The inode of an entry.
pub open spec fn inode_of(e: ScanEntry) -> (u64, u64) {
    (e.dev, e.ino)
}

/// Which inodes of an entry are to be claimed: directories where links are
/// followed, and files with more than one name where sizes are summed.
pub open spec fn needs_of(e: ScanEntry, o: ScanOptions, v: VisibleView) -> Needs {
    Needs {
        dir: !is_passed(e) && o.follow_links && o.collect_metadata && e.is_dir && e.meta is Some,
        root: is_counted_once(e, o),
        first: is_counted_once(e, o) && v.depth1 is Some,
        second: is_counted_once(e, o) && v.depth2 is Some,
    }
}

/// Finds which inodes of an entry are to be claimed.
pub fn claims_needed(e: &ScanEntry, o: ScanOptions, v: &Visible) -> (r: Needs)
    ensures
        r == needs_of(*e, o, v@),
{
    let met = e.readable && !(e.ignored && !e.is_dir);
    let shared = e.meta.is_some() && !e.is_dir && e.nlink > 1;
    let once = met && o.sizes && !o.no_dedupe_hardlinks && shared;
    Needs {
        dir: met && o.follow_links && o.collect_metadata && e.is_dir && e.meta.is_some(),
        root: once,
        first: once && v.depth1.is_some(),
        second: once && v.depth2.is_some(),
    }
}

/// The inodes that were claimed: as directories, for the root, and for each
/// visible directory.
pub struct InodesView {
    pub dirs: Set<(u64, u64)>,
    pub root: Set<(u64, u64)>,
    pub visible: Map<Seq<char>, Set<(u64, u64)>>,
}

/// The inodes that were claimed so far.
pub struct InodeTable {
    dirs: DashSet<(u64, u64), FxBuildHasher>,
    root: DashSet<(u64, u64), FxBuildHasher>,
    visible: DashMap<String, DashSet<(u64, u64), FxBuildHasher>, FxBuildHasher>,
}

impl View for InodeTable {
    type V = InodesView;

    closed spec fn view(&self) -> InodesView {
        InodesView {
            dirs: inodes_in(self.dirs),
            root: inodes_in(self.root),
            visible: visible_in(self.visible),
        }
    }
}

/// The inodes that were claimed for a visible directory.
pub open spec fn visible_inodes(i: InodesView, dir: Seq<char>) -> Set<(u64, u64)> {
    held_for(i.visible, dir)
}

/// The inodes with one more for a visible directory.
pub open spec fn with_visible(i: InodesView, dir: Seq<char>, key: (u64, u64)) -> InodesView {
    InodesView { visible: i.visible.insert(dir, visible_inodes(i, dir).insert(key)), ..i }
}

/// The inodes once an entry was claimed as a directory and for the root.
pub open spec fn after_root(i: InodesView, key: (u64, u64), n: Needs) -> InodesView {
    InodesView {
        dirs: if n.dir {
            i.dirs.insert(key)
        } else {
            i.dirs
        },
        root: if n.root {
            i.root.insert(key)
        } else {
            i.root
        },
        ..i
    }
}

/// The inodes once an entry was claimed for a visible directory, if there is one
/// and it is needed.
pub open spec fn after_visible(
    i: InodesView,
    key: (u64, u64),
    needed: bool,
    dir: Option<Seq<char>>,
) -> InodesView {
    if needed && dir is Some {
        with_visible(i, dir->0, key)
    } else {
        i
    }
}

/// The inodes once those of an entry were claimed.
pub open spec fn after_claims(
    i: InodesView,
    e: ScanEntry,
    n: Needs,
    v: VisibleView,
) -> InodesView {
    let key = inode_of(e);
    after_visible(
        after_visible(after_root(i, key, n), key, n.first, v.depth1),
        key,
        n.second,
        v.depth2,
    )
}

/// Whether an inode is new for a visible directory. One that need not be claimed
/// counts as new.
pub open spec fn is_new_for(i: InodesView, key: (u64, u64), needed: bool, dir: Seq<char>) -> bool {
    !needed || !visible_inodes(i, dir).contains(key)
}

/// What an entry counts for, by the inodes that were claimed before.
pub open spec fn claims_at(i: InodesView, e: ScanEntry, n: Needs, v: VisibleView) -> Claims {
    let key = inode_of(e);
    let root = !n.root || !i.root.contains(key);
    let first = match v.depth1 {
        Some(dir) => is_new_for(i, key, n.first, dir),
        None => root,
    };
    Claims {
        dir: !n.dir || !i.dirs.contains(key),
        root,
        first,
        second: match v.depth2 {
            Some(dir) => is_new_for(
                after_visible(i, key, n.first, v.depth1),
                key,
                n.second,
                dir,
            ),
            None => first,
        },
    }
}

impl InodeTable {
    /// Nothing is claimed yet but the root, as a directory.
    pub fn new(root: Option<(u64, u64)>) -> (r: InodeTable)
        ensures
            r@ == (InodesView {
                dirs: match root {
                    Some(key) => no_inodes().insert(key),
                    None => no_inodes(),
                },
                root: no_inodes(),
                visible: Map::empty(),
            }),
    {
        let mut dirs = new_inodes();
        if let Some(key) = root {
            claim(&mut dirs, key);
        }
        InodeTable { dirs, root: new_inodes(), visible: new_visible() }
    }

    /// Claims an inode for a visible directory.
    fn claim_visible(&mut self, dir: &str, key: (u64, u64)) -> (r: bool)
        ensures
            r == !visible_inodes(old(self)@, dir@).contains(key),
            final(self)@ == with_visible(old(self)@, dir@, key),
    {
        claim_for(&mut self.visible, text::copy(dir), key)
    }
}

/// Claims the inodes of an entry, and finds what it counts for.
pub fn claim_inodes(e: &ScanEntry, n: Needs, v: &Visible, inodes: &mut InodeTable) -> (r: Claims)
    ensures
        r == claims_at(old(inodes)@, *e, n, v@),
        final(inodes)@ == after_claims(old(inodes)@, *e, n, v@),
{
    let key = (e.dev, e.ino);
    let ghost start = inodes@;
    let dir = if n.dir {
        claim(&mut inodes.dirs, key)
    } else {
        true
    };
    let root = if n.root {
        claim(&mut inodes.root, key)
    } else {
        true
    };
    assert(inodes@ == after_root(start, key, n));
    let first = match &v.depth1 {
        Some(dir) => if n.first {
            inodes.claim_visible(dir.as_str(), key)
        } else {
            true
        },
        None => root,
    };
    let second = match &v.depth2 {
        Some(dir) => if n.second {
            inodes.claim_visible(dir.as_str(), key)
        } else {
            true
        },
        None => first,
    };
    Claims { dir, root, first, second }
}

/// Whether a scan goes through what lies below an entry.
pub open spec fn goes_below(e: ScanEntry, o: ScanOptions, c: Claims) -> bool {
    !(e.ignored || (o.no_expand_git && !o.sizes && !o.counts && e.is_dir && e.name@ == ".git"@)
        || !c.dir)
}

/// The bytes that an entry adds where it counts. Where all sizes are summed, a
/// directory that is gone through adds its own when its turn comes.
pub open spec fn bytes_of(e: ScanEntry, o: ScanOptions, c: Claims, counts: bool) -> nat {
    if !is_passed(e) && o.sizes && e.meta is Some && counts && (o.shallow || !e.is_dir
        || !goes_below(e, o, c)) {
        e.meta->0.allocated as nat
    } else {
        0
    }
}

/// What some entries add up to.
pub struct DirSums {
    pub root: nat,
    pub first: nat,
    pub second: nat,
    pub dirs: nat,
    pub files: nat,
    pub errors: nat,
}

/// What the first `n` entries of a directory add up to.
pub open spec fn sums_of(
    entries: Seq<ScanEntry>,
    claims: Seq<Claims>,
    o: ScanOptions,
    n: int,
) -> DirSums
    decreases n,
{
    if n <= 0 {
        DirSums { root: 0, first: 0, second: 0, dirs: 0, files: 0, errors: 0 }
    } else {
        let s = sums_of(entries, claims, o, n - 1);
        let e = entries[n - 1];
        let c = claims[n - 1];
        DirSums {
            root: s.root + bytes_of(e, o, c, c.root),
            first: s.first + bytes_of(e, o, c, c.first),
            second: s.second + bytes_of(e, o, c, c.second),
            dirs: s.dirs + (if !is_passed(e) && e.is_dir {
                1nat
            } else {
                0nat
            }),
            files: s.files + (if !is_passed(e) && !e.is_dir {
                1nat
            } else {
                0nat
            }),
            errors: s.errors + (if !e.readable {
                1nat
            } else {
                0nat
            }),
        }
    }
}

/// Whether a stub stands for an entry.
pub open spec fn stands_for(stub: EntryStub, e: ScanEntry) -> bool {
    stub.name@ == e.name@ && stub.path@ == e.path@ && stub.is_dir == e.is_dir && stub.is_symlink
        == e.is_symlink && stub.meta == e.meta
}

/// The entries that are not passed over.
pub open spec fn met_entries(entries: Seq<ScanEntry>) -> Seq<ScanEntry>
    decreases entries.len(),
{
    if entries.len() == 0 {
        entries
    } else {
        let rest = met_entries(entries.drop_last());
        if is_passed(entries.last()) {
            rest
        } else {
            rest.push(entries.last())
        }
    }
}

/// Whether stubs stand for entries, one for one.
pub open spec fn stand_for(stubs: Seq<EntryStub>, entries: Seq<ScanEntry>) -> bool {
    stubs.len() == entries.len() && forall|i: int|
        0 <= i < stubs.len() ==> stands_for(#[trigger] stubs[i], entries[i])
}

/// Bytes by what they count for: the root, and the visible directories.
#[derive(Clone, Copy, Debug, PartialEq, Eq, Structural)]
pub struct LevelBytes {
    pub root: u64,
    /// For the first visible directory; where there is none, as for the root.
    pub first: u64,
    /// For the second visible directory and all below it; where there is none, as
    /// for the first.
    pub second: u64,
}

/// What a scan found in one directory.
pub struct DirScan {
    /// For each entry, whether to go through what lies below it.
    pub below: Vec<bool>,
    /// The entries, where they are to be listed and there are any.
    pub stubs: Option<Vec<EntryStub>>,
    /// The bytes of the directory, its own included.
    pub bytes: LevelBytes,
    pub dirs: u64,
    pub files: u64,
    pub errors: u64,
    /// Some sum is too large.
    pub overflowed: bool,
}

/// Whether a result is what a directory holds.
pub open spec fn is_dir_scan(
    r: DirScan,
    own_size: u64,
    depth: int,
    entries: Seq<ScanEntry>,
    claims: Seq<Claims>,
    o: ScanOptions,
) -> bool {
    let s = sums_of(entries, claims, o, entries.len() as int);
    let met = met_entries(entries);
    &&& r.below@.len() == entries.len()
    &&& forall|i: int|
        0 <= i < entries.len() ==> #[trigger] r.below@[i] == (entries[i].readable && goes_below(
            entries[i],
            o,
            claims[i],
        ))
    &&& match r.stubs {
        Some(v) => depth < o.max_depth && met.len() > 0 && stand_for(v@, met),
        None => depth >= o.max_depth || met.len() == 0,
    }
    &&& r.bytes.root == aggregation::capped(own_size as nat + s.root)
    &&& r.bytes.first == aggregation::capped(own_size as nat + s.first)
    &&& r.bytes.second == aggregation::capped(own_size as nat + s.second)
    &&& r.dirs == s.dirs
    &&& r.files == s.files
    &&& r.errors == s.errors
    &&& r.overflowed == (own_size + s.root > u64::MAX || own_size + s.first > u64::MAX || own_size
        + s.second > u64::MAX)
}

fn copy_stub(e: &ScanEntry) -> (r: EntryStub)
    ensures
        stands_for(r, *e),
{
    EntryStub {
        name: e.name.clone(),
        path: e.path.clone(),
        is_dir: e.is_dir,
        is_symlink: e.is_symlink,
        meta: e.meta,
    }
}

/// Adds bytes to a sum where they count.
fn add_where(sum: u64, bytes: u64, counts: bool) -> (r: (u64, bool))
    ensures
        r.0 == (if counts {
            aggregation::capped((sum + bytes) as nat)
        } else {
            sum
        }),
        r.1 == (counts && sum + bytes > u64::MAX),
{
    if counts {
        aggregation::add_checked(sum, bytes)
    } else {
        (sum, false)
    }
}

/// Puts together what a directory holds, for the claims that were made.
pub fn scan_dir(
    own_size: u64,
    depth: usize,
    entries: &Vec<ScanEntry>,
    claims: &Vec<Claims>,
    o: ScanOptions,
) -> (r: DirScan)
    requires
        claims@.len() == entries@.len(),
    ensures
        is_dir_scan(r, own_size, depth as int, entries@, claims@, o),
{
    let keep = depth < o.max_depth;
    let mut below: Vec<bool> = Vec::new();
    let mut stubs: Vec<EntryStub> = Vec::new();
    let mut root: u64 = own_size;
    let mut first: u64 = own_size;
    let mut second: u64 = own_size;
    let mut dirs: u64 = 0;
    let mut files: u64 = 0;
    let mut errors: u64 = 0;
    let mut overflowed = false;
    let mut i: usize = 0;
    assert(entries@.take(0) == Seq::<ScanEntry>::empty());
    while i < entries.len()
        invariant
            i <= entries@.len(),
            claims@.len() == entries@.len(),
            keep == (depth < o.max_depth),
            below@.len() == i,
            forall|k: int|
                0 <= k < i ==> #[trigger] below@[k] == (entries@[k].readable && goes_below(
                    entries@[k],
                    o,
                    claims@[k],
                )),
            keep ==> stand_for(stubs@, met_entries(entries@.take(i as int))),
            ({
                let s = sums_of(entries@, claims@, o, i as int);
                &&& root == aggregation::capped(own_size as nat + s.root)
                &&& first == aggregation::capped(own_size as nat + s.first)
                &&& second == aggregation::capped(own_size as nat + s.second)
                &&& dirs == s.dirs
                &&& files == s.files
                &&& errors == s.errors
                &&& s.dirs <= i && s.files <= i && s.errors <= i
                &&& overflowed == (own_size + s.root > u64::MAX || own_size + s.first > u64::MAX
                    || own_size + s.second > u64::MAX)
            }),
        decreases entries@.len() - i,
    {
        let e = &entries[i];
        let c = claims[i];
        let ghost s = sums_of(entries@, claims@, o, i as int);
        let ghost step = entries@.take(i + 1);
        assert(step.drop_last() == entries@.take(i as int));
        assert(step.last() == *e);
        let git = o.no_expand_git && !o.sizes && !o.counts && e.is_dir && text::equal(
            e.name.as_str(),
            ".git",
        );
        let through = !(e.ignored || git || !c.dir);
        assert(through == goes_below(*e, o, c));
        below.push(e.readable && through);
        let passed = !e.readable || (e.ignored && !e.is_dir);
        if !e.readable {
            errors = errors + 1;
        }
        if !passed {
            if let Some(m) = e.meta {
                if o.sizes && (o.shallow || !e.is_dir || !through) {
                    let (sum, over_root) = add_where(root, m.allocated, c.root);
                    root = sum;
                    let (sum, over_first) = add_where(first, m.allocated, c.first);
                    first = sum;
                    let (sum, over_second) = add_where(second, m.allocated, c.second);
                    second = sum;
                    if over_root || over_first || over_second {
                        overflowed = true;
                    }
                }
            }
            if e.is_dir {
                dirs = dirs + 1;
            } else {
                files = files + 1;
            }
            if keep {
                stubs.push(copy_stub(e));
            }
        }
        i = i + 1;
    }
    assert(entries@.take(entries@.len() as int) == entries@);
    let stubs = if keep && stubs.len() > 0 {
        Some(stubs)
    } else {
        None
    };
    DirScan {
        below,
        stubs,
        bytes: LevelBytes { root, first, second },
        dirs,
        files,
        errors,
        overflowed,
    }
}

/// The inodes once those of all entries of a directory were claimed, one entry
/// after another.
pub open spec fn inodes_through(
    i: InodesView,
    entries: Seq<ScanEntry>,
    o: ScanOptions,
    v: VisibleView,
) -> InodesView
    decreases entries.len(),
{
    if entries.len() == 0 {
        i
    } else {
        after_claims(
            inodes_through(i, entries.drop_last(), o, v),
            entries.last(),
            needs_of(entries.last(), o, v),
            v,
        )
    }
}

/// What the entries of a directory count for, each by the inodes that were claimed
/// before it.
pub open spec fn claims_of(
    i: InodesView,
    entries: Seq<ScanEntry>,
    o: ScanOptions,
    v: VisibleView,
) -> Seq<Claims> {
    Seq::new(
        entries.len(),
        |k: int|
            claims_at(
                inodes_through(i, entries.take(k), o, v),
                entries[k],
                needs_of(entries[k], o, v),
                v,
            ),
    )
}

/// Scans a directory: claims the inodes of its entries, one after another, and
/// puts together what it holds.
pub fn scan_dir_claiming(
    own_size: u64,
    depth: usize,
    entries: &Vec<ScanEntry>,
    o: ScanOptions,
    v: &Visible,
    inodes: &mut InodeTable,
) -> (r: DirScan)
    ensures
        final(inodes)@ == inodes_through(old(inodes)@, entries@, o, v@),
        is_dir_scan(
            r,
            own_size,
            depth as int,
            entries@,
            claims_of(old(inodes)@, entries@, o, v@),
            o,
        ),
{
    let ghost start = inodes@;
    let mut claims: Vec<Claims> = Vec::new();
    let mut i: usize = 0;
    assert(entries@.take(0) == Seq::<ScanEntry>::empty());
    while i < entries.len()
        invariant
            i <= entries@.len(),
            inodes@ == inodes_through(start, entries@.take(i as int), o, v@),
            claims@ == claims_of(start, entries@, o, v@).take(i as int),
        decreases entries@.len() - i,
    {
        let n = claims_needed(&entries[i], o, v);
        claims.push(claim_inodes(&entries[i], n, v, inodes));
        assert(entries@.take(i + 1).drop_last() == entries@.take(i as int));
        assert(claims_of(start, entries@, o, v@).take(i + 1) == claims_of(
            start,
            entries@,
            o,
            v@,
        ).take(i as int).push(claims_of(start, entries@, o, v@)[i as int]));
        i = i + 1;
    }
    assert(entries@.take(i as int) == entries@);
    assert(claims@ == claims_of(start, entries@, o, v@));
    scan_dir(own_size, depth, entries, &claims, o)
}

/// A directory counts for the root and for all visible directories above it, and it
/// counts once: as an entry where it is not gone through, and with its own turn where
/// it is.
pub proof fn law_a_directory_counts_once(
    i: InodesView,
    e: ScanEntry,
    o: ScanOptions,
    v: VisibleView,
)
    requires
        e.is_dir,
        e.readable,
        e.meta is Some,
        o.sizes && !o.shallow,
    ensures
        ({
            let c = claims_at(i, e, needs_of(e, o, v), v);
            let bytes = if goes_below(e, o, c) {
                0nat
            } else {
                e.meta->0.allocated as nat
            };
            &&& bytes_of(e, o, c, c.root) == bytes
            &&& bytes_of(e, o, c, c.first) == bytes
            &&& bytes_of(e, o, c, c.second) == bytes
        }),
{
}

/// A directory as a scan comes to it.
pub struct ScanStep {
    pub entries: Seq<ScanEntry>,
    pub v: VisibleView,
}

/// For whom inodes are claimed.
pub enum Claimant {
    /// The scan, which goes through each directory once.
    Walk,
    Root,
    Shown(Seq<char>),
}

/// The inodes that are claimed for someone.
pub open spec fn held_by(i: InodesView, who: Claimant) -> Set<(u64, u64)> {
    match who {
        Claimant::Walk => i.dirs,
        Claimant::Root => i.root,
        Claimant::Shown(dir) => visible_inodes(i, dir),
    }
}

/// Whether an entry is claimed for someone.
pub open spec fn claims_for(e: ScanEntry, o: ScanOptions, v: VisibleView, who: Claimant) -> bool {
    let n = needs_of(e, o, v);
    match who {
        Claimant::Walk => n.dir,
        Claimant::Root => n.root,
        Claimant::Shown(dir) => (n.first && v.depth1 == Some(dir)) || (n.second && v.depth2 == Some(
            dir,
        )),
    }
}

/// Whether an entry counts for someone.
pub open spec fn counts_for(c: Claims, v: VisibleView, who: Claimant) -> bool {
    match who {
        Claimant::Walk => c.dir,
        Claimant::Root => c.root,
        Claimant::Shown(dir) => if v.depth1 == Some(dir) {
            c.first
        } else {
            c.second
        },
    }
}

/// The inodes that are claimed before a step of a scan.
pub open spec fn inodes_before(
    i: InodesView,
    steps: Seq<ScanStep>,
    o: ScanOptions,
    d: int,
) -> InodesView
    decreases d,
{
    if d <= 0 {
        i
    } else {
        inodes_through(inodes_before(i, steps, o, d - 1), steps[d - 1].entries, o, steps[d - 1].v)
    }
}

/// What the entries of a step of a scan count for.
pub open spec fn claims_in(
    i: InodesView,
    steps: Seq<ScanStep>,
    o: ScanOptions,
    d: int,
) -> Seq<Claims> {
    claims_of(inodes_before(i, steps, o, d), steps[d].entries, o, steps[d].v)
}

/// Whether one of the first `n` entries of a directory is claimed for someone, by
/// its inode.
pub open spec fn claimed_among(
    entries: Seq<ScanEntry>,
    o: ScanOptions,
    v: VisibleView,
    who: Claimant,
    key: (u64, u64),
    n: int,
) -> bool {
    exists|k: int|
        0 <= k < n && inode_of(#[trigger] entries[k]) == key && claims_for(entries[k], o, v, who)
}

/// Whether an inode is claimed for someone before entry `k` of step `d`.
pub open spec fn claimed_before(
    steps: Seq<ScanStep>,
    o: ScanOptions,
    who: Claimant,
    key: (u64, u64),
    d: int,
    k: int,
) -> bool {
    ||| claimed_among(steps[d].entries, o, steps[d].v, who, key, k)
    ||| exists|c: int|
        0 <= c < d && claimed_among(
            (#[trigger] steps[c]).entries,
            o,
            steps[c].v,
            who,
            key,
            steps[c].entries.len() as int,
        )
}

proof fn lemma_one_claim(i: InodesView, e: ScanEntry, o: ScanOptions, v: VisibleView, who: Claimant)
    ensures
        held_by(after_claims(i, e, needs_of(e, o, v), v), who) == (if claims_for(e, o, v, who) {
            held_by(i, who).insert(inode_of(e))
        } else {
            held_by(i, who)
        }),
        claims_for(e, o, v, who) ==> counts_for(claims_at(i, e, needs_of(e, o, v), v), v, who)
            == !held_by(i, who).contains(inode_of(e)),
{
    let n = needs_of(e, o, v);
    let key = inode_of(e);
    let a = after_root(i, key, n);
    let b = after_visible(a, key, n.first, v.depth1);
    let c = after_visible(b, key, n.second, v.depth2);
    assert(c == after_claims(i, e, n, v));
    if let Claimant::Shown(dir) = who {
        assert(visible_inodes(a, dir) == visible_inodes(i, dir));
        assert(visible_inodes(b, dir) == (if n.first && v.depth1 == Some(dir) {
            visible_inodes(i, dir).insert(key)
        } else {
            visible_inodes(i, dir)
        }));
        assert(held_by(c, who) == (if claims_for(e, o, v, who) {
            held_by(i, who).insert(key)
        } else {
            held_by(i, who)
        }));
    }
}

proof fn lemma_claims_among(
    i: InodesView,
    entries: Seq<ScanEntry>,
    o: ScanOptions,
    v: VisibleView,
    who: Claimant,
    key: (u64, u64),
)
    ensures
        held_by(inodes_through(i, entries, o, v), who).contains(key) <==> held_by(i, who).contains(
            key,
        ) || claimed_among(entries, o, v, who, key, entries.len() as int),
    decreases entries.len(),
{
    if entries.len() > 0 {
        let front = entries.drop_last();
        lemma_claims_among(i, front, o, v, who, key);
        lemma_one_claim(inodes_through(i, front, o, v), entries.last(), o, v, who);
        let n = entries.len() as int;
        if claimed_among(front, o, v, who, key, n - 1) {
            let k = choose|k: int|
                0 <= k < n - 1 && inode_of(#[trigger] front[k]) == key && claims_for(
                    front[k],
                    o,
                    v,
                    who,
                );
            assert(entries[k] == front[k]);
        }
        if claimed_among(entries, o, v, who, key, n) {
            let k = choose|k: int|
                0 <= k < n && inode_of(#[trigger] entries[k]) == key && claims_for(
                    entries[k],
                    o,
                    v,
                    who,
                );
            if k < n - 1 {
                assert(front[k] == entries[k]);
            }
        }
        if claims_for(entries.last(), o, v, who) && inode_of(entries.last()) == key {
            assert(inode_of(entries[n - 1]) == key);
        }
    }
}

proof fn lemma_claims_before(
    i: InodesView,
    steps: Seq<ScanStep>,
    o: ScanOptions,
    who: Claimant,
    key: (u64, u64),
    d: int,
)
    requires
        0 <= d <= steps.len(),
    ensures
        held_by(inodes_before(i, steps, o, d), who).contains(key) <==> held_by(i, who).contains(key)
            || exists|c: int|
            0 <= c < d && claimed_among(
                (#[trigger] steps[c]).entries,
                o,
                steps[c].v,
                who,
                key,
                steps[c].entries.len() as int,
            ),
    decreases d,
{
    if d > 0 {
        lemma_claims_before(i, steps, o, who, key, d - 1);
        lemma_claims_among(
            inodes_before(i, steps, o, d - 1),
            steps[d - 1].entries,
            o,
            steps[d - 1].v,
            who,
            key,
        );
    }
}

/// Of all names of an inode that a scan meets for someone, the root, a visible
/// directory or the scan itself, the first one counts and no other does.
pub proof fn law_first_name_counts(
    i: InodesView,
    steps: Seq<ScanStep>,
    o: ScanOptions,
    who: Claimant,
    d: int,
    k: int,
)
    requires
        0 <= d < steps.len(),
        0 <= k < steps[d].entries.len(),
        claims_for(steps[d].entries[k], o, steps[d].v, who),
    ensures
        counts_for(claims_in(i, steps, o, d)[k], steps[d].v, who) == (!held_by(i, who).contains(
            inode_of(steps[d].entries[k]),
        ) && !claimed_before(steps, o, who, inode_of(steps[d].entries[k]), d, k)),
{
    let entries = steps[d].entries;
    let v = steps[d].v;
    let e = entries[k];
    let key = inode_of(e);
    let start = inodes_before(i, steps, o, d);
    let front = entries.take(k);
    lemma_claims_before(i, steps, o, who, key, d);
    lemma_claims_among(start, front, o, v, who, key);
    lemma_one_claim(inodes_through(start, front, o, v), e, o, v, who);
    if claimed_among(front, o, v, who, key, k) {
        let m = choose|m: int|
            0 <= m < k && inode_of(#[trigger] front[m]) == key && claims_for(front[m], o, v, who);
        assert(entries[m] == front[m]);
    }
    if claimed_among(entries, o, v, who, key, k) {
        let m = choose|m: int|
            0 <= m < k && inode_of(#[trigger] entries[m]) == key && claims_for(
                entries[m],
                o,
                v,
                who,
            );
        assert(front[m] == entries[m]);
    }
}

/// No inode counts twice for the root, twice for one visible directory, or is gone
/// through twice.
pub proof fn law_no_inode_counts_twice(
    i: InodesView,
    steps: Seq<ScanStep>,
    o: ScanOptions,
    who: Claimant,
    c: int,
    m: int,
    d: int,
    k: int,
)
    requires
        0 <= c <= d < steps.len(),
        0 <= m < steps[c].entries.len(),
        0 <= k < steps[d].entries.len(),
        c == d ==> m < k,
        claims_for(steps[c].entries[m], o, steps[c].v, who),
        claims_for(steps[d].entries[k], o, steps[d].v, who),
        inode_of(steps[c].entries[m]) == inode_of(steps[d].entries[k]),
    ensures
        !counts_for(claims_in(i, steps, o, d)[k], steps[d].v, who),
{
    law_first_name_counts(i, steps, o, who, d, k);
    let key = inode_of(steps[d].entries[k]);
    assert(inode_of(steps[c].entries[m]) == key);
    if c == d {
        assert(claimed_among(steps[d].entries, o, steps[d].v, who, key, k));
    } else {
        assert(claimed_among(
            steps[c].entries,
            o,
            steps[c].v,
            who,
            key,
            steps[c].entries.len() as int,
        ));
    }
}

/// The visible directories above a directory.
pub open spec fn visible_of(root: Seq<char>, current: Seq<char>, depth: int, max_depth: int) -> VisibleView {
    let names = paths::below(current, root);
    if depth <= 0 || (depth > 1 && !paths::under(current, root)) {
        VisibleView { depth1: None, depth2: None }
    } else if depth == 1 {
        VisibleView { depth1: Some(current), depth2: None }
    } else {
        VisibleView {
            depth1: if names.len() > 0 {
                Some(paths::joined_path(root, names[0]))
            } else {
                None
            },
            depth2: if max_depth < 2 {
                None
            } else if depth == 2 {
                Some(current)
            } else if names.len() > 1 {
                Some(paths::joined_path(paths::joined_path(root, names[0]), names[1]))
            } else {
                None
            },
        }
    }
}

/// Finds the visible directories above a directory.
pub fn shallow_visible_ancestors(root: &str, current_path: &str, depth: usize, max_depth: usize) -> (r:
    Visible)
    ensures
        paths::opt_text(r.depth1) == visible_of(
            root@,
            current_path@,
            depth as int,
            max_depth as int,
        ).depth1,
        paths::opt_text(r.depth2) == visible_of(
            root@,
            current_path@,
            depth as int,
            max_depth as int,
        ).depth2,
{
    if depth == 0 {
        return Visible { depth1: None, depth2: None };
    }
    if depth == 1 {
        return Visible { depth1: Some(text::copy(current_path)), depth2: None };
    }
    if !paths::path_under(current_path, root) {
        return Visible { depth1: None, depth2: None };
    }
    let all = paths::components(text::to_chars(current_path).as_slice());
    let top = paths::components(text::to_chars(root).as_slice());
    let names = paths::tail(all.as_slice(), top.len());
    let ghost views = text::rows(names@);
    assert(views == paths::below(current_path@, root@));
    if names.len() == 0 {
        return Visible {
            depth1: None,
            depth2: if max_depth >= 2 && depth == 2 {
                Some(text::copy(current_path))
            } else {
                None
            },
        };
    }
    assert(views[0] == names@[0]@);
    let first = text::from_chars(names[0].as_slice());
    let depth1 = paths::join_path(root, first.as_str());
    let depth2 = if max_depth < 2 {
        None
    } else if depth == 2 {
        Some(text::copy(current_path))
    } else if names.len() > 1 {
        assert(views[1] == names@[1]@);
        let second = text::from_chars(names[1].as_slice());
        Some(paths::join_path(depth1.as_str(), second.as_str()))
    } else {
        None
    };
    Visible { depth1: Some(depth1), depth2 }
}

/// Sizes by path, added up as they come.
pub struct SizeTable {
    sizes: DashMap<String, u64, FxBuildHasher>,
}

impl View for SizeTable {
    type V = Map<Seq<char>, u64>;

    closed spec fn view(&self) -> Map<Seq<char>, u64> {
        table::numbers_in(self.sizes)
    }
}

/// The size of a path so far.
pub open spec fn size_in(m: Map<Seq<char>, u64>, path: Seq<char>) -> u64 {
    if m.contains_key(path) {
        m[path]
    } else {
        0
    }
}

/// The sizes with some bytes added to a path.
pub open spec fn with_bytes(m: Map<Seq<char>, u64>, path: Seq<char>, bytes: u64) -> Map<
    Seq<char>,
    u64,
> {
    m.insert(path, aggregation::capped((size_in(m, path) + bytes) as nat))
}

/// The sizes with some bytes added to a path, if there is one.
pub open spec fn with_bytes_opt(m: Map<Seq<char>, u64>, path: Option<Seq<char>>, bytes: u64) -> Map<
    Seq<char>,
    u64,
> {
    match path {
        Some(p) => with_bytes(m, p, bytes),
        None => m,
    }
}

/// The sizes with the bytes of a directory added where they count: for the root,
/// and for the visible directories above.
pub open spec fn with_shared(
    m: Map<Seq<char>, u64>,
    root: Seq<char>,
    v: VisibleView,
    bytes: LevelBytes,
) -> Map<Seq<char>, u64> {
    with_bytes_opt(
        with_bytes_opt(with_bytes(m, root, bytes.root), v.depth1, bytes.first),
        v.depth2,
        bytes.second,
    )
}

impl SizeTable {
    /// No sizes.
    pub fn new() -> (r: SizeTable)
        ensures
            r@ == Map::<Seq<char>, u64>::empty(),
    {
        SizeTable { sizes: table::new_numbers() }
    }

    /// The size of a path so far.
    pub fn get(&self, path: &str) -> (r: Option<u64>)
        ensures
            r == (if self@.contains_key(path@) {
                Some(self@[path@])
            } else {
                None
            }),
    {
        table::number_of(&self.sizes, path)
    }

    /// Adds bytes to a path; tells whether its size is too large now.
    pub fn increase(&mut self, path: &str, bytes: u64) -> (r: bool)
        ensures
            final(self)@ == with_bytes(old(self)@, path@, bytes),
            r == (size_in(old(self)@, path@) + bytes > u64::MAX),
    {
        let so_far: u64 = match table::number_of(&self.sizes, path) {
            Some(n) => n,
            None => 0,
        };
        let (sum, over) = aggregation::add_checked(so_far, bytes);
        table::put_number(&mut self.sizes, text::copy(path), sum);
        over
    }

    /// Adds the bytes of its own to a directory that is shown, where sizes are summed
    /// for those alone; tells whether its size is too large now.
    pub fn seed(&mut self, path: &str, own: u64, depth: usize, o: ScanOptions) -> (r: bool)
        ensures
            final(self)@ == (if o.shallow && depth <= o.max_depth {
                with_bytes(old(self)@, path@, own)
            } else {
                old(self)@
            }),
            r == (o.shallow && depth <= o.max_depth && size_in(old(self)@, path@) + own > u64::MAX),
    {
        if o.shallow && depth <= o.max_depth {
            self.increase(path, own)
        } else {
            false
        }
    }

    /// Adds the bytes of a directory where they count; tells whether some size is
    /// too large now.
    pub fn share(&mut self, root: &str, v: &Visible, bytes: LevelBytes) -> (r: bool)
        ensures
            final(self)@ == with_shared(old(self)@, root@, v@, bytes),
            r == ({
                let a = with_bytes(old(self)@, root@, bytes.root);
                let b = with_bytes_opt(a, v@.depth1, bytes.first);
                ||| size_in(old(self)@, root@) + bytes.root > u64::MAX
                ||| v@.depth1 is Some && size_in(a, v@.depth1->0) + bytes.first > u64::MAX
                ||| v@.depth2 is Some && size_in(b, v@.depth2->0) + bytes.second > u64::MAX
            }),
    {
        let mut over = self.increase(root, bytes.root);
        if let Some(p) = &v.depth1 {
            if self.increase(p.as_str(), bytes.first) {
                over = true;
            }
        }
        if let Some(p) = &v.depth2 {
            if self.increase(p.as_str(), bytes.second) {
                over = true;
            }
        }
        over
    }
}

/// What a directory shares goes to directories that hold it: one right below
/// the root, and where two levels are shown, one below that.
pub proof fn law_shown_directories_hold_what_they_count(
    root: Seq<char>,
    current: Seq<char>,
    max_depth: int,
)
    requires
        root.len() > 0,
        paths::under(current, root),
    ensures
        ({
            let depth = paths::below(current, root).len() as int;
            let v = visible_of(root, current, depth, max_depth);
            &&& v.depth1 is Some <==> depth >= 1
            &&& v.depth2 is Some <==> depth >= 2 && max_depth >= 2
            &&& v.depth1 is Some ==> paths::under(current, v.depth1->0) && paths::below(
                v.depth1->0,
                root,
            ) == paths::below(current, root).take(1)
            &&& v.depth2 is Some ==> paths::under(current, v.depth2->0) && paths::below(
                v.depth2->0,
                root,
            ) == paths::below(current, root).take(2)
        }),
{
    let names = paths::below(current, root);
    let all = paths::comps(current);
    let top = paths::comps(root);
    assert(all == top + names);
    paths::lemma_names_below(current, root);
    if names.len() >= 1 {
        let first = names[0];
        paths::lemma_single_name(first);
        paths::law_joining_goes_down(root, first);
        let one = paths::joined_path(root, first);
        assert(paths::comps(one) == top.push(first));
        assert(all.take(top.len() as int + 1) == top.push(first));
        assert(names.take(1) == seq![first]);
        if names.len() >= 2 {
            let second = names[1];
            paths::lemma_single_name(second);
            paths::law_joining_goes_down(one, second);
            let two = paths::joined_path(one, second);
            assert(paths::comps(two) == top.push(first).push(second));
            assert(all.take(top.len() as int + 2) == top.push(first).push(second));
            assert(names.take(2) == seq![first, second]);
            assert(top.push(first).push(second).skip(top.len() as int) == seq![first, second]);
        }
    }
    if names.len() == 1 {
        assert(names.take(1) == names);
    }
    if names.len() == 2 {
        assert(names.take(2) == names);
    }
    assert(all.take(all.len() as int) == all);
}

/// What a share adds to the size of a path.
pub open spec fn share_for(
    root: Seq<char>,
    v: VisibleView,
    bytes: LevelBytes,
    path: Seq<char>,
) -> nat {
    (if path == root {
        bytes.root as nat
    } else {
        0
    }) + (if v.depth1 == Some(path) {
        bytes.first as nat
    } else {
        0
    }) + (if v.depth2 == Some(path) {
        bytes.second as nat
    } else {
        0
    })
}

/// The sizes after the shares of a whole scan.
pub open spec fn with_all_shared(
    m: Map<Seq<char>, u64>,
    root: Seq<char>,
    shares: Seq<(VisibleView, LevelBytes)>,
) -> Map<Seq<char>, u64>
    decreases shares.len(),
{
    if shares.len() == 0 {
        m
    } else {
        let last = shares.last();
        with_shared(with_all_shared(m, root, shares.drop_last()), root, last.0, last.1)
    }
}

/// The sum of what the shares of a scan add to the size of a path.
pub open spec fn all_shares_for(
    root: Seq<char>,
    shares: Seq<(VisibleView, LevelBytes)>,
    path: Seq<char>,
) -> nat
    decreases shares.len(),
{
    if shares.len() == 0 {
        0
    } else {
        all_shares_for(root, shares.drop_last(), path) + share_for(
            root,
            shares.last().0,
            shares.last().1,
            path,
        )
    }
}

/// The size of a path after a scan is what it was, and all that was shared with
/// it, in whatever order; the largest number there is, where that is too much.
pub proof fn law_shares_add_up(
    m: Map<Seq<char>, u64>,
    root: Seq<char>,
    shares: Seq<(VisibleView, LevelBytes)>,
    path: Seq<char>,
)
    ensures
        size_in(with_all_shared(m, root, shares), path) == aggregation::capped(
            size_in(m, path) as nat + all_shares_for(root, shares, path),
        ),
    decreases shares.len(),
{
    if shares.len() > 0 {
        let front = shares.drop_last();
        law_shares_add_up(m, root, front, path);
        let before = with_all_shared(m, root, front);
        let (v, bytes) = shares.last();
        let a = with_bytes(before, root, bytes.root);
        let b = with_bytes_opt(a, v.depth1, bytes.first);
        let c = with_bytes_opt(b, v.depth2, bytes.second);
        assert(with_all_shared(m, root, shares) == c);
        assert(size_in(a, path) == aggregation::capped(
            size_in(before, path) as nat + if path == root {
                bytes.root as nat
            } else {
                0
            },
        ));
        assert(size_in(b, path) == aggregation::capped(
            size_in(a, path) as nat + if v.depth1 == Some(path) {
                bytes.first as nat
            } else {
                0
            },
        ));
        assert(size_in(c, path) == aggregation::capped(
            size_in(b, path) as nat + if v.depth2 == Some(path) {
                bytes.second as nat
            } else {
                0
            },
        ));
    }
}

/// A directory that was scanned.
pub struct ScannedDir {
    pub path: String,
    pub stubs: Option<Vec<EntryStub>>,
    pub bytes: LevelBytes,
    pub dirs: u64,
    pub files: u64,
}

/// What a finished scan found.
pub struct Scanned {
    pub scan: ScanResult,
    pub overflowed: bool,
}

/// The directories with the entries that are listed.
pub open spec fn listed_dirs(dirs: Seq<ScannedDir>) -> Map<Seq<char>, PathFacts>
    decreases dirs.len(),
{
    if dirs.len() == 0 {
        Map::empty()
    } else {
        let d = dirs.last();
        listed_dirs(dirs.drop_last()).insert(
            d.path@,
            PathFacts {
                path: d.path,
                children: d.stubs,
                size: None,
                dirs: None,
                files: None,
                git: None,
            },
        )
    }
}

/// How deep a path lies below the root.
pub open spec fn level_of(path: Seq<char>, root: Seq<char>) -> int {
    paths::comps(path).len() - paths::comps(root).len()
}

/// Whether a directory is kept: where sizes are summed for the directories that are
/// shown alone, no other one is.
pub open spec fn is_kept(path: Seq<char>, root: Seq<char>, o: ScanOptions) -> bool {
    !o.shallow || level_of(path, root) <= o.max_depth
}

/// The directories that are kept.
pub open spec fn kept_dirs(dirs: Seq<ScannedDir>, root: Seq<char>, o: ScanOptions) -> Seq<ScannedDir>
    decreases dirs.len(),
{
    if dirs.len() == 0 {
        dirs
    } else {
        let rest = kept_dirs(dirs.drop_last(), root, o);
        if is_kept(dirs.last().path@, root, o) {
            rest.push(dirs.last())
        } else {
            rest
        }
    }
}

/// Tells whether a directory is kept.
pub fn keeps_dir(path: &str, root: &str, o: ScanOptions) -> (r: bool)
    ensures
        r == is_kept(path@, root@, o),
{
    if !o.shallow {
        return true;
    }
    let top: usize = paths::components(text::to_chars(root).as_slice()).len();
    let depth: usize = paths::components(text::to_chars(path).as_slice()).len();
    depth <= top || depth - top <= o.max_depth
}

/// The directories from a level on.
pub open spec fn dirs_from(dirs: Seq<ScannedDir>, root: Seq<char>, level: int) -> Seq<ScannedDir>
    decreases dirs.len(),
{
    if dirs.len() == 0 {
        dirs
    } else {
        let rest = dirs_from(dirs.drop_last(), root, level);
        if level_of(dirs.last().path@, root) >= level {
            rest.push(dirs.last())
        } else {
            rest
        }
    }
}

/// The bytes that count for the directories of a level.
pub open spec fn bytes_at(bytes: LevelBytes, level: int) -> u64 {
    if level <= 0 {
        bytes.root
    } else if level == 1 {
        bytes.first
    } else {
        bytes.second
    }
}

/// What is folded upwards of a directory for those of a level: its bytes, its
/// files and its directories, each where it was asked for.
pub open spec fn is_fold_entry(
    e: FoldEntry,
    d: ScannedDir,
    level: int,
    sizes: bool,
    counts: bool,
) -> bool {
    &&& e.path == d.path
    &&& e.totals@ == seq![
        if sizes {
            bytes_at(d.bytes, level)
        } else {
            0
        },
        if counts {
            d.files
        } else {
            0
        },
        if counts {
            d.dirs
        } else {
            0
        },
    ]
}

/// Whether a list is what is folded upwards of some directories.
pub open spec fn fold_entries(
    list: Seq<FoldEntry>,
    dirs: Seq<ScannedDir>,
    level: int,
    sizes: bool,
    counts: bool,
) -> bool {
    list.len() == dirs.len() && forall|i: int|
        0 <= i < list.len() ==> is_fold_entry(#[trigger] list[i], dirs[i], level, sizes, counts)
}

/// Whether entries are those of a list, folded upwards.
pub open spec fn is_folded(entries: Seq<FoldEntry>, overflowed: bool, list: Seq<FoldEntry>) -> bool {
    let sorted = crate::order::ranked(list);
    let parents = aggregation::parents_of(aggregation::parts_of(sorted));
    let owns = aggregation::all_owns(sorted);
    &&& entries.len() == sorted.len()
    &&& forall|k: int| 0 <= k < sorted.len() ==> (#[trigger] entries[k]).path == sorted[k].path
    &&& forall|k: int, m: int|
        #![trigger entries[k].totals@[m]]
        0 <= k < sorted.len() && 0 <= m < 3 ==> entries[k].totals@[m] == aggregation::capped(
            aggregation::exact(owns[m], parents, k),
        )
    &&& overflowed == aggregation::overflows(owns, parents)
}

/// Whether entries are the directories from a level on, folded upwards.
pub open spec fn is_level_fold(
    entries: Seq<FoldEntry>,
    overflowed: bool,
    dirs: Seq<ScannedDir>,
    root: Seq<char>,
    level: int,
    sizes: bool,
    counts: bool,
) -> bool {
    exists|list: Seq<FoldEntry>|
        {
            &&& fold_entries(list, dirs_from(dirs, root, level), level, sizes, counts)
            &&& #[trigger] is_folded(entries, overflowed, list)
        }
}

/// What is known of the paths with totals put in: sizes, files and directories,
/// each where it was asked for.
pub open spec fn with_totals(
    scan: Map<Seq<char>, PathFacts>,
    entries: Seq<FoldEntry>,
    sizes: bool,
    counts: bool,
) -> Map<Seq<char>, PathFacts>
    decreases entries.len(),
{
    if entries.len() == 0 {
        scan
    } else {
        let rest = with_totals(scan, entries.drop_last(), sizes, counts);
        let e = entries.last();
        tree::with_path_totals(
            rest,
            e.path,
            if sizes {
                Some(e.totals@[0])
            } else {
                None
            },
            if counts {
                Some(e.totals@[2])
            } else {
                None
            },
            if counts {
                Some(e.totals@[1])
            } else {
                None
            },
        )
    }
}

/// What is known of the directories with the sums of three levels put in: those
/// for the root, which all directories get first, those for the first level, which
/// take their place from there on, and those for the second.
pub open spec fn with_levels(
    dirs: Seq<ScannedDir>,
    all: Seq<FoldEntry>,
    first: Seq<FoldEntry>,
    second: Seq<FoldEntry>,
    sizes: bool,
    counts: bool,
) -> Map<Seq<char>, PathFacts> {
    with_totals(
        with_totals(with_totals(listed_dirs(dirs), all, sizes, counts), first, sizes, false),
        second,
        sizes,
        false,
    )
}

/// Whether a result is what a scan found: the entries of each directory that is kept,
/// and the totals of each with all below it. The root sums what counts for it, a directory
/// of the first level what counts for that one, and those below what counts for
/// the one of the second level.
pub open spec fn is_scanned(
    r: Scanned,
    root: Seq<char>,
    dirs: Seq<ScannedDir>,
    o: ScanOptions,
) -> bool {
    is_summed_up(
        r,
        root,
        kept_dirs(dirs, root, o),
        o.sizes && !o.shallow,
        o.counts && !o.shallow,
    )
}

/// Whether a result holds the entries of each directory, and the totals that are
/// asked for.
pub open spec fn is_summed_up(
    r: Scanned,
    root: Seq<char>,
    dirs: Seq<ScannedDir>,
    sizes: bool,
    counts: bool,
) -> bool {
    exists|
        all: Seq<FoldEntry>,
        first: Seq<FoldEntry>,
        second: Seq<FoldEntry>,
        over_all: bool,
        over_first: bool,
        over_second: bool,
    |
        {
            &&& #[trigger] is_level_fold(all, over_all, dirs, root, 0, sizes, counts)
            &&& #[trigger] is_level_fold(first, over_first, dirs, root, 1, sizes, false)
            &&& #[trigger] is_level_fold(second, over_second, dirs, root, 2, sizes, false)
            &&& r.scan@ == with_levels(dirs, all, first, second, sizes, counts)
            &&& r.overflowed == (over_all || over_first || over_second)
        }
}

fn fold_entry(d: &ScannedDir, level: usize, sizes: bool, counts: bool) -> (r: FoldEntry)
    ensures
        is_fold_entry(r, *d, level as int, sizes, counts),
{
    let bytes: u64 = if !sizes {
        0
    } else if level == 0 {
        d.bytes.root
    } else if level == 1 {
        d.bytes.first
    } else {
        d.bytes.second
    };
    let files: u64 = if counts {
        d.files
    } else {
        0
    };
    let dirs: u64 = if counts {
        d.dirs
    } else {
        0
    };
    let r = FoldEntry { path: d.path.clone(), totals: [bytes, files, dirs] };
    assert(r.totals@ == seq![bytes, files, dirs]);
    r
}

/// Folds the directories from a level on upwards.
fn fold_level(
    dirs: &Vec<ScannedDir>,
    root: &str,
    level: usize,
    sizes: bool,
    counts: bool,
) -> (r: Folded)
    ensures
        is_level_fold(r.entries@, r.overflowed, dirs@, root@, level as int, sizes, counts),
{
    let top: usize = paths::components(text::to_chars(root).as_slice()).len();
    let mut list: Vec<FoldEntry> = Vec::new();
    let mut i: usize = 0;
    assert(dirs@.take(0) == Seq::<ScannedDir>::empty());
    while i < dirs.len()
        invariant
            i <= dirs@.len(),
            top == paths::comps(root@).len(),
            fold_entries(
                list@,
                dirs_from(dirs@.take(i as int), root@, level as int),
                level as int,
                sizes,
                counts,
            ),
        decreases dirs@.len() - i,
    {
        let ghost step = dirs@.take(i + 1);
        assert(step.drop_last() == dirs@.take(i as int));
        assert(step.last() == dirs@[i as int]);
        let depth: usize = paths::components(
            text::to_chars(dirs[i].path.as_str()).as_slice(),
        ).len();
        if depth >= top && depth - top >= level {
            list.push(fold_entry(&dirs[i], level, sizes, counts));
        }
        i = i + 1;
    }
    assert(dirs@.take(i as int) == dirs@);
    let ghost first = list@;
    let folded = aggregation::fold(list);
    assert(is_folded(folded.entries@, folded.overflowed, first));
    folded
}

/// Puts totals in.
fn put_totals(scan: ScanResult, entries: &Vec<FoldEntry>, sizes: bool, counts: bool) -> (r:
    ScanResult)
    requires
        scan.wf(),
    ensures
        r.wf(),
        r@ == with_totals(scan@, entries@, sizes, counts),
{
    let ghost base = scan@;
    let mut out = scan;
    let mut i: usize = 0;
    assert(entries@.take(0) == Seq::<FoldEntry>::empty());
    while i < entries.len()
        invariant
            i <= entries@.len(),
            out.wf(),
            out@ == with_totals(base, entries@.take(i as int), sizes, counts),
        decreases entries@.len() - i,
    {
        let ghost step = entries@.take(i + 1);
        assert(step.drop_last() == entries@.take(i as int));
        assert(step.last() == entries@[i as int]);
        let totals = entries[i].totals;
        let size = if sizes {
            Some(totals[0])
        } else {
            None
        };
        let dir_count = if counts {
            Some(totals[2])
        } else {
            None
        };
        let file_count = if counts {
            Some(totals[1])
        } else {
            None
        };
        out.set_totals(&entries[i].path, size, dir_count, file_count);
        i = i + 1;
    }
    assert(entries@.take(i as int) == entries@);
    out
}

/// Drops the directories that are not kept.
fn keep_dirs(dirs: Vec<ScannedDir>, root: &str, o: ScanOptions) -> (r: Vec<ScannedDir>)
    ensures
        r@ == kept_dirs(dirs@, root@, o),
{
    let ghost all = dirs@;
    assert(all.len() == dirs.len());
    let mut out: Vec<ScannedDir> = Vec::new();
    let mut rest = dirs;
    crate::order::reverse(&mut rest);
    let mut n: usize = 0;
    assert(all.skip(0) == all);
    assert(all.take(0) == Seq::<ScannedDir>::empty());
    while rest.len() > 0
        invariant
            n <= all.len() <= usize::MAX,
            rest@ == all.skip(n as int).reverse(),
            out@ == kept_dirs(all.take(n as int), root@, o),
        decreases rest@.len(),
    {
        let ghost tail = all.skip(n as int);
        assert(rest@.len() == tail.len());
        if let Some(d) = rest.pop() {
            assert(d == tail[0]);
            assert(rest@ == all.skip(n + 1).reverse());
            assert(all.take(n + 1).drop_last() == all.take(n as int));
            assert(all.take(n + 1).last() == d);
            if keeps_dir(d.path.as_str(), root, o) {
                out.push(d);
            }
        }
        n = n + 1;
    }
    assert(n == all.len());
    assert(all.take(n as int) == all);
    out
}

/// Puts together what a scan found: the entries of each directory that is kept, and
/// the totals of each with all below it.
pub fn finish_scan(root: &str, dirs: Vec<ScannedDir>, o: ScanOptions) -> (r: Scanned)
    ensures
        r.scan.wf(),
        is_scanned(r, root@, dirs@, o),
{
    let dirs = keep_dirs(dirs, root, o);
    let ghost all = dirs@;
    assert(all.len() == dirs.len());
    let sizes = o.sizes && !o.shallow;
    let counts = o.counts && !o.shallow;
    let for_root = fold_level(&dirs, root, 0, sizes, counts);
    let for_first = fold_level(&dirs, root, 1, sizes, false);
    let for_second = fold_level(&dirs, root, 2, sizes, false);
    let mut scan = ScanResult::new();
    let mut rest = dirs;
    crate::order::reverse(&mut rest);
    let mut n: usize = 0;
    assert(all.skip(0) == all);
    assert(all.take(0) == Seq::<ScannedDir>::empty());
    while rest.len() > 0
        invariant
            n <= all.len() <= usize::MAX,
            rest@ == all.skip(n as int).reverse(),
            scan.wf(),
            scan@ == listed_dirs(all.take(n as int)),
        decreases rest@.len(),
    {
        let ghost tail = all.skip(n as int);
        assert(rest@.len() == tail.len());
        let d = rest.pop();
        match d {
            Some(d) => {
                assert(d == tail[0]);
                assert(rest@ == all.skip(n + 1).reverse());
                assert(all.take(n + 1).drop_last() == all.take(n as int));
                scan.set(
                    PathFacts {
                        path: d.path,
                        children: d.stubs,
                        size: None,
                        dirs: None,
                        files: None,
                        git: None,
                    },
                );
                n = n + 1;
            },
            None => {
                assert(false);
            },
        }
    }
    assert(n == all.len());
    assert(all.take(n as int) == all);
    let scan = put_totals(scan, &for_root.entries, sizes, counts);
    let scan = put_totals(scan, &for_first.entries, sizes, false);
    let scan = put_totals(scan, &for_second.entries, sizes, false);
    let overflowed = for_root.overflowed || for_first.overflowed || for_second.overflowed;
    let r = Scanned { scan, overflowed };
    assert(r.scan@ == with_levels(
        all,
        for_root.entries@,
        for_first.entries@,
        for_second.entries@,
        sizes,
        counts,
    ));
    r
}

/// The components of the paths of some directories.
pub open spec fn dir_parts(dirs: Seq<ScannedDir>) -> Seq<Seq<Seq<char>>> {
    dirs.map_values(|d: ScannedDir| paths::comps(d.path@))
}

/// The bytes of the directories at a path or below it, by what they count for at a
/// level.
pub open spec fn bytes_below(dirs: Seq<ScannedDir>, path: Seq<char>, level: int) -> nat
    decreases dirs.len(),
{
    if dirs.len() == 0 {
        0
    } else {
        bytes_below(dirs.drop_last(), path, level) + (if aggregation::holds(
            paths::comps(path),
            paths::comps(dirs.last().path@),
        ) {
            bytes_at(dirs.last().bytes, level) as nat
        } else {
            0
        })
    }
}

/// The files in the directories at a path or below it.
pub open spec fn files_below(dirs: Seq<ScannedDir>, path: Seq<char>) -> nat
    decreases dirs.len(),
{
    if dirs.len() == 0 {
        0
    } else {
        files_below(dirs.drop_last(), path) + (if aggregation::holds(
            paths::comps(path),
            paths::comps(dirs.last().path@),
        ) {
            dirs.last().files as nat
        } else {
            0
        })
    }
}

/// The directories in the directories at a path or below it.
pub open spec fn dirs_below(dirs: Seq<ScannedDir>, path: Seq<char>) -> nat
    decreases dirs.len(),
{
    if dirs.len() == 0 {
        0
    } else {
        dirs_below(dirs.drop_last(), path) + (if aggregation::holds(
            paths::comps(path),
            paths::comps(dirs.last().path@),
        ) {
            dirs.last().dirs as nat
        } else {
            0
        })
    }
}

spec fn entry_sum(list: Seq<FoldEntry>, p: Seq<Seq<char>>, m: int) -> nat
    decreases list.len(),
{
    if list.len() == 0 {
        0
    } else {
        entry_sum(list.drop_last(), p, m) + entry_term(list.last(), p, m)
    }
}

spec fn entry_term(e: FoldEntry, p: Seq<Seq<char>>, m: int) -> nat {
    if aggregation::holds(p, paths::comps(e.path@)) {
        e.totals@[m] as nat
    } else {
        0
    }
}

proof fn lemma_push_parts(s: Seq<FoldEntry>, x: FoldEntry)
    ensures
        aggregation::parts_of(s.push(x)) == aggregation::parts_of(s).push(paths::comps(x.path@)),
        s.push(x).drop_last() == s,
{
}

proof fn lemma_placed_entry(s: Seq<FoldEntry>, x: FoldEntry, p: Seq<Seq<char>>, m: int)
    requires
        aggregation::parts_of(s).no_duplicates(),
        !aggregation::parts_of(s).contains(paths::comps(x.path@)),
    ensures
        entry_sum(crate::order::placed(s, x), p, m) == entry_sum(s, p, m) + entry_term(x, p, m),
        aggregation::parts_of(crate::order::placed(s, x)).no_duplicates(),
        forall|q: Seq<Seq<char>>| #[trigger]
            aggregation::parts_of(crate::order::placed(s, x)).contains(q)
                <==> aggregation::parts_of(s).contains(q) || q == paths::comps(x.path@),
    decreases s.len(),
{
    let parts = aggregation::parts_of(s);
    if s.len() > 0 && crate::order::Ranked::before(x, s.last()) {
        let front = s.drop_last();
        let front_parts = aggregation::parts_of(front);
        lemma_push_parts(front, s.last());
        assert(front.push(s.last()) == s);
        lemma_pushed_parts(front_parts, paths::comps(s.last().path@));
        assert(front_parts.no_duplicates()) by {
            assert forall|a: int, b: int| 0 <= a < b < front_parts.len() implies front_parts[a]
                != front_parts[b] by {
                assert(parts[a] == front_parts[a] && parts[b] == front_parts[b]);
            }
        }
        assert(!front_parts.contains(paths::comps(s.last().path@))) by {
            if front_parts.contains(parts.last()) {
                let a = choose|a: int| 0 <= a < front_parts.len() && front_parts[a] == parts.last();
                assert(parts[a] == parts[parts.len() - 1]);
            }
        }
        lemma_placed_entry(front, x, p, m);
        let mid = crate::order::placed(front, x);
        lemma_push_parts(mid, s.last());
        lemma_pushed_parts(aggregation::parts_of(mid), paths::comps(s.last().path@));
        assert(paths::comps(s.last().path@) == parts.last());
        assert(parts.contains(parts.last()));
    } else {
        lemma_push_parts(s, x);
        lemma_pushed_parts(parts, paths::comps(x.path@));
    }
}

proof fn lemma_pushed_parts(parts: Seq<Seq<Seq<char>>>, x: Seq<Seq<char>>)
    ensures
        parts.no_duplicates() && !parts.contains(x) ==> parts.push(x).no_duplicates(),
        forall|q: Seq<Seq<char>>| #[trigger]
            parts.push(x).contains(q) <==> parts.contains(q) || q == x,
{
    let all = parts.push(x);
    assert forall|q: Seq<Seq<char>>| #[trigger] all.contains(q) <==> parts.contains(q) || q == x by {
        if parts.contains(q) {
            let a = choose|a: int| 0 <= a < parts.len() && parts[a] == q;
            assert(all[a] == q);
        }
        if q == x {
            assert(all[parts.len() as int] == q);
        }
        if all.contains(q) && q != x {
            let a = choose|a: int| 0 <= a < all.len() && all[a] == q;
            assert(parts[a] == q);
        }
    }
    if parts.no_duplicates() && !parts.contains(x) {
        assert forall|a: int, b: int| 0 <= a < b < all.len() implies all[a] != all[b] by {
            assert(parts[a] == all[a]);
            assert(parts.contains(parts[a]));
        }
    }
}

proof fn lemma_ranked_entries(s: Seq<FoldEntry>, p: Seq<Seq<char>>, m: int)
    requires
        aggregation::parts_of(s).no_duplicates(),
    ensures
        entry_sum(crate::order::ranked(s), p, m) == entry_sum(s, p, m),
        aggregation::parts_of(crate::order::ranked(s)).no_duplicates(),
        forall|q: Seq<Seq<char>>| #[trigger]
            aggregation::parts_of(crate::order::ranked(s)).contains(q)
                <==> aggregation::parts_of(s).contains(q),
    decreases s.len(),
{
    if s.len() > 0 {
        let parts = aggregation::parts_of(s);
        let front = s.drop_last();
        let front_parts = aggregation::parts_of(front);
        lemma_push_parts(front, s.last());
        assert(front.push(s.last()) == s);
        lemma_pushed_parts(front_parts, paths::comps(s.last().path@));
        assert forall|a: int, b: int| 0 <= a < b < front_parts.len() implies front_parts[a]
            != front_parts[b] by {
            assert(parts[a] == front_parts[a] && parts[b] == front_parts[b]);
        }
        lemma_ranked_entries(front, p, m);
        assert(!front_parts.contains(parts.last())) by {
            if front_parts.contains(parts.last()) {
                let a = choose|a: int| 0 <= a < front_parts.len() && front_parts[a] == parts.last();
                assert(parts[a] == parts[parts.len() - 1]);
            }
        }
        assert(parts.last() == paths::comps(s.last().path@));
        lemma_placed_entry(crate::order::ranked(front), s.last(), p, m);
    }
}

proof fn lemma_chosen_entries(sorted: Seq<FoldEntry>, k: int, n: int, m: int)
    requires
        0 <= k < sorted.len(),
        0 <= n <= sorted.len(),
    ensures
        aggregation::chosen_sum(
            aggregation::owns_of(sorted, m),
            aggregation::at_or_below(aggregation::parts_of(sorted), k),
            n,
        ) == entry_sum(sorted.take(n), aggregation::parts_of(sorted)[k], m),
    decreases n,
{
    if n > 0 {
        lemma_chosen_entries(sorted, k, n - 1, m);
        assert(sorted.take(n).drop_last() == sorted.take(n - 1));
        assert(sorted.take(n).last() == sorted[n - 1]);
        assert(aggregation::parts_of(sorted)[n - 1] == paths::comps(sorted[n - 1].path@));
    }
}

proof fn lemma_level_entries(
    list: Seq<FoldEntry>,
    dirs: Seq<ScannedDir>,
    root: Seq<char>,
    level: int,
    sizes: bool,
    counts: bool,
    path: Seq<char>,
)
    requires
        fold_entries(list, dirs_from(dirs, root, level), level, sizes, counts),
        dir_parts(dirs).no_duplicates(),
    ensures
        aggregation::parts_of(list).no_duplicates(),
        forall|i: int|
            0 <= i < dirs.len() ==> (level_of((#[trigger] dirs[i]).path@, root) >= level
                <==> aggregation::parts_of(list).contains(paths::comps(dirs[i].path@))),
        forall|q: Seq<Seq<char>>| #[trigger]
            aggregation::parts_of(list).contains(q) ==> dir_parts(dirs).contains(q),
        sizes && level_of(path, root) >= level ==> entry_sum(list, paths::comps(path), 0)
            == bytes_below(dirs, path, level),
        counts && level_of(path, root) >= level ==> entry_sum(list, paths::comps(path), 1)
            == files_below(dirs, path),
        counts && level_of(path, root) >= level ==> entry_sum(list, paths::comps(path), 2)
            == dirs_below(dirs, path),
    decreases dirs.len(),
{
    if dirs.len() == 0 {
        assert(aggregation::parts_of(list) =~= Seq::empty());
    } else {
        let front = dirs.drop_last();
        let d = dirs.last();
        let all = dir_parts(dirs);
        let front_parts = dir_parts(front);
        assert(all == front_parts.push(paths::comps(d.path@)));
        lemma_pushed_parts(front_parts, paths::comps(d.path@));
        assert forall|a: int, b: int| 0 <= a < b < front_parts.len() implies front_parts[a]
            != front_parts[b] by {
            assert(all[a] == front_parts[a] && all[b] == front_parts[b]);
        }
        assert(!front_parts.contains(paths::comps(d.path@))) by {
            if front_parts.contains(all.last()) {
                let a = choose|a: int| 0 <= a < front_parts.len() && front_parts[a] == all.last();
                assert(all[a] == all[all.len() - 1]);
            }
        }
        let kept = level_of(d.path@, root) >= level;
        let rest = if kept {
            list.drop_last()
        } else {
            list
        };
        let from = dirs_from(front, root, level);
        assert(fold_entries(rest, from, level, sizes, counts)) by {
            assert forall|i: int| 0 <= i < rest.len() implies is_fold_entry(
                #[trigger] rest[i],
                from[i],
                level,
                sizes,
                counts,
            ) by {
                assert(rest[i] == list[i]);
                assert(dirs_from(dirs, root, level)[i] == from[i]);
            }
        }
        lemma_level_entries(rest, front, root, level, sizes, counts, path);
        if kept {
            let e = list.last();
            assert(is_fold_entry(list[list.len() - 1], d, level, sizes, counts));
            lemma_push_parts(rest, e);
            assert(rest.push(e) == list);
            lemma_pushed_parts(aggregation::parts_of(rest), paths::comps(e.path@));
            assert(sizes ==> e.totals@[0] == bytes_at(d.bytes, level));
            assert(counts ==> e.totals@[1] == d.files && e.totals@[2] == d.dirs);
        }
        assert forall|i: int| 0 <= i < dirs.len() implies (level_of(
            (#[trigger] dirs[i]).path@,
            root,
        ) >= level <==> aggregation::parts_of(list).contains(paths::comps(dirs[i].path@))) by {
            if i < front.len() {
                assert(front[i] == dirs[i]);
                assert(all[i] == paths::comps(dirs[i].path@));
                assert(all[i] != all[all.len() - 1]);
            }
        }
    }
}

proof fn lemma_level_size(
    entries: Seq<FoldEntry>,
    overflowed: bool,
    dirs: Seq<ScannedDir>,
    root: Seq<char>,
    level: int,
    sizes: bool,
    counts: bool,
    i: int,
)
    requires
        is_level_fold(entries, overflowed, dirs, root, level, sizes, counts),
        dir_parts(dirs).no_duplicates(),
        0 <= i < dirs.len(),
    ensures
        level_of(dirs[i].path@, root) >= level ==> exists|k: int|
            0 <= k < entries.len() && (#[trigger] entries[k]).path@ == dirs[i].path@,
        forall|k: int|
            0 <= k < entries.len() && (#[trigger] entries[k]).path@ == dirs[i].path@ ==> level_of(
                dirs[i].path@,
                root,
            ) >= level && (sizes ==> entries[k].totals@[0] == aggregation::capped(
                bytes_below(dirs, dirs[i].path@, level),
            )) && (counts ==> entries[k].totals@[1] == aggregation::capped(
                files_below(dirs, dirs[i].path@),
            ) && entries[k].totals@[2] == aggregation::capped(dirs_below(dirs, dirs[i].path@))),
{
    let path = dirs[i].path@;
    let p = paths::comps(path);
    let list = choose|list: Seq<FoldEntry>|
        {
            &&& fold_entries(list, dirs_from(dirs, root, level), level, sizes, counts)
            &&& #[trigger] is_folded(entries, overflowed, list)
        };
    let sorted = crate::order::ranked(list);
    let parts = aggregation::parts_of(sorted);
    lemma_level_entries(list, dirs, root, level, sizes, counts, path);
    lemma_ranked_entries(list, p, 0);
    lemma_ranked_entries(list, p, 1);
    lemma_ranked_entries(list, p, 2);
    crate::order::law_ranked(list);
    assert(level_of(dirs[i].path@, root) >= level <==> aggregation::parts_of(list).contains(p));
    assert forall|k: int|
        0 <= k < entries.len() && (#[trigger] entries[k]).path@ == path implies level_of(path, root)
        >= level && (sizes ==> entries[k].totals@[0] == aggregation::capped(
        bytes_below(dirs, path, level),
    )) && (counts ==> entries[k].totals@[1] == aggregation::capped(files_below(dirs, path))
        && entries[k].totals@[2] == aggregation::capped(dirs_below(dirs, path))) by {
        assert(entries[k].path == sorted[k].path);
        assert(parts[k] == p);
        assert(parts.contains(p));
        let owns = aggregation::all_owns(sorted);
        assert(owns[0] == aggregation::owns_of(sorted, 0));
        assert(owns[1] == aggregation::owns_of(sorted, 1));
        assert(owns[2] == aggregation::owns_of(sorted, 2));
        aggregation::law_total_is_all_below(sorted, owns[0], k);
        aggregation::law_total_is_all_below(sorted, owns[1], k);
        aggregation::law_total_is_all_below(sorted, owns[2], k);
        lemma_chosen_entries(sorted, k, sorted.len() as int, 0);
        lemma_chosen_entries(sorted, k, sorted.len() as int, 1);
        lemma_chosen_entries(sorted, k, sorted.len() as int, 2);
        assert(sorted.take(sorted.len() as int) == sorted);
    }
    if level_of(path, root) >= level {
        assert(parts.contains(p));
        lemma_known_by_parts(entries, overflowed, list, dirs, root, level, sizes, counts, i);
    }
}

proof fn lemma_known_by_parts(
    entries: Seq<FoldEntry>,
    overflowed: bool,
    list: Seq<FoldEntry>,
    dirs: Seq<ScannedDir>,
    root: Seq<char>,
    level: int,
    sizes: bool,
    counts: bool,
    i: int,
)
    requires
        fold_entries(list, dirs_from(dirs, root, level), level, sizes, counts),
        is_folded(entries, overflowed, list),
        0 <= i < dirs.len(),
        level_of(dirs[i].path@, root) >= level,
    ensures
        exists|k: int| 0 <= k < entries.len() && (#[trigger] entries[k]).path@ == dirs[i].path@,
{
    let from = dirs_from(dirs, root, level);
    let a = lemma_kept(dirs, root, level, i);
    assert(is_fold_entry(list[a], from[a], level, sizes, counts));
    let sorted = crate::order::ranked(list);
    assert(list.contains(list[a]));
    crate::order::law_ranked_contains(list, list[a]);
    let k = choose|k: int| 0 <= k < sorted.len() && sorted[k] == list[a];
    assert(entries[k].path@ == dirs[i].path@);
}

proof fn lemma_kept(dirs: Seq<ScannedDir>, root: Seq<char>, level: int, i: int) -> (a: int)
    requires
        0 <= i < dirs.len(),
        level_of(dirs[i].path@, root) >= level,
    ensures
        0 <= a < dirs_from(dirs, root, level).len(),
        dirs_from(dirs, root, level)[a] == dirs[i],
    decreases dirs.len(),
{
    let front = dirs.drop_last();
    if i == front.len() {
        dirs_from(dirs, root, level).len() - 1
    } else {
        assert(front[i] == dirs[i]);
        lemma_kept(front, root, level, i)
    }
}

proof fn lemma_size_put_in(
    scan: Map<Seq<char>, PathFacts>,
    entries: Seq<FoldEntry>,
    counts: bool,
    path: Seq<char>,
    size: u64,
)
    requires
        forall|k: int|
            0 <= k < entries.len() && (#[trigger] entries[k]).path@ == path
                ==> entries[k].totals@[0] == size,
    ensures
        ({
            let r = with_totals(scan, entries, true, counts);
            if exists|k: int| 0 <= k < entries.len() && (#[trigger] entries[k]).path@ == path {
                r.contains_key(path) && r[path].size == Some(size)
            } else {
                r.contains_key(path) == scan.contains_key(path) && r[path] == scan[path]
            }
        }),
    decreases entries.len(),
{
    if entries.len() > 0 {
        let front = entries.drop_last();
        assert forall|k: int|
            0 <= k < front.len() && (#[trigger] front[k]).path@ == path implies front[k].totals@[0]
            == size by {
            assert(front[k] == entries[k]);
        }
        lemma_size_put_in(scan, front, counts, path, size);
        if exists|k: int| 0 <= k < front.len() && (#[trigger] front[k]).path@ == path {
            let k = choose|k: int| 0 <= k < front.len() && (#[trigger] front[k]).path@ == path;
            assert(entries[k].path@ == path);
        }
        if entries.last().path@ == path {
            assert(entries[entries.len() - 1].path@ == path);
        } else if exists|k: int| 0 <= k < entries.len() && (#[trigger] entries[k]).path@ == path {
            let k = choose|k: int| 0 <= k < entries.len() && (#[trigger] entries[k]).path@ == path;
            assert(front[k].path@ == path);
        }
    }
}

/// The size of a directory after a scan is the sum of the bytes at it and below
/// it: for the root those that count for the root, for a directory of the first
/// level those that count for it, and for one below those that count for the
/// directory of the second level. Where the sum is too large, the size is the
/// largest number there is.
pub proof fn law_sizes_add_up(
    r: Scanned,
    root: Seq<char>,
    dirs: Seq<ScannedDir>,
    o: ScanOptions,
    i: int,
)
    requires
        is_scanned(r, root, dirs, o),
        o.sizes && !o.shallow,
        dir_parts(dirs).no_duplicates(),
        0 <= i < dirs.len(),
        paths::under(dirs[i].path@, root),
    ensures
        r.scan@.contains_key(dirs[i].path@),
        r.scan@[dirs[i].path@].size == Some(
            aggregation::capped(
                bytes_below(dirs, dirs[i].path@, level_of(dirs[i].path@, root)),
            ),
        ),
{
    let counts = o.counts && !o.shallow;
    let path = dirs[i].path@;
    lemma_all_kept(dirs, root, o);
    let (all, first, second, a, b, c) = choose|
        all: Seq<FoldEntry>,
        first: Seq<FoldEntry>,
        second: Seq<FoldEntry>,
        over_all: bool,
        over_first: bool,
        over_second: bool,
    |
        {
            &&& #[trigger] is_level_fold(all, over_all, dirs, root, 0, true, counts)
            &&& #[trigger] is_level_fold(first, over_first, dirs, root, 1, true, false)
            &&& #[trigger] is_level_fold(second, over_second, dirs, root, 2, true, false)
            &&& r.scan@ == with_levels(dirs, all, first, second, true, counts)
            &&& r.overflowed == (over_all || over_first || over_second)
        };
    lemma_level_size(all, a, dirs, root, 0, true, counts, i);
    lemma_level_size(first, b, dirs, root, 1, true, false, i);
    lemma_level_size(second, c, dirs, root, 2, true, false, i);
    let base = listed_dirs(dirs);
    let x = with_totals(base, all, true, counts);
    let y = with_totals(x, first, true, false);
    lemma_size_put_in(base, all, counts, path, aggregation::capped(bytes_below(dirs, path, 0)));
    lemma_size_put_in(x, first, false, path, aggregation::capped(bytes_below(dirs, path, 1)));
    lemma_size_put_in(y, second, false, path, aggregation::capped(bytes_below(dirs, path, 2)));
    assert(level_of(path, root) >= 0);
    lemma_from_second(dirs, path, level_of(path, root));
}

/// The counts of a directory after a scan are the sums of the files and of the directories
/// in it and in all directories below it; the largest number there is, where that is too
/// much.
pub proof fn law_counts_add_up(
    r: Scanned,
    root: Seq<char>,
    dirs: Seq<ScannedDir>,
    o: ScanOptions,
    i: int,
)
    requires
        is_scanned(r, root, dirs, o),
        o.counts && !o.shallow,
        dir_parts(dirs).no_duplicates(),
        0 <= i < dirs.len(),
        paths::under(dirs[i].path@, root),
    ensures
        r.scan@.contains_key(dirs[i].path@),
        r.scan@[dirs[i].path@].files == Some(
            aggregation::capped(files_below(dirs, dirs[i].path@)),
        ),
        r.scan@[dirs[i].path@].dirs == Some(aggregation::capped(dirs_below(dirs, dirs[i].path@))),
{
    let sizes = o.sizes && !o.shallow;
    let path = dirs[i].path@;
    lemma_all_kept(dirs, root, o);
    let (all, first, second, a, b, c) = choose|
        all: Seq<FoldEntry>,
        first: Seq<FoldEntry>,
        second: Seq<FoldEntry>,
        over_all: bool,
        over_first: bool,
        over_second: bool,
    |
        {
            &&& #[trigger] is_level_fold(all, over_all, dirs, root, 0, sizes, true)
            &&& #[trigger] is_level_fold(first, over_first, dirs, root, 1, sizes, false)
            &&& #[trigger] is_level_fold(second, over_second, dirs, root, 2, sizes, false)
            &&& r.scan@ == with_levels(dirs, all, first, second, sizes, true)
            &&& r.overflowed == (over_all || over_first || over_second)
        };
    lemma_level_size(all, a, dirs, root, 0, sizes, true, i);
    let base = listed_dirs(dirs);
    let x = with_totals(base, all, sizes, true);
    let y = with_totals(x, first, sizes, false);
    assert(level_of(path, root) >= 0);
    lemma_counts_put_in(
        base,
        all,
        sizes,
        path,
        aggregation::capped(files_below(dirs, path)),
        aggregation::capped(dirs_below(dirs, path)),
    );
    lemma_counts_stay(x, first, sizes, path);
    lemma_counts_stay(y, second, sizes, path);
}

proof fn lemma_counts_put_in(
    scan: Map<Seq<char>, PathFacts>,
    entries: Seq<FoldEntry>,
    sizes: bool,
    path: Seq<char>,
    files: u64,
    dirs: u64,
)
    requires
        forall|k: int|
            0 <= k < entries.len() && (#[trigger] entries[k]).path@ == path
                ==> entries[k].totals@[1] == files && entries[k].totals@[2] == dirs,
        exists|k: int| 0 <= k < entries.len() && (#[trigger] entries[k]).path@ == path,
    ensures
        ({
            let r = with_totals(scan, entries, sizes, true);
            r.contains_key(path) && r[path].files == Some(files) && r[path].dirs == Some(dirs)
        }),
    decreases entries.len(),
{
    let front = entries.drop_last();
    assert forall|k: int| 0 <= k < front.len() && (#[trigger] front[k]).path@ == path implies
        front[k].totals@[1] == files && front[k].totals@[2] == dirs by {
        assert(front[k] == entries[k]);
    }
    if entries.last().path@ == path {
        assert(entries[entries.len() - 1].path@ == path);
    } else {
        let k = choose|k: int| 0 <= k < entries.len() && (#[trigger] entries[k]).path@ == path;
        assert(front[k].path@ == path);
        lemma_counts_put_in(scan, front, sizes, path, files, dirs);
    }
}

proof fn lemma_counts_stay(
    scan: Map<Seq<char>, PathFacts>,
    entries: Seq<FoldEntry>,
    sizes: bool,
    path: Seq<char>,
)
    requires
        scan.contains_key(path),
    ensures
        ({
            let r = with_totals(scan, entries, sizes, false);
            r.contains_key(path) && r[path].files == scan[path].files && r[path].dirs
                == scan[path].dirs
        }),
    decreases entries.len(),
{
    if entries.len() > 0 {
        lemma_counts_stay(scan, entries.drop_last(), sizes, path);
    }
}

proof fn lemma_all_kept(dirs: Seq<ScannedDir>, root: Seq<char>, o: ScanOptions)
    requires
        !o.shallow,
    ensures
        kept_dirs(dirs, root, o) == dirs,
    decreases dirs.len(),
{
    if dirs.len() > 0 {
        lemma_all_kept(dirs.drop_last(), root, o);
        assert(dirs.drop_last().push(dirs.last()) == dirs);
    }
}

/// Whether a path is that of some directory.
pub open spec fn is_path_of(path: Seq<char>, dirs: Seq<ScannedDir>) -> bool {
    exists|i: int| 0 <= i < dirs.len() && (#[trigger] dirs[i]).path@ == path
}

proof fn lemma_paths_kept(dirs: Seq<ScannedDir>, root: Seq<char>, o: ScanOptions, path: Seq<char>)
    ensures
        is_path_of(path, kept_dirs(dirs, root, o)) == (is_path_of(path, dirs) && is_kept(
            path,
            root,
            o,
        )),
    decreases dirs.len(),
{
    if dirs.len() > 0 {
        let front = dirs.drop_last();
        let rest = kept_dirs(front, root, o);
        lemma_paths_kept(front, root, o, path);
        lemma_path_pushed(path, front, dirs.last());
        lemma_path_pushed(path, rest, dirs.last());
        assert(front.push(dirs.last()) == dirs);
    }
}

proof fn lemma_path_pushed(path: Seq<char>, dirs: Seq<ScannedDir>, d: ScannedDir)
    ensures
        is_path_of(path, dirs.push(d)) == (is_path_of(path, dirs) || d.path@ == path),
{
    let all = dirs.push(d);
    if is_path_of(path, dirs) {
        let i = choose|i: int| 0 <= i < dirs.len() && (#[trigger] dirs[i]).path@ == path;
        assert(all[i].path@ == path);
    }
    if is_path_of(path, all) {
        let i = choose|i: int| 0 <= i < all.len() && (#[trigger] all[i]).path@ == path;
        if i < dirs.len() {
            assert(dirs[i].path@ == path);
        }
    }
    assert(all[dirs.len() as int] == d);
}

proof fn lemma_paths_from(dirs: Seq<ScannedDir>, root: Seq<char>, level: int, a: int)
    requires
        0 <= a < dirs_from(dirs, root, level).len(),
    ensures
        is_path_of(dirs_from(dirs, root, level)[a].path@, dirs),
    decreases dirs.len(),
{
    let front = dirs.drop_last();
    let rest = dirs_from(front, root, level);
    let path = dirs_from(dirs, root, level)[a].path@;
    if a < rest.len() {
        lemma_paths_from(front, root, level, a);
    }
    lemma_path_pushed(path, front, dirs.last());
    assert(front.push(dirs.last()) == dirs);
}

proof fn lemma_placed_from(s: Seq<FoldEntry>, x: FoldEntry, k: int)
    requires
        0 <= k < crate::order::placed(s, x).len(),
    ensures
        crate::order::placed(s, x)[k] == x || s.contains(crate::order::placed(s, x)[k]),
    decreases s.len(),
{
    if s.len() > 0 && crate::order::Ranked::before(x, s.last()) {
        let front = s.drop_last();
        let less = crate::order::placed(front, x);
        if k < less.len() {
            lemma_placed_from(front, x, k);
            if front.contains(less[k]) {
                let j = choose|j: int| 0 <= j < front.len() && front[j] == less[k];
                assert(s[j] == less[k]);
            }
        } else {
            assert(s.contains(s[s.len() - 1]));
        }
    } else if k < s.len() {
        assert(s.contains(s[k]));
    }
}

proof fn lemma_ranked_from(s: Seq<FoldEntry>, k: int)
    requires
        0 <= k < crate::order::ranked(s).len(),
    ensures
        s.contains(crate::order::ranked(s)[k]),
    decreases s.len(),
{
    let front = s.drop_last();
    let less = crate::order::ranked(front);
    let e = crate::order::ranked(s)[k];
    lemma_placed_from(less, s.last(), k);
    assert(s.contains(s[s.len() - 1]));
    if less.contains(e) {
        let j = choose|j: int| 0 <= j < less.len() && less[j] == e;
        lemma_ranked_from(front, j);
        let m = choose|m: int| 0 <= m < front.len() && front[m] == e;
        assert(s[m] == e);
    }
}

proof fn lemma_totals_stay_within(
    scan: Map<Seq<char>, PathFacts>,
    entries: Seq<FoldEntry>,
    sizes: bool,
    counts: bool,
    dirs: Seq<ScannedDir>,
)
    requires
        forall|k: int| 0 <= k < entries.len() ==> is_path_of((#[trigger] entries[k]).path@, dirs),
        forall|p: Seq<char>| #[trigger] scan.contains_key(p) == is_path_of(p, dirs),
    ensures
        forall|p: Seq<char>| #[trigger]
            with_totals(scan, entries, sizes, counts).contains_key(p) == is_path_of(p, dirs),
    decreases entries.len(),
{
    if entries.len() > 0 {
        let front = entries.drop_last();
        assert forall|k: int| 0 <= k < front.len() implies is_path_of(
            (#[trigger] front[k]).path@,
            dirs,
        ) by {
            assert(front[k] == entries[k]);
        }
        lemma_totals_stay_within(scan, front, sizes, counts, dirs);
        let e = entries[entries.len() - 1];
        assert(is_path_of(e.path@, dirs));
        assert forall|p: Seq<char>| #[trigger]
            with_totals(scan, entries, sizes, counts).contains_key(p) == is_path_of(p, dirs) by {
            assert(with_totals(scan, front, sizes, counts).contains_key(p) == is_path_of(p, dirs));
        }
    }
}

proof fn lemma_level_paths(
    entries: Seq<FoldEntry>,
    overflowed: bool,
    dirs: Seq<ScannedDir>,
    root: Seq<char>,
    level: int,
    sizes: bool,
    counts: bool,
)
    requires
        is_level_fold(entries, overflowed, dirs, root, level, sizes, counts),
    ensures
        forall|k: int| 0 <= k < entries.len() ==> is_path_of((#[trigger] entries[k]).path@, dirs),
{
    let from = dirs_from(dirs, root, level);
    let list = choose|list: Seq<FoldEntry>|
        {
            &&& fold_entries(list, from, level, sizes, counts)
            &&& #[trigger] is_folded(entries, overflowed, list)
        };
    let sorted = crate::order::ranked(list);
    assert forall|k: int| 0 <= k < entries.len() implies is_path_of(
        (#[trigger] entries[k]).path@,
        dirs,
    ) by {
        assert(entries[k].path == sorted[k].path);
        lemma_ranked_from(list, k);
        let j = choose|j: int| 0 <= j < list.len() && list[j] == sorted[k];
        assert(is_fold_entry(list[j], from[j], level, sizes, counts));
        lemma_paths_from(dirs, root, level, j);
    }
}

proof fn lemma_listed_paths(dirs: Seq<ScannedDir>)
    ensures
        forall|p: Seq<char>| #[trigger] listed_dirs(dirs).contains_key(p) == is_path_of(p, dirs),
    decreases dirs.len(),
{
    if dirs.len() > 0 {
        let front = dirs.drop_last();
        lemma_listed_paths(front);
        assert(front.push(dirs.last()) == dirs);
        assert forall|p: Seq<char>| #[trigger]
            listed_dirs(dirs).contains_key(p) == is_path_of(p, dirs) by {
            lemma_path_pushed(p, front, dirs.last());
            assert(listed_dirs(front).contains_key(p) == is_path_of(p, front));
        }
    }
}

/// The result of a scan holds the directories that are kept and no others: where
/// sizes are summed for the directories that are shown alone, those.
pub proof fn law_only_kept_directories_are_held(
    r: Scanned,
    root: Seq<char>,
    dirs: Seq<ScannedDir>,
    o: ScanOptions,
    path: Seq<char>,
)
    requires
        is_scanned(r, root, dirs, o),
    ensures
        r.scan@.contains_key(path) == (is_path_of(path, dirs) && is_kept(path, root, o)),
{
    let kept = kept_dirs(dirs, root, o);
    let sizes = o.sizes && !o.shallow;
    let counts = o.counts && !o.shallow;
    lemma_paths_kept(dirs, root, o, path);
    let (all, first, second, a, b, c) = choose|
        all: Seq<FoldEntry>,
        first: Seq<FoldEntry>,
        second: Seq<FoldEntry>,
        over_all: bool,
        over_first: bool,
        over_second: bool,
    |
        {
            &&& #[trigger] is_level_fold(all, over_all, kept, root, 0, sizes, counts)
            &&& #[trigger] is_level_fold(first, over_first, kept, root, 1, sizes, false)
            &&& #[trigger] is_level_fold(second, over_second, kept, root, 2, sizes, false)
            &&& r.scan@ == with_levels(kept, all, first, second, sizes, counts)
            &&& r.overflowed == (over_all || over_first || over_second)
        };
    lemma_level_paths(all, a, kept, root, 0, sizes, counts);
    lemma_level_paths(first, b, kept, root, 1, sizes, false);
    lemma_level_paths(second, c, kept, root, 2, sizes, false);
    lemma_listed_paths(kept);
    let x = with_totals(listed_dirs(kept), all, sizes, counts);
    let y = with_totals(x, first, sizes, false);
    lemma_totals_stay_within(listed_dirs(kept), all, sizes, counts, kept);
    lemma_totals_stay_within(x, first, sizes, false, kept);
    lemma_totals_stay_within(y, second, sizes, false, kept);
}

proof fn lemma_from_second(dirs: Seq<ScannedDir>, path: Seq<char>, level: int)
    ensures
        level >= 2 ==> bytes_below(dirs, path, level) == bytes_below(dirs, path, 2),
    decreases dirs.len(),
{
    if dirs.len() > 0 {
        lemma_from_second(dirs.drop_last(), path, level);
    }
}

/// The scanned directories with the sizes that were shared out.
pub open spec fn with_sizes(
    scan: Map<Seq<char>, PathFacts>,
    paths_seen: Seq<String>,
    sizes: Map<Seq<char>, u64>,
) -> Map<Seq<char>, PathFacts>
    decreases paths_seen.len(),
{
    if paths_seen.len() == 0 {
        scan
    } else {
        let rest = with_sizes(scan, paths_seen.drop_last(), sizes);
        let p = paths_seen.last();
        if sizes.contains_key(p@) {
            tree::with_path_totals(rest, p, Some(sizes[p@]), None, None)
        } else {
            rest
        }
    }
}

/// Sizes that are shared out are put with the directories that are held or given,
/// and no others.
pub proof fn law_shared_sizes_add_no_directory(
    scan: Map<Seq<char>, PathFacts>,
    paths_seen: Seq<String>,
    sizes: Map<Seq<char>, u64>,
    path: Seq<char>,
)
    ensures
        with_sizes(scan, paths_seen, sizes).contains_key(path) ==> scan.contains_key(path)
            || text::texts(paths_seen).contains(path),
    decreases paths_seen.len(),
{
    if paths_seen.len() > 0 {
        let front = paths_seen.drop_last();
        law_shared_sizes_add_no_directory(scan, front, sizes, path);
        if text::texts(front).contains(path) {
            let i = choose|i: int|
                0 <= i < text::texts(front).len() && text::texts(front)[i] == path;
            assert(text::texts(paths_seen)[i] == path);
        }
        assert(text::texts(paths_seen)[paths_seen.len() - 1] == paths_seen.last()@);
    }
}

/// Puts the sizes that were shared out with the directories that are shown.
pub fn finish_shallow_scan(scan: ScanResult, shown: &Vec<String>, sizes: &SizeTable) -> (r: ScanResult)
    requires
        scan.wf(),
    ensures
        r.wf(),
        r@ == with_sizes(scan@, shown@, sizes@),
{
    let ghost base = scan@;
    let mut out = scan;
    let mut i: usize = 0;
    assert(shown@.take(0) == Seq::<String>::empty());
    while i < shown.len()
        invariant
            i <= shown@.len(),
            out.wf(),
            out@ == with_sizes(base, shown@.take(i as int), sizes@),
        decreases shown@.len() - i,
    {
        assert(shown@.take(i + 1).drop_last() == shown@.take(i as int));
        if let Some(n) = sizes.get(shown[i].as_str()) {
            out.set_totals(&shown[i], Some(n), None, None);
        }
        i = i + 1;
    }
    assert(shown@.take(shown@.len() as int) == shown@);
    out
}

/// Git statuses by path.
pub struct GitTable {
    names: Vec<String>,
    statuses: Vec<String>,
    positions: FxHashMap<String, usize>,
}

impl View for GitTable {
    type V = Map<Seq<char>, Seq<char>>;

    closed spec fn view(&self) -> Map<Seq<char>, Seq<char>> {
        Map::new(
            |k: Seq<char>| table::names_in(self.positions).contains_key(k),
            |k: Seq<char>| self.statuses@[table::names_in(self.positions)[k] as int]@,
        )
    }
}

/// The statuses with one more for a path: merged with what it has.
pub open spec fn with_one_status(
    m: Map<Seq<char>, Seq<char>>,
    path: Seq<char>,
    status: Seq<char>,
) -> Map<Seq<char>, Seq<char>> {
    m.insert(
        path,
        if m.contains_key(path) {
            tree_git::merged_status(Some(m[path]), Some(status))
        } else {
            status
        },
    )
}

/// The statuses with one more for the path of the first `n` components, and for
/// all above it that have at least `stop`.
pub open spec fn with_status_up(
    m: Map<Seq<char>, Seq<char>>,
    parts: Seq<Seq<char>>,
    status: Seq<char>,
    n: int,
    stop: int,
) -> Map<Seq<char>, Seq<char>>
    decreases n,
{
    if n < stop || n <= 0 {
        m
    } else {
        with_status_up(
            with_one_status(m, paths::rendered(parts.take(n)), status),
            parts,
            status,
            n - 1,
            stop,
        )
    }
}

impl GitTable {
    pub closed spec fn wf(&self) -> bool {
        let t = table::names_in(self.positions);
        &&& self.statuses@.len() == self.names@.len()
        &&& forall|i: int|
            0 <= i < self.names@.len() ==> t.contains_key(#[trigger] self.names@[i]@)
                && t[self.names@[i]@] == i
        &&& forall|k: Seq<char>| #[trigger]
            t.contains_key(k) ==> t[k] < self.names@.len() && self.names@[t[k] as int]@ == k
    }

    /// No statuses.
    pub fn new() -> (r: GitTable)
        ensures
            r.wf(),
            r@ == Map::<Seq<char>, Seq<char>>::empty(),
    {
        let r = GitTable {
            names: Vec::new(),
            statuses: Vec::new(),
            positions: table::new_names(),
        };
        assert(r@ == Map::<Seq<char>, Seq<char>>::empty());
        r
    }

    /// The status of a path.
    pub fn get(&self, path: &str) -> (r: Option<&str>)
        requires
            self.wf(),
        ensures
            match r {
                Some(s) => self@.contains_key(path@) && self@[path@] == s@,
                None => !self@.contains_key(path@),
            },
    {
        match table::name_position(&self.positions, path) {
            Some(i) => Some(self.statuses[i].as_str()),
            None => None,
        }
    }

    fn merge_one(&mut self, path: String, status: &str)
        requires
            old(self).wf(),
        ensures
            final(self).wf(),
            final(self)@ == with_one_status(old(self)@, path@, status@),
    {
        let ghost before = *self;
        match table::name_position(&self.positions, path.as_str()) {
            Some(i) => {
                let merged = match tree_git::merge_git_status(
                    Some(self.statuses[i].as_str()),
                    Some(status),
                ) {
                    Some(m) => m,
                    None => text::copy(status),
                };
                self.statuses.set(i, merged);
            },
            None => {
                let i: usize = self.names.len();
                table::put_name(&mut self.positions, path.clone(), i);
                self.names.push(path);
                self.statuses.push(text::copy(status));
            },
        }
        assert(self@ == with_one_status(before@, path@, status@)) by {
            assert forall|k: Seq<char>| before@.contains_key(k) && k != path@ implies self@[k]
                == #[trigger] before@[k] by {
                assert(table::names_in(before.positions).contains_key(k));
            }
        }
    }

    /// Adds a status to a path and to all above it up to the root. Nothing, where
    /// the path is not at the root or below it.
    pub fn spread(&mut self, root: &str, path: &str, status: &str)
        requires
            old(self).wf(),
        ensures
            final(self).wf(),
            final(self)@ == (if paths::under(path@, root@) {
                with_status_up(
                    old(self)@,
                    paths::comps(path@),
                    status@,
                    paths::comps(path@).len() as int,
                    paths::comps(root@).len() as int,
                )
            } else {
                old(self)@
            }),
    {
        if !paths::path_under(path, root) {
            return;
        }
        let parts = paths::components(text::to_chars(path).as_slice());
        let top = paths::components(text::to_chars(root).as_slice());
        let ghost p = text::rows(parts@);
        let ghost start = self@;
        let stop: usize = top.len();
        let mut n: usize = parts.len();
        while n >= stop && n > 0
            invariant
                n <= parts@.len(),
                p == text::rows(parts@),
                self.wf(),
                with_status_up(self@, p, status@, n as int, stop as int) == with_status_up(
                    start,
                    p,
                    status@,
                    p.len() as int,
                    stop as int,
                ),
            decreases n,
        {
            let head = paths::between(parts.as_slice(), 0, n);
            assert(text::rows(head@) == p.take(n as int));
            let here = text::from_chars(paths::render(head.as_slice()).as_slice());
            self.merge_one(here, status);
            n = n - 1;
        }
    }
}

/// Every directory above a changed path, up to the root, has a status.
pub proof fn law_status_reaches_the_root(
    m: Map<Seq<char>, Seq<char>>,
    parts: Seq<Seq<char>>,
    status: Seq<char>,
    n: int,
    stop: int,
    k: int,
)
    requires
        0 < stop <= k <= n <= parts.len(),
    ensures
        with_status_up(m, parts, status, n, stop).contains_key(paths::rendered(parts.take(k))),
    decreases n,
{
    let next = with_one_status(m, paths::rendered(parts.take(n)), status);
    if k < n {
        law_status_reaches_the_root(next, parts, status, n - 1, stop, k);
    } else {
        lemma_statuses_stay(next, parts, status, n - 1, stop, paths::rendered(parts.take(k)));
    }
}

proof fn lemma_statuses_stay(
    m: Map<Seq<char>, Seq<char>>,
    parts: Seq<Seq<char>>,
    status: Seq<char>,
    n: int,
    stop: int,
    key: Seq<char>,
)
    requires
        m.contains_key(key),
    ensures
        with_status_up(m, parts, status, n, stop).contains_key(key),
    decreases n,
{
    if n >= stop && n > 0 {
        lemma_statuses_stay(
            with_one_status(m, paths::rendered(parts.take(n)), status),
            parts,
            status,
            n - 1,
            stop,
            key,
        );
    }
}

/// What an entry counts as is plain: what cannot be read is an error and nothing else, a
/// file that is to be ignored is passed over, and a directory counts even where it is to be
/// ignored.
pub proof fn law_entries_count_as_what_they_are(
    entries: Seq<ScanEntry>,
    claims: Seq<Claims>,
    o: ScanOptions,
    n: int,
)
    requires
        0 <= n < entries.len(),
    ensures
        ({
            let e = entries[n];
            let a = sums_of(entries, claims, o, n);
            let b = sums_of(entries, claims, o, n + 1);
            &&& b.errors == a.errors + (if e.readable {
                0nat
            } else {
                1
            })
            &&& b.dirs == a.dirs + (if e.readable && e.is_dir {
                1nat
            } else {
                0
            })
            &&& b.files == a.files + (if e.readable && !e.is_dir && !e.ignored {
                1nat
            } else {
                0
            })
            &&& !o.sizes || !e.readable || e.meta is None || (e.ignored && !e.is_dir) ==> b.root
                == a.root && b.first == a.first && b.second == a.second
        }),
{
}

/// The bytes of a file that was read count in full for all above it, where it has but one
/// name; so do those of one with several names where links are not told apart.
pub proof fn law_single_names_count_everywhere(
    i: InodesView,
    e: ScanEntry,
    o: ScanOptions,
    v: VisibleView,
)
    requires
        e.readable && !e.ignored && !e.is_dir,
        e.meta is Some,
        o.sizes,
        e.nlink <= 1 || o.no_dedupe_hardlinks,
    ensures
        ({
            let c = claims_at(i, e, needs_of(e, o, v), v);
            &&& bytes_of(e, o, c, c.root) == e.meta->0.allocated
            &&& bytes_of(e, o, c, c.first) == e.meta->0.allocated
            &&& bytes_of(e, o, c, c.second) == e.meta->0.allocated
            &&& after_claims(i, e, needs_of(e, o, v), v).root == i.root
        }),
{
}

/// Of two names of one file the second adds nothing to the root, nor to a visible directory
/// that both lie in; the first adds all its bytes, unless a name was met before.
pub proof fn law_second_names_add_nothing(
    i: InodesView,
    e: ScanEntry,
    f: ScanEntry,
    o: ScanOptions,
    v: VisibleView,
)
    requires
        e.readable && !e.ignored && !e.is_dir && e.meta is Some && e.nlink > 1,
        f.readable && !f.ignored && !f.is_dir && f.meta is Some && f.nlink > 1,
        e.dev == f.dev && e.ino == f.ino,
        o.sizes && !o.no_dedupe_hardlinks,
    ensures
        ({
            let c = claims_at(i, e, needs_of(e, o, v), v);
            let after = after_claims(i, e, needs_of(e, o, v), v);
            let d = claims_at(after, f, needs_of(f, o, v), v);
            &&& bytes_of(f, o, d, d.root) == 0
            &&& bytes_of(f, o, d, d.first) == 0
            &&& bytes_of(f, o, d, d.second) == 0
            &&& !i.root.contains((e.dev, e.ino)) ==> bytes_of(e, o, c, c.root)
                == e.meta->0.allocated
            &&& i.root.contains((e.dev, e.ino)) ==> bytes_of(e, o, c, c.root) == 0
        }),
{
    let key = (e.dev, e.ino);
    let n = needs_of(e, o, v);
    let after = after_claims(i, e, n, v);
    assert(after.root.contains(key));
    if let Some(a) = v.depth1 {
        assert(visible_inodes(after, a).contains(key));
    }
    if let Some(b) = v.depth2 {
        assert(visible_inodes(after, b).contains(key));
    }
}

/// A scan goes into a directory unless it is to be ignored, is a `.git` that is only to be
/// named, or was gone through before; links lead into one directory once.
pub proof fn law_where_a_scan_goes(e: ScanEntry, o: ScanOptions, c: Claims)
    ensures
        goes_below(e, o, c) ==> !e.ignored && c.dir,
        !e.ignored && c.dir && (!o.no_expand_git || o.sizes || o.counts || !e.is_dir) ==> goes_below(
            e,
            o,
            c,
        ),
        !e.ignored && c.dir && e.name@ != ".git"@ ==> goes_below(e, o, c),
        o.no_expand_git && !o.sizes && !o.counts && e.is_dir && e.name@ == ".git"@ ==> !goes_below(
            e,
            o,
            c,
        ),
{
}

/// Where links are followed, a directory that is met again is not gone through again.
pub proof fn law_directories_are_gone_through_once(
    i: InodesView,
    e: ScanEntry,
    o: ScanOptions,
    v: VisibleView,
)
    requires
        e.readable && e.is_dir && e.meta is Some,
    ensures
        ({
            let c = claims_at(i, e, needs_of(e, o, v), v);
            &&& o.follow_links && o.collect_metadata ==> (c.dir <==> !i.dirs.contains(
                (e.dev, e.ino),
            ))
            &&& o.follow_links && o.collect_metadata ==> after_claims(
                i,
                e,
                needs_of(e, o, v),
                v,
            ).dirs.contains((e.dev, e.ino))
            &&& !o.follow_links ==> c.dir
        }),
{
}

/// The bytes of a directory for the root, for a directory of the first level, and for those
/// below are kept apart.
pub proof fn law_each_level_has_its_bytes(bytes: LevelBytes, level: int)
    ensures
        bytes_at(bytes, 0) == bytes.root,
        bytes_at(bytes, 1) == bytes.first,
        level >= 2 ==> bytes_at(bytes, level) == bytes.second,
{
}

/// The entries of a directory are listed exactly above the greatest depth, all that are not
/// passed over, in order.
pub proof fn law_entries_are_listed_above_the_depth(
    r: DirScan,
    own_size: u64,
    depth: int,
    entries: Seq<ScanEntry>,
    claims: Seq<Claims>,
    o: ScanOptions,
)
    requires
        is_dir_scan(r, own_size, depth, entries, claims, o),
        forall|i: int|
            0 <= i < entries.len() ==> (#[trigger] entries[i]).readable && !entries[i].ignored,
    ensures
        depth >= o.max_depth ==> r.stubs is None,
        depth < o.max_depth && entries.len() > 0 ==> r.stubs is Some && r.stubs->0@.len()
            == entries.len() && forall|i: int|
            0 <= i < entries.len() ==> (#[trigger] r.stubs->0@[i]).name@ == entries[i].name@
                && r.stubs->0@[i].path@ == entries[i].path@ && r.stubs->0@[i].is_dir
                == entries[i].is_dir && r.stubs->0@[i].is_symlink == entries[i].is_symlink
                && r.stubs->0@[i].meta == entries[i].meta,
{
    lemma_all_met(entries);
}

proof fn lemma_all_met(entries: Seq<ScanEntry>)
    requires
        forall|i: int|
            0 <= i < entries.len() ==> (#[trigger] entries[i]).readable && !entries[i].ignored,
    ensures
        met_entries(entries) == entries,
    decreases entries.len(),
{
    if entries.len() > 0 {
        let front = entries.drop_last();
        assert forall|i: int| 0 <= i < front.len() implies (#[trigger] front[i]).readable
            && !front[i].ignored by {
            assert(front[i] == entries[i]);
        }
        lemma_all_met(front);
        assert(entries[entries.len() - 1].readable);
        assert(front.push(entries.last()) == entries);
    }
}

/// A status that is spread upwards is merged with what a path has: it ranks no lower than
/// before, and no lower than the status that was spread, letter by letter.
pub proof fn law_spread_statuses_are_merged(
    m: Map<Seq<char>, Seq<char>>,
    path: Seq<char>,
    status: Seq<char>,
    other: Seq<char>,
    letter: int,
)
    requires
        0 <= letter < 2,
    ensures
        ({
            let after = with_one_status(m, path, status);
            &&& after.contains_key(path)
            &&& !m.contains_key(path) ==> after[path] == status
            &&& m.contains_key(path) ==> tree_git::status_rank(
                tree_git::status_at(after[path], letter),
            ) >= tree_git::status_rank(tree_git::status_at(m[path], letter))
            &&& m.contains_key(path) ==> tree_git::status_rank(
                tree_git::status_at(after[path], letter),
            ) >= tree_git::status_rank(tree_git::status_at(status, letter))
            &&& other != path ==> (after.contains_key(other) <==> m.contains_key(other))
            &&& other != path && m.contains_key(other) ==> after[other] == m[other]
        }),
{
    if m.contains_key(path) {
        tree_git::law_merge_keeps_the_strongest(m[path], status, letter);
    }
}

/// The bytes of a directory are its own and those of its entries, unless they are too many
/// for a number; that is told, and the greatest number stands for them.
pub proof fn law_too_many_bytes_are_told(
    r: DirScan,
    own_size: u64,
    depth: int,
    entries: Seq<ScanEntry>,
    claims: Seq<Claims>,
    o: ScanOptions,
)
    requires
        is_dir_scan(r, own_size, depth, entries, claims, o),
    ensures
        ({
            let s = sums_of(entries, claims, o, entries.len() as int);
            let top = 0xffff_ffff_ffff_ffffint;
            &&& !r.overflowed ==> r.bytes.root == own_size + s.root && r.bytes.first == own_size
                + s.first && r.bytes.second == own_size + s.second
            &&& r.overflowed ==> (own_size + s.root > top && r.bytes.root == top) || (own_size
                + s.first > top && r.bytes.first == top) || (own_size + s.second > top
                && r.bytes.second == top)
            &&& r.dirs == s.dirs && r.files == s.files && r.errors == s.errors
        }),
{
}

/// The visible directory above one at the first level is itself; deeper down it is the one
/// right below the root that holds it, and so at the second level, where that is shown.
pub proof fn law_visible_directories_hold_it(
    root: Seq<char>,
    current: Seq<char>,
    depth: int,
    max_depth: int,
)
    requires
        paths::under(current, root),
        root.len() > 0,
    ensures
        ({
            let v = visible_of(root, current, depth, max_depth);
            let names = paths::below(current, root);
            &&& depth <= 0 ==> v.depth1 is None && v.depth2 is None
            &&& depth == 1 ==> v.depth1 == Some(current) && v.depth2 is None
            &&& depth >= 2 && names.len() > 0 ==> v.depth1 == Some(
                paths::joined_path(root, names[0]),
            )
            &&& depth >= 2 && names.len() == 0 ==> v.depth1 is None
            &&& max_depth < 2 ==> v.depth2 is None
            &&& depth == 2 && max_depth >= 2 ==> v.depth2 == Some(current)
            &&& depth > 2 && max_depth >= 2 && names.len() > 1 ==> v.depth2 == Some(
                paths::joined_path(paths::joined_path(root, names[0]), names[1]),
            )
            &&& depth > 2 && names.len() <= 1 ==> v.depth2 is None
        }),
{
}

/// A scan goes into every entry that it could read, that is not ignored, and that was not
/// met before, but for what git keeps; and into no other.
pub proof fn law_a_scan_goes_into_what_it_read(
    r: DirScan,
    own_size: u64,
    depth: int,
    entries: Seq<ScanEntry>,
    claims: Seq<Claims>,
    o: ScanOptions,
    i: int,
)
    requires
        is_dir_scan(r, own_size, depth, entries, claims, o),
        0 <= i < entries.len(),
    ensures
        r.below@.len() == entries.len(),
        r.below@[i] ==> entries[i].readable && !entries[i].ignored && claims[i].dir,
        entries[i].readable && !entries[i].ignored && claims[i].dir && entries[i].name@ != ".git"@
            ==> r.below@[i],
{
    law_where_a_scan_goes(entries[i], o, claims[i]);
}

} // verus!
