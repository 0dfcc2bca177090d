//! The tree that a listing shows, built from a finished scan.

use crate::order::{self, Ranked};
use crate::paths;
use crate::table;
use crate::text;
use crate::tree_git;
use dashmap::DashMap;
use rustc_hash::FxBuildHasher;
use vstd::prelude::*;

verus! {

/// What is known of an entry beyond its name and kind.
#[derive(Clone, Copy, Debug, PartialEq, Eq, Structural)]
pub struct EntryMeta {
    pub is_dir: bool,
    /// The bytes allocated on disk.
    pub allocated: u64,
    pub mtime: Option<i128>,
    pub mode: u32,
}

/// An entry of a scanned directory.
pub struct EntryStub {
    pub name: String,
    pub path: String,
    pub is_dir: bool,
    pub is_symlink: bool,
    pub meta: Option<EntryMeta>,
}

/// What a scan found out about a path.
pub struct PathFacts {
    pub path: String,
    pub children: Option<Vec<EntryStub>>,
    pub size: Option<u64>,
    pub dirs: Option<u64>,
    pub files: Option<u64>,
    pub git: Option<String>,
}

/// The fields by which a listing can be sorted.
#[derive(Clone, Copy, Debug, PartialEq, Eq, Structural)]
pub enum SortField {
    Name,
    Size,
    Time,
    Count,
}

/// How a listing is sorted.
#[derive(Clone, Copy, Debug, PartialEq, Eq, Structural)]
pub struct SortPlan {
    pub field: SortField,
    pub descending: bool,
}

/// What a listing shows.
#[derive(Clone, Copy, Debug, PartialEq, Eq, Structural)]
pub struct TreeOptions {
    pub max_depth: usize,
    pub trunc: usize,
    pub dirs_only: bool,
    pub sizes: bool,
    pub times: bool,
    pub counts: bool,
    pub classify: bool,
    pub hide_more_count: bool,
    /// `.git` directories are listed without their contents.
    pub no_expand_git: bool,
    /// An explicit order, where one is asked for.
    pub sort: Option<SortPlan>,
}

/// A finished scan.
pub struct ScanResult {
    facts: Vec<PathFacts>,
    positions: DashMap<String, u64, FxBuildHasher>,
}

impl View for ScanResult {
    type V = Map<Seq<char>, PathFacts>;

    closed spec fn view(&self) -> Map<Seq<char>, PathFacts> {
        Map::new(
            |k: Seq<char>| table::numbers_in(self.positions).contains_key(k),
            |k: Seq<char>| self.facts@[table::numbers_in(self.positions)[k] as int],
        )
    }
}

/// The number that a scan has for a path, zero where it has none.
pub open spec fn number_at(
    scan: Map<Seq<char>, PathFacts>,
    path: Seq<char>,
    pick: spec_fn(PathFacts) -> Option<u64>,
) -> u64 {
    if scan.contains_key(path) {
        match pick(scan[path]) {
            Some(n) => n,
            None => 0,
        }
    } else {
        0
    }
}

/// The recursive size of a path.
pub open spec fn size_at(scan: Map<Seq<char>, PathFacts>, path: Seq<char>) -> u64 {
    number_at(scan, path, |f: PathFacts| f.size)
}

/// The recursive number of directories below a path.
pub open spec fn dirs_at(scan: Map<Seq<char>, PathFacts>, path: Seq<char>) -> u64 {
    number_at(scan, path, |f: PathFacts| f.dirs)
}

/// The recursive number of files below a path.
pub open spec fn files_at(scan: Map<Seq<char>, PathFacts>, path: Seq<char>) -> u64 {
    number_at(scan, path, |f: PathFacts| f.files)
}

/// The git status of a path.
pub open spec fn git_at(scan: Map<Seq<char>, PathFacts>, path: Seq<char>) -> Option<Seq<char>> {
    if scan.contains_key(path) {
        paths::opt_text(scan[path].git)
    } else {
        None
    }
}

/// The scanned entries of a directory.
pub open spec fn children_at(scan: Map<Seq<char>, PathFacts>, path: Seq<char>) -> Option<
    Seq<EntryStub>,
> {
    if scan.contains_key(path) {
        match scan[path].children {
            Some(v) => Some(v@),
            None => None,
        }
    } else {
        None
    }
}

/// A scan with totals put in for a path, each where it is given.
pub open spec fn with_path_totals(
    scan: Map<Seq<char>, PathFacts>,
    path: String,
    size: Option<u64>,
    dirs: Option<u64>,
    files: Option<u64>,
) -> Map<Seq<char>, PathFacts> {
    scan.insert(
        path@,
        if scan.contains_key(path@) {
            let f = scan[path@];
            PathFacts {
                size: if size is Some {
                    size
                } else {
                    f.size
                },
                dirs: if dirs is Some {
                    dirs
                } else {
                    f.dirs
                },
                files: if files is Some {
                    files
                } else {
                    f.files
                },
                ..f
            }
        } else {
            PathFacts { path, children: None, size, dirs, files, git: None }
        },
    )
}

/// A scan with the git status of a path put in.
pub open spec fn with_path_git(
    scan: Map<Seq<char>, PathFacts>,
    path: String,
    status: String,
) -> Map<Seq<char>, PathFacts> {
    scan.insert(
        path@,
        if scan.contains_key(path@) {
            PathFacts { git: Some(status), ..scan[path@] }
        } else {
            PathFacts {
                path,
                children: None,
                size: None,
                dirs: None,
                files: None,
                git: Some(status),
            }
        },
    )
}

impl ScanResult {
    /// The table and the list agree.
    pub closed spec fn wf(&self) -> bool {
        let names = table::numbers_in(self.positions);
        &&& forall|i: int|
            0 <= i < self.facts@.len() ==> names.contains_key(#[trigger] self.facts@[i].path@)
                && names[self.facts@[i].path@] == i
        &&& forall|k: Seq<char>| #[trigger]
            names.contains_key(k) ==> names[k] < self.facts@.len() && self.facts@[names[k] as int].path@
                == k
    }

    /// A scan that found nothing.
    pub fn new() -> (r: ScanResult)
        ensures
            r.wf(),
            r@ == Map::<Seq<char>, PathFacts>::empty(),
    {
        let r = ScanResult { facts: Vec::new(), positions: table::new_numbers() };
        assert(r@ == Map::<Seq<char>, PathFacts>::empty());
        r
    }

    /// Where what is known of a path stands.
    fn position(&self, path: &str) -> (r: Option<usize>)
        requires
            self.wf(),
        ensures
            match r {
                Some(i) => table::numbers_in(self.positions).contains_key(path@) && i
                    == table::numbers_in(self.positions)[path@],
                None => !table::numbers_in(self.positions).contains_key(path@),
            },
    {
        let count: usize = self.facts.len();
        match table::number_of(&self.positions, path) {
            Some(i) => {
                assert(i < count);
                Some(i as usize)
            },
            None => None,
        }
    }

    /// Records what is known of a path, in place of what was known before.
    pub fn set(&mut self, facts: PathFacts)
        requires
            old(self).wf(),
        ensures
            final(self).wf(),
            final(self)@ == old(self)@.insert(facts.path@, facts),
    {
        match self.position(facts.path.as_str()) {
            Some(i) => {
                self.facts.set(i, facts);
                assert(self@ == old(self)@.insert(facts.path@, facts));
            },
            None => {
                let position: u64 = self.facts.len() as u64;
                table::put_number(&mut self.positions, facts.path.clone(), position);
                self.facts.push(facts);
                assert(self@ == old(self)@.insert(facts.path@, facts));
            },
        }
    }

    /// What is known of a path.
    pub fn get(&self, path: &str) -> (r: Option<&PathFacts>)
        requires
            self.wf(),
        ensures
            match r {
                Some(f) => self@.contains_key(path@) && self@[path@] == *f,
                None => !self@.contains_key(path@),
            },
    {
        match self.position(path) {
            Some(i) => Some(&self.facts[i]),
            None => None,
        }
    }

    /// Puts in totals for a path, each where it is given.
    pub fn set_totals(
        &mut self,
        path: &String,
        size: Option<u64>,
        dirs: Option<u64>,
        files: Option<u64>,
    )
        requires
            old(self).wf(),
        ensures
            final(self).wf(),
            final(self)@ == with_path_totals(old(self)@, *path, size, dirs, files),
    {
        let ghost before = *self;
        match self.position(path.as_str()) {
            Some(i) => {
                if size.is_some() {
                    self.facts[i].size = size;
                }
                if dirs.is_some() {
                    self.facts[i].dirs = dirs;
                }
                if files.is_some() {
                    self.facts[i].files = files;
                }
                assert(self@ == with_path_totals(before@, *path, size, dirs, files)) by {
                    assert forall|k: Seq<char>| before@.contains_key(k) && k != path@ implies self@[k]
                        == #[trigger] before@[k] by {
                        assert(table::numbers_in(before.positions).contains_key(k));
                    }
                }
            },
            None => {
                self.set(
                    PathFacts { path: path.clone(), children: None, size, dirs, files, git: None },
                );
            },
        }
    }

    /// Puts in the git status of a path.
    pub fn set_git(&mut self, path: &String, status: String)
        requires
            old(self).wf(),
        ensures
            final(self).wf(),
            final(self)@ == with_path_git(old(self)@, *path, status),
    {
        let ghost before = *self;
        match self.position(path.as_str()) {
            Some(i) => {
                self.facts[i].git = Some(status);
                assert(self@ == with_path_git(before@, *path, status)) by {
                    assert forall|k: Seq<char>| before@.contains_key(k) && k != path@ implies self@[k]
                        == #[trigger] before@[k] by {
                        assert(table::numbers_in(before.positions).contains_key(k));
                    }
                }
            },
            None => {
                self.set(
                    PathFacts {
                        path: path.clone(),
                        children: None,
                        size: None,
                        dirs: None,
                        files: None,
                        git: Some(status),
                    },
                );
            },
        }
    }

    /// The recursive size of a path.
    pub fn size(&self, path: &str) -> (r: u64)
        requires
            self.wf(),
        ensures
            r == size_at(self@, path@),
    {
        match self.get(path) {
            Some(f) => match f.size {
                Some(n) => n,
                None => 0,
            },
            None => 0,
        }
    }

    /// The recursive number of directories below a path.
    pub fn dirs(&self, path: &str) -> (r: u64)
        requires
            self.wf(),
        ensures
            r == dirs_at(self@, path@),
    {
        match self.get(path) {
            Some(f) => match f.dirs {
                Some(n) => n,
                None => 0,
            },
            None => 0,
        }
    }

    /// The recursive number of files below a path.
    pub fn files(&self, path: &str) -> (r: u64)
        requires
            self.wf(),
        ensures
            r == files_at(self@, path@),
    {
        match self.get(path) {
            Some(f) => match f.files {
                Some(n) => n,
                None => 0,
            },
            None => 0,
        }
    }
}

/// -1, 0 or 1 as `a` is smaller than, equal to or larger than `b`.
pub open spec fn int_rank(a: int, b: int) -> int {
    if a < b {
        -1
    } else if a == b {
        0
    } else {
        1
    }
}

/// The order of times; an unknown time stands before every known one.
pub open spec fn time_rank(a: Option<i128>, b: Option<i128>) -> int {
    match (a, b) {
        (None, None) => 0,
        (None, Some(_)) => -1,
        (Some(_), None) => 1,
        (Some(x), Some(y)) => int_rank(x as int, y as int),
    }
}

/// The order of texts.
pub open spec fn text_rank(a: Seq<char>, b: Seq<char>) -> int {
    if order::text_before(a, b) {
        -1
    } else if a == b {
        0
    } else {
        1
    }
}

/// The order of names: without regard to ASCII case, then with it.
pub open spec fn name_rank(a: Seq<char>, b: Seq<char>) -> int {
    let loose = text_rank(text::lower(a), text::lower(b));
    if loose != 0 {
        loose
    } else {
        text_rank(a, b)
    }
}

/// The order of paths, component by component.
pub open spec fn parts_rank(a: Seq<Seq<char>>, b: Seq<Seq<char>>) -> int
    decreases a.len(),
{
    if a.len() == 0 {
        if b.len() == 0 {
            0
        } else {
            -1
        }
    } else if b.len() == 0 {
        1
    } else if text_rank(a[0], b[0]) != 0 {
        text_rank(a[0], b[0])
    } else {
        parts_rank(a.skip(1), b.skip(1))
    }
}

proof fn lemma_text_rank(a: Seq<char>, b: Seq<char>)
    ensures
        text_rank(a, b) == -text_rank(b, a),
        text_rank(a, b) == 0 <==> a == b,
        -1 <= text_rank(a, b) <= 1,
{
    order::lemma_text_total(a, b);
    order::lemma_text_total(b, a);
}

proof fn lemma_text_rank_transitive(a: Seq<char>, b: Seq<char>, c: Seq<char>)
    requires
        text_rank(a, b) <= 0,
        text_rank(b, c) <= 0,
    ensures
        text_rank(a, c) <= 0,
        text_rank(a, b) < 0 || text_rank(b, c) < 0 ==> text_rank(a, c) < 0,
{
    if order::text_before(a, b) && order::text_before(b, c) {
        order::lemma_text_transitive(a, b, c);
    }
}

proof fn lemma_name_rank(a: Seq<char>, b: Seq<char>)
    ensures
        name_rank(a, b) == -name_rank(b, a),
        -1 <= name_rank(a, b) <= 1,
{
    lemma_text_rank(text::lower(a), text::lower(b));
    lemma_text_rank(a, b);
}

proof fn lemma_name_rank_transitive(a: Seq<char>, b: Seq<char>, c: Seq<char>)
    requires
        name_rank(a, b) <= 0,
        name_rank(b, c) <= 0,
    ensures
        name_rank(a, c) <= 0,
        name_rank(a, b) < 0 || name_rank(b, c) < 0 ==> name_rank(a, c) < 0,
{
    lemma_text_rank(text::lower(a), text::lower(b));
    lemma_text_rank(text::lower(b), text::lower(c));
    lemma_text_rank_transitive(text::lower(a), text::lower(b), text::lower(c));
    if text_rank(text::lower(a), text::lower(b)) == 0 && text_rank(text::lower(b), text::lower(c))
        == 0 {
        lemma_text_rank(text::lower(a), text::lower(c));
        lemma_text_rank_transitive(a, b, c);
    }
}

pub proof fn lemma_parts_rank(a: Seq<Seq<char>>, b: Seq<Seq<char>>)
    ensures
        parts_rank(a, b) == -parts_rank(b, a),
        -1 <= parts_rank(a, b) <= 1,
    decreases a.len(),
{
    if a.len() > 0 && b.len() > 0 {
        lemma_text_rank(a[0], b[0]);
        lemma_parts_rank(a.skip(1), b.skip(1));
    }
}

pub proof fn lemma_parts_rank_transitive(a: Seq<Seq<char>>, b: Seq<Seq<char>>, c: Seq<Seq<char>>)
    requires
        parts_rank(a, b) <= 0,
        parts_rank(b, c) <= 0,
    ensures
        parts_rank(a, c) <= 0,
        parts_rank(a, b) < 0 || parts_rank(b, c) < 0 ==> parts_rank(a, c) < 0,
    decreases a.len(),
{
    if a.len() > 0 && b.len() > 0 && c.len() > 0 {
        lemma_text_rank(a[0], b[0]);
        lemma_text_rank(b[0], c[0]);
        lemma_text_rank(a[0], c[0]);
        lemma_text_rank_transitive(a[0], b[0], c[0]);
        if text_rank(a[0], b[0]) == 0 && text_rank(b[0], c[0]) == 0 {
            lemma_parts_rank_transitive(a.skip(1), b.skip(1), c.skip(1));
        }
    }
}

/// An entry with what it is sorted by.
pub struct StubItem<'a> {
    pub descending: bool,
    pub by_name: bool,
    pub number: u64,
    pub time: Option<i128>,
    pub stub: &'a EntryStub,
}

/// The order of two entries by what they are sorted by.
pub open spec fn key_rank(a: StubItem, b: StubItem) -> int {
    if a.number != b.number {
        int_rank(a.number as int, b.number as int)
    } else if time_rank(a.time, b.time) != 0 {
        time_rank(a.time, b.time)
    } else if a.by_name {
        name_rank(a.stub.name@, b.stub.name@)
    } else {
        0
    }
}

fn bool_int(b: bool) -> (r: u64)
    ensures
        r == bool_rank(b),
{
    if b {
        1
    } else {
        0
    }
}

/// A flag as a number.
pub open spec fn bool_rank(b: bool) -> int {
    if b {
        1
    } else {
        0
    }
}

/// The place of an entry relative to another; paths decide between entries
/// that are otherwise level.
pub open spec fn item_rank(a: StubItem, b: StubItem) -> int {
    if a.descending != b.descending {
        int_rank(bool_rank(a.descending), bool_rank(b.descending))
    } else if a.by_name != b.by_name {
        int_rank(bool_rank(a.by_name), bool_rank(b.by_name))
    } else if key_rank(a, b) != 0 {
        if a.descending {
            -key_rank(a, b)
        } else {
            key_rank(a, b)
        }
    } else {
        parts_rank(paths::comps(a.stub.path@), paths::comps(b.stub.path@))
    }
}

proof fn lemma_key_rank(a: StubItem, b: StubItem)
    requires
        a.by_name == b.by_name,
    ensures
        key_rank(a, b) == -key_rank(b, a),
{
    lemma_name_rank(a.stub.name@, b.stub.name@);
}

proof fn lemma_key_rank_transitive(a: StubItem, b: StubItem, c: StubItem)
    requires
        a.by_name == b.by_name,
        b.by_name == c.by_name,
        key_rank(a, b) <= 0,
        key_rank(b, c) <= 0,
    ensures
        key_rank(a, c) <= 0,
        key_rank(a, b) < 0 || key_rank(b, c) < 0 ==> key_rank(a, c) < 0,
{
    lemma_name_rank(a.stub.name@, b.stub.name@);
    lemma_name_rank(b.stub.name@, c.stub.name@);
    lemma_name_rank(a.stub.name@, c.stub.name@);
    if name_rank(a.stub.name@, b.stub.name@) <= 0 && name_rank(b.stub.name@, c.stub.name@) <= 0 {
        lemma_name_rank_transitive(a.stub.name@, b.stub.name@, c.stub.name@);
    }
}

proof fn lemma_item_rank(a: StubItem, b: StubItem)
    ensures
        item_rank(a, b) == -item_rank(b, a),
{
    if a.by_name == b.by_name {
        lemma_key_rank(a, b);
    }
    lemma_parts_rank(paths::comps(a.stub.path@), paths::comps(b.stub.path@));
}

proof fn lemma_item_rank_transitive(a: StubItem, b: StubItem, c: StubItem)
    requires
        item_rank(a, b) <= 0,
        item_rank(b, c) <= 0,
    ensures
        item_rank(a, c) <= 0,
{
    if a.descending == b.descending && b.descending == c.descending && a.by_name == b.by_name
        && b.by_name == c.by_name {
        lemma_key_rank(a, b);
        lemma_key_rank(b, c);
        lemma_key_rank(a, c);
        if a.descending {
            if key_rank(c, b) <= 0 && key_rank(b, a) <= 0 {
                lemma_key_rank_transitive(c, b, a);
            }
        } else {
            if key_rank(a, b) <= 0 && key_rank(b, c) <= 0 {
                lemma_key_rank_transitive(a, b, c);
            }
        }
        if key_rank(a, b) == 0 && key_rank(b, c) == 0 {
            lemma_parts_rank_transitive(
                paths::comps(a.stub.path@),
                paths::comps(b.stub.path@),
                paths::comps(c.stub.path@),
            );
            lemma_key_rank_transitive(a, b, c);
            lemma_key_rank_transitive(c, b, a);
        }
    }
}

fn rank_texts(a: &[char], b: &[char]) -> (r: i8)
    ensures
        r == text_rank(a@, b@),
{
    if order::text_is_before(a, b) {
        -1
    } else if text::same(a, b) {
        0
    } else {
        1
    }
}

/// Compares two names.
pub fn rank_names(a: &str, b: &str) -> (r: i8)
    ensures
        r == name_rank(a@, b@),
{
    let left = text::to_chars(a);
    let right = text::to_chars(b);
    let loose: i8 = rank_texts(
        text::to_lower(left.as_slice()).as_slice(),
        text::to_lower(right.as_slice()).as_slice(),
    );
    if loose != 0 {
        loose
    } else {
        rank_texts(left.as_slice(), right.as_slice())
    }
}

/// Compares two paths.
pub fn rank_paths(a: &str, b: &str) -> (r: i8)
    ensures
        r == parts_rank(paths::comps(a@), paths::comps(b@)),
{
    let left = paths::components(text::to_chars(a).as_slice());
    let right = paths::components(text::to_chars(b).as_slice());
    let ghost x = text::rows(left@);
    let ghost y = text::rows(right@);
    let mut i: usize = 0;
    assert(x.skip(0) == x && y.skip(0) == y);
    while i < left.len() && i < right.len()
        invariant
            i <= left@.len(),
            i <= right@.len(),
            x == text::rows(left@),
            y == text::rows(right@),
            x == paths::comps(a@),
            y == paths::comps(b@),
            parts_rank(x, y) == parts_rank(x.skip(i as int), y.skip(i as int)),
        decreases left@.len() - i,
    {
        assert(x.skip(i as int)[0] == left@[i as int]@ && y.skip(i as int)[0] == right@[i as int]@);
        let r: i8 = rank_texts(left[i].as_slice(), right[i].as_slice());
        if r != 0 {
            return r;
        }
        assert(x.skip(i as int).skip(1) == x.skip(i + 1));
        assert(y.skip(i as int).skip(1) == y.skip(i + 1));
        i = i + 1;
    }
    if i < left.len() {
        1
    } else if i < right.len() {
        -1
    } else {
        0
    }
}

fn rank_numbers(a: u64, b: u64) -> (r: i8)
    ensures
        r == int_rank(a as int, b as int),
{
    if a < b {
        -1
    } else if a == b {
        0
    } else {
        1
    }
}

fn rank_times(a: Option<i128>, b: Option<i128>) -> (r: i8)
    ensures
        r == time_rank(a, b),
{
    match (a, b) {
        (None, None) => 0,
        (None, Some(_)) => -1,
        (Some(_), None) => 1,
        (Some(x), Some(y)) => if x < y {
            -1
        } else if x == y {
            0
        } else {
            1
        },
    }
}

fn rank_items(a: &StubItem, b: &StubItem) -> (r: i8)
    ensures
        r == item_rank(*a, *b),
{
    if a.descending != b.descending {
        return rank_numbers(bool_int(a.descending), bool_int(b.descending));
    }
    if a.by_name != b.by_name {
        return rank_numbers(bool_int(a.by_name), bool_int(b.by_name));
    }
    let mut key: i8 = rank_numbers(a.number, b.number);
    if key == 0 {
        key = rank_times(a.time, b.time);
    }
    if key == 0 && a.by_name {
        key = rank_names(a.stub.name.as_str(), b.stub.name.as_str());
    }
    proof {
        lemma_name_rank(a.stub.name@, b.stub.name@);
    }
    assert(key == key_rank(*a, *b));
    if key != 0 {
        if a.descending {
            -key
        } else {
            key
        }
    } else {
        rank_paths(a.stub.path.as_str(), b.stub.path.as_str())
    }
}

impl<'a> Ranked for StubItem<'a> {
    open spec fn before(self, other: Self) -> bool {
        item_rank(self, other) < 0
    }

    proof fn asymmetric(a: Self, b: Self) {
        lemma_item_rank(a, b);
    }

    proof fn not_before_transitive(a: Self, b: Self, c: Self) {
        lemma_item_rank(a, b);
        lemma_item_rank(b, c);
        lemma_item_rank(a, c);
        lemma_item_rank_transitive(a, b, c);
    }

    fn is_before(&self, other: &Self) -> (r: bool) {
        rank_items(self, other) < 0
    }
}

/// The order that a listing uses: the one asked for, or the one that goes with
/// its only extra column.
pub open spec fn effective_sort(o: TreeOptions) -> Option<SortPlan> {
    match o.sort {
        Some(plan) => Some(plan),
        None => if o.sizes && !o.times && !o.counts {
            Some(SortPlan { field: SortField::Size, descending: true })
        } else if o.times && !o.sizes && !o.counts {
            Some(SortPlan { field: SortField::Time, descending: true })
        } else if o.counts && !o.sizes && !o.times {
            Some(SortPlan { field: SortField::Count, descending: true })
        } else {
            None
        },
    }
}

/// Finds the order that a listing uses.
pub fn sort_plan(o: TreeOptions) -> (r: Option<SortPlan>)
    ensures
        r == effective_sort(o),
{
    match o.sort {
        Some(plan) => Some(plan),
        None => if o.sizes && !o.times && !o.counts {
            Some(SortPlan { field: SortField::Size, descending: true })
        } else if o.times && !o.sizes && !o.counts {
            Some(SortPlan { field: SortField::Time, descending: true })
        } else if o.counts && !o.sizes && !o.times {
            Some(SortPlan { field: SortField::Count, descending: true })
        } else {
            None
        },
    }
}

/// The bytes allocated for an entry itself.
pub open spec fn own_size(meta: Option<EntryMeta>) -> u64 {
    match meta {
        Some(m) => m.allocated,
        None => 0,
    }
}

fn allocated(meta: Option<EntryMeta>) -> (r: u64)
    ensures
        r == own_size(meta),
{
    match meta {
        Some(m) => m.allocated,
        None => 0,
    }
}

/// The size by which an entry is sorted.
pub open spec fn sort_size(stub: EntryStub, scan: Map<Seq<char>, PathFacts>, o: TreeOptions) -> u64 {
    if o.sizes && stub.is_dir {
        size_at(scan, stub.path@)
    } else {
        own_size(stub.meta)
    }
}

/// The number of entries that an entry stands for.
pub open spec fn entry_count(stub: EntryStub, scan: Map<Seq<char>, PathFacts>) -> u64 {
    if stub.is_dir {
        crate::domain::sat_add(dirs_at(scan, stub.path@), files_at(scan, stub.path@))
    } else {
        1
    }
}

/// An entry with what it is sorted by under a listing's order. Without an
/// order, directories come first and names decide.
pub open spec fn item_of<'a>(
    stub: &'a EntryStub,
    scan: Map<Seq<char>, PathFacts>,
    o: TreeOptions,
) -> StubItem<'a> {
    match effective_sort(o) {
        Some(plan) => StubItem {
            descending: plan.descending,
            by_name: plan.field == SortField::Name,
            number: match plan.field {
                SortField::Size => sort_size(*stub, scan, o),
                SortField::Count => entry_count(*stub, scan),
                _ => 0,
            },
            time: if plan.field == SortField::Time {
                match stub.meta {
                    Some(m) => m.mtime,
                    None => None,
                }
            } else {
                None
            },
            stub,
        },
        None => StubItem {
            descending: false,
            by_name: true,
            number: if stub.is_dir {
                0
            } else {
                1
            },
            time: None,
            stub,
        },
    }
}

fn make_item<'a>(stub: &'a EntryStub, scan: &ScanResult, o: TreeOptions) -> (r: StubItem<'a>)
    requires
        scan.wf(),
    ensures
        r == item_of(stub, scan@, o),
{
    match sort_plan(o) {
        Some(plan) => {
            let number: u64 = match plan.field {
                SortField::Size => if o.sizes && stub.is_dir {
                    scan.size(stub.path.as_str())
                } else {
                    allocated(stub.meta)
                },
                SortField::Count => if stub.is_dir {
                    scan.dirs(stub.path.as_str()).saturating_add(scan.files(stub.path.as_str()))
                } else {
                    1
                },
                _ => 0,
            };
            let time = match plan.field {
                SortField::Time => match stub.meta {
                    Some(m) => m.mtime,
                    None => None,
                },
                _ => None,
            };
            let by_name = match plan.field {
                SortField::Name => true,
                _ => false,
            };
            StubItem { descending: plan.descending, by_name, number, time, stub }
        },
        None => StubItem {
            descending: false,
            by_name: true,
            number: if stub.is_dir {
                0
            } else {
                1
            },
            time: None,
            stub,
        },
    }
}

/// Whether an entry is listed at all.
pub open spec fn is_listed(stub: EntryStub, o: TreeOptions) -> bool {
    !o.dirs_only || stub.is_dir
}

/// The listed entries of a directory, as scanned.
pub open spec fn items_of<'a>(
    stubs: Seq<EntryStub>,
    scan: Map<Seq<char>, PathFacts>,
    o: TreeOptions,
) -> Seq<StubItem<'a>>
    decreases stubs.len(),
{
    if stubs.len() == 0 {
        Seq::empty()
    } else {
        let before = items_of(stubs.drop_last(), scan, o);
        if is_listed(stubs.last(), o) {
            before.push(item_of(&stubs.last(), scan, o))
        } else {
            before
        }
    }
}

/// The listed entries of a directory, in order.
pub open spec fn sorted_items<'a>(
    stubs: Seq<EntryStub>,
    scan: Map<Seq<char>, PathFacts>,
    o: TreeOptions,
) -> Seq<StubItem<'a>> {
    order::ranked(items_of(stubs, scan, o))
}

fn sort_stubs<'a>(stubs: &'a Vec<EntryStub>, scan: &ScanResult, o: TreeOptions) -> (r: Vec<
    StubItem<'a>,
>)
    requires
        scan.wf(),
    ensures
        r@ == sorted_items(stubs@, scan@, o),
        r@.len() <= stubs@.len(),
{
    let mut items: Vec<StubItem<'a>> = Vec::new();
    let mut i: usize = 0;
    assert(stubs@.take(0) == Seq::<EntryStub>::empty());
    while i < stubs.len()
        invariant
            i <= stubs@.len(),
            scan.wf(),
            items@ == items_of(stubs@.take(i as int), scan@, o),
            items@.len() <= i,
        decreases stubs@.len() - i,
    {
        assert(stubs@.take(i + 1).drop_last() == stubs@.take(i as int));
        let stub = &stubs[i];
        if !o.dirs_only || stub.is_dir {
            items.push(make_item(stub, scan, o));
        }
        i = i + 1;
    }
    assert(stubs@.take(stubs@.len() as int) == stubs@);
    proof {
        order::law_ranked(items@);
    }
    order::sort(items)
}

/// Texts that a listing shows for a node, written by the caller.
pub struct Labels {
    /// The name, with its colors and its link.
    pub name: String,
    pub size: String,
    pub time: String,
    pub dirs: String,
    pub files: String,
    pub omitted_size: String,
    pub omitted_dirs: String,
    pub omitted_files: String,
}

impl Labels {
    /// Whether nothing is written yet.
    pub open spec fn is_blank(self) -> bool {
        &&& self.name@ == ""@
        &&& self.size@ == ""@
        &&& self.time@ == ""@
        &&& self.dirs@ == ""@
        &&& self.files@ == ""@
        &&& self.omitted_size@ == ""@
        &&& self.omitted_dirs@ == ""@
        &&& self.omitted_files@ == ""@
    }
}

/// A node of the shown tree.
pub struct Node {
    pub path: String,
    pub name: String,
    pub meta: Option<EntryMeta>,
    pub children: Vec<Node>,
    pub total_children_count: usize,
    pub omitted_size: u64,
    pub omitted_recursive_dir_count: u64,
    pub omitted_recursive_file_count: u64,
    pub omitted_dirs_count: usize,
    pub omitted_files_count: usize,
    pub is_dir: bool,
    pub is_symlink: bool,
    pub true_size: u64,
    pub recursive_dir_count: u64,
    pub recursive_file_count: u64,
    pub git_status: Option<String>,
    pub labels: Labels,
}

/// Whether nothing is written yet on a node and on all below it.
pub open spec fn is_unlabelled(node: Node) -> bool
    decreases node,
{
    &&& node.labels.is_blank()
    &&& forall|i: int|
        0 <= i < node.children@.len() ==> is_unlabelled(#[trigger] node.children@[i])
}

/// What a node is built from.
pub struct NodeSeed<'a> {
    pub path: &'a String,
    pub meta: Option<EntryMeta>,
    /// Whether the path is a directory and whether it is a symbolic link, by
    /// its file type.
    pub file_type: Option<(bool, bool)>,
    pub is_symlink_hint: Option<bool>,
}

/// Whether a seed is a directory.
pub open spec fn seed_is_dir(seed: NodeSeed) -> bool {
    match seed.meta {
        Some(m) => m.is_dir,
        None => match seed.file_type {
            Some(t) => t.0,
            None => false,
        },
    }
}

/// Whether a seed is a symbolic link.
pub open spec fn seed_is_symlink(seed: NodeSeed) -> bool {
    match seed.is_symlink_hint {
        Some(b) => b,
        None => match seed.file_type {
            Some(t) => t.1,
            None => false,
        },
    }
}

/// The listed entries that a node has below it: none where its contents are
/// not expanded.
pub open spec fn expanded(seed: NodeSeed, depth: int, o: TreeOptions, scan: Map<Seq<char>, PathFacts>)
    -> Option<Seq<EntryStub>> {
    if seed_is_dir(seed) && depth < o.max_depth && !(o.no_expand_git && paths::last_name(
        seed.path@,
    ) == Some(".git"@)) {
        children_at(scan, seed.path@)
    } else {
        None
    }
}

/// How many entries are shown of a directory.
pub open spec fn shown_count(listed: nat, depth: int, o: TreeOptions) -> nat {
    if depth == 0 || listed <= o.trunc {
        listed
    } else {
        o.trunc as nat
    }
}

/// The size that an entry adds to what is omitted.
pub open spec fn omitted_size_of(stub: EntryStub, scan: Map<Seq<char>, PathFacts>) -> nat {
    if stub.is_dir {
        size_at(scan, stub.path@) as nat
    } else {
        own_size(stub.meta) as nat
    }
}

/// The sum of a number over entries.
pub open spec fn item_sum(items: Seq<StubItem>, f: spec_fn(EntryStub) -> nat) -> nat
    decreases items.len(),
{
    if items.len() == 0 {
        0
    } else {
        item_sum(items.drop_last(), f) + f(*items.last().stub)
    }
}

/// The sum of a number over scanned entries.
pub open spec fn stub_sum(stubs: Seq<EntryStub>, f: spec_fn(EntryStub) -> nat) -> nat
    decreases stubs.len(),
{
    if stubs.len() == 0 {
        0
    } else {
        stub_sum(stubs.drop_last(), f) + f(stubs.last())
    }
}

/// One for a directory.
pub open spec fn one_dir() -> spec_fn(EntryStub) -> nat {
    |s: EntryStub|
        if s.is_dir {
            1nat
        } else {
            0nat
        }
}

/// One for anything else.
pub open spec fn one_file() -> spec_fn(EntryStub) -> nat {
    |s: EntryStub|
        if s.is_dir {
            0nat
        } else {
            1nat
        }
}

/// The size of an entry, for the sum of omitted sizes.
pub open spec fn size_term(scan: Map<Seq<char>, PathFacts>) -> spec_fn(EntryStub) -> nat {
    |s: EntryStub| omitted_size_of(s, scan)
}

/// The size of an entry that is no directory.
pub open spec fn file_size_term() -> spec_fn(EntryStub) -> nat {
    |s: EntryStub|
        if s.is_dir {
            0
        } else {
            own_size(s.meta) as nat
        }
}

/// The directories that an entry stands for, itself included.
pub open spec fn dir_term(scan: Map<Seq<char>, PathFacts>) -> spec_fn(EntryStub) -> nat {
    |s: EntryStub|
        if s.is_dir {
            crate::domain::sat_add(dirs_at(scan, s.path@), 1) as nat
        } else {
            0
        }
}

/// The files that an entry stands for.
pub open spec fn file_term(scan: Map<Seq<char>, PathFacts>) -> spec_fn(EntryStub) -> nat {
    |s: EntryStub|
        if s.is_dir {
            files_at(scan, s.path@) as nat
        } else {
            1
        }
}

/// The status of a node: its own, merged with those of its shown children.
pub open spec fn folded_status(own: Option<Seq<char>>, children: Seq<Node>) -> Option<Seq<char>>
    decreases children.len(),
{
    if children.len() == 0 {
        own
    } else {
        Some(
            tree_git::merged_status(
                folded_status(own, children.drop_last()),
                paths::opt_text(children.last().git_status),
            ),
        )
    }
}

/// Whether a node is the one that a seed gives at a depth.
pub open spec fn is_node(
    node: Node,
    seed: NodeSeed,
    depth: int,
    o: TreeOptions,
    scan: Map<Seq<char>, PathFacts>,
) -> bool
    decreases o.max_depth - depth,
{
    let is_dir = seed_is_dir(seed);
    let path = seed.path@;
    &&& node.path@ == path
    &&& node.name@ == (match paths::last_name(path) {
        Some(name) => name,
        None => "."@,
    })
    &&& node.meta == seed.meta
    &&& node.is_dir == is_dir
    &&& node.is_symlink == seed_is_symlink(seed)
    &&& node.true_size == (if o.sizes && is_dir {
        size_at(scan, path)
    } else {
        own_size(seed.meta)
    })
    &&& node.recursive_dir_count == (if o.counts && is_dir {
        dirs_at(scan, path)
    } else {
        0
    })
    &&& node.recursive_file_count == (if !o.counts {
        0
    } else if is_dir {
        files_at(scan, path)
    } else {
        1
    })
    &&& match expanded(seed, depth, o, scan) {
        None => {
            &&& node.children@.len() == 0
            &&& node.total_children_count == 0
            &&& node.omitted_size == 0
            &&& node.omitted_recursive_dir_count == 0
            &&& node.omitted_recursive_file_count == 0
            &&& node.omitted_dirs_count == 0
            &&& node.omitted_files_count == 0
            &&& paths::opt_text(node.git_status) == git_at(scan, path)
        },
        Some(stubs) => {
            let items = sorted_items(stubs, scan, o);
            let shown = shown_count(items.len(), depth, o);
            let rest = items.skip(shown as int);
            &&& depth < o.max_depth
            &&& node.total_children_count == items.len()
            &&& node.omitted_dirs_count == item_sum(rest, one_dir())
            &&& node.omitted_files_count == (if o.dirs_only {
                0
            } else {
                item_sum(rest, one_file())
            })
            &&& node.omitted_size == (if o.sizes {
                crate::domain::sat_add(
                    crate::aggregation::capped(item_sum(rest, size_term(scan))),
                    if o.dirs_only {
                        0
                    } else {
                        crate::aggregation::capped(stub_sum(stubs, file_size_term()))
                    },
                )
            } else {
                0
            })
            &&& node.omitted_recursive_dir_count == (if o.counts {
                crate::aggregation::capped(item_sum(rest, dir_term(scan)))
            } else {
                0
            })
            &&& node.omitted_recursive_file_count == (if o.counts {
                crate::aggregation::capped(item_sum(rest, file_term(scan)))
            } else {
                0
            })
            &&& node.children@.len() == shown
            &&& forall|i: int|
                0 <= i < shown ==> is_node(
                    #[trigger] node.children@[i],
                    stub_node_seed(items[i]),
                    depth + 1,
                    o,
                    scan,
                )
            &&& paths::opt_text(node.git_status) == folded_status(
                git_at(scan, path),
                node.children@,
            )
        },
    }
}

/// The seed of a sorted entry.
pub open spec fn stub_node_seed<'a>(item: StubItem<'a>) -> NodeSeed<'a> {
    NodeSeed {
        path: &item.stub.path,
        meta: item.stub.meta,
        file_type: Some((item.stub.is_dir, item.stub.is_symlink)),
        is_symlink_hint: Some(item.stub.is_symlink),
    }
}

proof fn lemma_placed_sum(s: Seq<StubItem>, x: StubItem, f: spec_fn(EntryStub) -> nat)
    ensures
        item_sum(order::placed(s, x), f) == item_sum(s, f) + f(*x.stub),
    decreases s.len(),
{
    if s.len() > 0 && x.before(s.last()) {
        lemma_placed_sum(s.drop_last(), x, f);
        let t = order::placed(s.drop_last(), x).push(s.last());
        assert(t.drop_last() == order::placed(s.drop_last(), x));
    } else {
        assert(s.push(x).drop_last() == s);
    }
}

proof fn lemma_ranked_sum(s: Seq<StubItem>, f: spec_fn(EntryStub) -> nat)
    ensures
        item_sum(order::ranked(s), f) == item_sum(s, f),
    decreases s.len(),
{
    if s.len() > 0 {
        lemma_ranked_sum(s.drop_last(), f);
        lemma_placed_sum(order::ranked(s.drop_last()), s.last(), f);
    }
}

proof fn lemma_skip_sum(items: Seq<StubItem>, n: int, f: spec_fn(EntryStub) -> nat)
    requires
        0 <= n <= items.len(),
    ensures
        item_sum(items.take(n), f) + item_sum(items.skip(n), f) == item_sum(items, f),
    decreases items.len() - n,
{
    if n < items.len() {
        let front = items.drop_last();
        if n == front.len() {
            assert(items.skip(n).drop_last() == Seq::<StubItem>::empty());
            assert(item_sum(Seq::<StubItem>::empty(), f) == 0);
            assert(items.take(n) == front);
            assert(items.skip(n).last() == items.last());
        } else {
            lemma_skip_sum(front, n, f);
            assert(front.take(n) == items.take(n));
            assert(items.skip(n).drop_last() == front.skip(n));
            assert(items.skip(n).last() == items.last());
        }
    } else {
        assert(items.take(n) == items);
        assert(items.skip(n) == Seq::<StubItem>::empty());
    }
}

proof fn lemma_ones_fit(items: Seq<StubItem>)
    ensures
        item_sum(items, one_dir()) + item_sum(items, one_file()) == items.len(),
    decreases items.len(),
{
    if items.len() > 0 {
        lemma_ones_fit(items.drop_last());
    }
}

proof fn lemma_no_files_listed(stubs: Seq<EntryStub>, scan: Map<Seq<char>, PathFacts>, o: TreeOptions)
    requires
        o.dirs_only,
    ensures
        item_sum(items_of(stubs, scan, o), one_file()) == 0,
    decreases stubs.len(),
{
    if stubs.len() > 0 {
        lemma_no_files_listed(stubs.drop_last(), scan, o);
        let before = items_of(stubs.drop_last(), scan, o);
        if is_listed(stubs.last(), o) {
            assert(before.push(item_of(&stubs.last(), scan, o)).drop_last() == before);
        }
    }
}

/// Every listed entry of a directory has a node of its own or is counted as
/// omitted.
pub proof fn law_every_entry_is_shown_or_omitted(
    node: Node,
    seed: NodeSeed,
    depth: int,
    o: TreeOptions,
    scan: Map<Seq<char>, PathFacts>,
)
    requires
        is_node(node, seed, depth, o, scan),
    ensures
        node.children@.len() + node.omitted_dirs_count + node.omitted_files_count
            == node.total_children_count,
{
    if let Some(stubs) = expanded(seed, depth, o, scan) {
        let items = sorted_items(stubs, scan, o);
        let shown = shown_count(items.len(), depth, o);
        let rest = items.skip(shown as int);
        lemma_ones_fit(rest);
        if o.dirs_only {
            lemma_no_files_listed(stubs, scan, o);
            lemma_ranked_sum(items_of(stubs, scan, o), one_file());
            lemma_skip_sum(items, shown as int, one_file());
        }
    }
}

proof fn lemma_items(stubs: Seq<EntryStub>, scan: Map<Seq<char>, PathFacts>, o: TreeOptions)
    ensures
        forall|m: int|
            0 <= m < stubs.len() && is_listed(stubs[m], o) ==> items_of(
                stubs,
                scan,
                o,
            ).contains(item_of(&#[trigger] stubs[m], scan, o)),
        forall|k: int|
            0 <= k < items_of(stubs, scan, o).len() ==> {
                let item = #[trigger] items_of(stubs, scan, o)[k];
                is_listed(*item.stub, o) && stubs.contains(*item.stub) && item == item_of(
                    item.stub,
                    scan,
                    o,
                )
            },
    decreases stubs.len(),
{
    if stubs.len() > 0 {
        let front = stubs.drop_last();
        let before = items_of(front, scan, o);
        let all = items_of(stubs, scan, o);
        lemma_items(front, scan, o);
        assert forall|m: int| 0 <= m < stubs.len() && is_listed(stubs[m], o) implies all.contains(
            item_of(&#[trigger] stubs[m], scan, o),
        ) by {
            let item = item_of(&stubs[m], scan, o);
            if m < front.len() {
                assert(front[m] == stubs[m]);
                assert(before.contains(item));
                let k = choose|k: int| 0 <= k < before.len() && before[k] == item;
                assert(all[k] == item);
            } else {
                assert(all[all.len() - 1] == item);
            }
        }
        assert forall|k: int| 0 <= k < all.len() implies {
            let item = #[trigger] all[k];
            is_listed(*item.stub, o) && stubs.contains(*item.stub) && item == item_of(
                item.stub,
                scan,
                o,
            )
        } by {
            if k < before.len() {
                assert(all[k] == before[k]);
                let s = *before[k].stub;
                assert(front.contains(s));
                let m = choose|m: int| 0 <= m < front.len() && front[m] == s;
                assert(stubs[m] == s);
            } else {
                assert(stubs[stubs.len() - 1] == *all[k].stub);
            }
        }
    }
}

proof fn lemma_sorted_item(
    stubs: Seq<EntryStub>,
    scan: Map<Seq<char>, PathFacts>,
    o: TreeOptions,
    k: int,
)
    requires
        0 <= k < sorted_items(stubs, scan, o).len(),
    ensures
        ({
            let item = sorted_items(stubs, scan, o)[k];
            &&& is_listed(*item.stub, o)
            &&& stubs.contains(*item.stub)
            &&& item == item_of(item.stub, scan, o)
        }),
{
    let items = items_of(stubs, scan, o);
    let sorted = sorted_items(stubs, scan, o);
    lemma_items(stubs, scan, o);
    assert(sorted.contains(sorted[k]));
    order::law_ranked_contains(items, sorted[k]);
    let m = choose|m: int| 0 <= m < items.len() && items[m] == sorted[k];
    assert(items[m] == sorted[k]);
}

proof fn lemma_sorted_place(
    stubs: Seq<EntryStub>,
    scan: Map<Seq<char>, PathFacts>,
    o: TreeOptions,
    m: int,
) -> (k: int)
    requires
        0 <= m < stubs.len(),
        is_listed(stubs[m], o),
    ensures
        0 <= k < sorted_items(stubs, scan, o).len(),
        *sorted_items(stubs, scan, o)[k].stub == stubs[m],
{
    let items = items_of(stubs, scan, o);
    let sorted = sorted_items(stubs, scan, o);
    let item = item_of(&stubs[m], scan, o);
    lemma_items(stubs, scan, o);
    assert(items.contains(item));
    order::law_ranked_contains(items, item);
    choose|k: int| 0 <= k < sorted.len() && sorted[k] == item
}

/// Whether what is known of some entries agrees with their kind.
pub open spec fn kinds_agree(stubs: Seq<EntryStub>) -> bool {
    forall|k: int|
        0 <= k < stubs.len() ==> ((#[trigger] stubs[k]).meta matches Some(m) ==> m.is_dir
            == stubs[k].is_dir)
}

/// Whether a listing is in the order of sizes: asked for, or because sizes are its only
/// extra column.
pub open spec fn lists_by(o: TreeOptions, field: SortField, descending: bool) -> bool {
    match o.sort {
        Some(plan) => plan.field == field && plan.descending == descending,
        None => descending && match field {
            SortField::Name => false,
            SortField::Size => o.sizes && !o.times && !o.counts,
            SortField::Time => o.times && !o.sizes && !o.counts,
            SortField::Count => o.counts && !o.sizes && !o.times,
        },
    }
}

/// Whether a listing has no order of its own: directories come first.
pub open spec fn lists_directories_first(o: TreeOptions) -> bool {
    o.sort is None && !(o.sizes && !o.times && !o.counts) && !(o.times && !o.sizes && !o.counts)
        && !(o.counts && !o.sizes && !o.times)
}

/// The size that a listing shows for an entry: with all below it for a directory, its
/// own for anything else.
pub open spec fn entry_size(stub: EntryStub, scan: Map<Seq<char>, PathFacts>) -> u64 {
    if stub.is_dir {
        if scan.contains_key(stub.path@) && scan[stub.path@].size is Some {
            scan[stub.path@].size->0
        } else {
            0
        }
    } else {
        match stub.meta {
            Some(m) => m.allocated,
            None => 0,
        }
    }
}

/// The children that are shown of a directory, as the entries they stand for.
proof fn lemma_child(
    node: Node,
    seed: NodeSeed,
    depth: int,
    o: TreeOptions,
    scan: Map<Seq<char>, PathFacts>,
    stubs: Seq<EntryStub>,
    i: int,
) -> (s: EntryStub)
    requires
        is_node(node, seed, depth, o, scan),
        children_at(scan, seed.path@) == Some(stubs),
        0 <= i < node.children@.len(),
    ensures
        expanded(seed, depth, o, scan) == Some(stubs),
        i < sorted_items(stubs, scan, o).len(),
        node.children@.len() == shown_count(sorted_items(stubs, scan, o).len(), depth, o),
        s == *sorted_items(stubs, scan, o)[i].stub,
        stubs.contains(s),
        is_listed(s, o),
        sorted_items(stubs, scan, o)[i] == item_of(&s, scan, o),
        node.children@[i].path@ == s.path@,
        node.children@[i].meta == s.meta,
        is_node(
            node.children@[i],
            stub_node_seed(sorted_items(stubs, scan, o)[i]),
            depth + 1,
            o,
            scan,
        ),
        kinds_agree(stubs) ==> node.children@[i].is_dir == s.is_dir,
        kinds_agree(stubs) && o.sizes ==> node.children@[i].true_size == entry_size(s, scan),
        node.children@[i].is_symlink == s.is_symlink,
{
    let items = sorted_items(stubs, scan, o);
    assert(expanded(seed, depth, o, scan) is Some);
    lemma_sorted_item(stubs, scan, o, i);
    let s = *items[i].stub;
    assert(is_node(node.children@[i], stub_node_seed(items[i]), depth + 1, o, scan));
    if kinds_agree(stubs) {
        let m = choose|m: int| 0 <= m < stubs.len() && stubs[m] == s;
        assert(stubs[m].meta == s.meta);
    }
    s
}

proof fn lemma_in_order(
    stubs: Seq<EntryStub>,
    scan: Map<Seq<char>, PathFacts>,
    o: TreeOptions,
    i: int,
    j: int,
)
    requires
        0 <= i <= j < sorted_items(stubs, scan, o).len(),
    ensures
        ({
            let items = sorted_items(stubs, scan, o);
            &&& item_rank(items[i], items[j]) <= 0
            &&& items[i].descending == items[j].descending
            &&& items[i].by_name == items[j].by_name
            &&& items[i].descending ==> key_rank(items[i], items[j]) >= 0
            &&& !items[i].descending ==> key_rank(items[i], items[j]) <= 0
        }),
{
    let items = sorted_items(stubs, scan, o);
    order::law_ranked(items_of(stubs, scan, o));
    lemma_sorted_item(stubs, scan, o, i);
    lemma_sorted_item(stubs, scan, o, j);
    assert(!items[j].before(items[i]));
    lemma_item_rank(items[i], items[j]);
    lemma_key_rank(items[i], items[j]);
}

/// A listing by size shows the sizes in order, directories by all that lies below them:
/// from the largest to the smallest, or the other way round.
pub proof fn law_sizes_are_in_order(
    node: Node,
    seed: NodeSeed,
    depth: int,
    o: TreeOptions,
    scan: Map<Seq<char>, PathFacts>,
    stubs: Seq<EntryStub>,
    descending: bool,
    i: int,
    j: int,
)
    requires
        is_node(node, seed, depth, o, scan),
        children_at(scan, seed.path@) == Some(stubs),
        kinds_agree(stubs),
        o.sizes,
        lists_by(o, SortField::Size, descending),
        0 <= i <= j < node.children@.len(),
    ensures
        descending ==> node.children@[i].true_size >= node.children@[j].true_size,
        !descending ==> node.children@[i].true_size <= node.children@[j].true_size,
{
    let a = lemma_child(node, seed, depth, o, scan, stubs, i);
    let b = lemma_child(node, seed, depth, o, scan, stubs, j);
    lemma_in_order(stubs, scan, o, i, j);
}

/// In a listing by size, what is left out is nowhere ahead of what is shown: from the
/// largest on, nothing that is left out is larger than anything that is shown.
pub proof fn law_what_is_left_out_comes_last(
    node: Node,
    seed: NodeSeed,
    depth: int,
    o: TreeOptions,
    scan: Map<Seq<char>, PathFacts>,
    stubs: Seq<EntryStub>,
    descending: bool,
    i: int,
    m: int,
)
    requires
        is_node(node, seed, depth, o, scan),
        children_at(scan, seed.path@) == Some(stubs),
        kinds_agree(stubs),
        o.sizes,
        lists_by(o, SortField::Size, descending),
        0 <= i < node.children@.len(),
        0 <= m < stubs.len(),
        !o.dirs_only || stubs[m].is_dir,
        forall|k: int|
            0 <= k < node.children@.len() ==> (#[trigger] node.children@[k]).path@
                != stubs[m].path@,
    ensures
        descending ==> node.children@[i].true_size >= entry_size(stubs[m], scan),
        !descending ==> node.children@[i].true_size <= entry_size(stubs[m], scan),
{
    let a = lemma_child(node, seed, depth, o, scan, stubs, i);
    let items = sorted_items(stubs, scan, o);
    let k = lemma_sorted_place(stubs, scan, o, m);
    if k < node.children@.len() {
        let b = lemma_child(node, seed, depth, o, scan, stubs, k);
        assert(node.children@[k].path@ == stubs[m].path@);
    }
    lemma_sorted_item(stubs, scan, o, k);
    lemma_in_order(stubs, scan, o, i, k);
}

/// A listing by time shows the times in order; an entry whose time is not known counts
/// as the oldest.
pub proof fn law_times_are_in_order(
    node: Node,
    seed: NodeSeed,
    depth: int,
    o: TreeOptions,
    scan: Map<Seq<char>, PathFacts>,
    stubs: Seq<EntryStub>,
    descending: bool,
    i: int,
    j: int,
)
    requires
        is_node(node, seed, depth, o, scan),
        children_at(scan, seed.path@) == Some(stubs),
        lists_by(o, SortField::Time, descending),
        0 <= i <= j < node.children@.len(),
    ensures
        ({
            let a = match node.children@[i].meta {
                Some(m) => m.mtime,
                None => None,
            };
            let b = match node.children@[j].meta {
                Some(m) => m.mtime,
                None => None,
            };
            let (first, second) = if descending {
                (b, a)
            } else {
                (a, b)
            };
            first is Some ==> second is Some && first->0 <= second->0
        }),
{
    let a = lemma_child(node, seed, depth, o, scan, stubs, i);
    let b = lemma_child(node, seed, depth, o, scan, stubs, j);
    lemma_in_order(stubs, scan, o, i, j);
}

/// A listing by counts shows the entries in the order of how many lie below them.
pub proof fn law_counts_are_in_order(
    node: Node,
    seed: NodeSeed,
    depth: int,
    o: TreeOptions,
    scan: Map<Seq<char>, PathFacts>,
    stubs: Seq<EntryStub>,
    descending: bool,
    i: int,
    j: int,
)
    requires
        is_node(node, seed, depth, o, scan),
        children_at(scan, seed.path@) == Some(stubs),
        kinds_agree(stubs),
        o.counts,
        lists_by(o, SortField::Count, descending),
        0 <= i <= j < node.children@.len(),
        node.children@[i].recursive_dir_count + node.children@[i].recursive_file_count <= u64::MAX,
        node.children@[j].recursive_dir_count + node.children@[j].recursive_file_count <= u64::MAX,
    ensures
        ({
            let a = node.children@[i].recursive_dir_count + node.children@[i].recursive_file_count;
            let b = node.children@[j].recursive_dir_count + node.children@[j].recursive_file_count;
            &&& descending ==> a >= b
            &&& !descending ==> a <= b
        }),
{
    let a = lemma_child(node, seed, depth, o, scan, stubs, i);
    let b = lemma_child(node, seed, depth, o, scan, stubs, j);
    lemma_in_order(stubs, scan, o, i, j);
}

/// A listing by name shows the names in order, without regard to ASCII case; one without
/// an order of its own shows directories first, and each group by name.
pub proof fn law_names_are_in_order(
    node: Node,
    seed: NodeSeed,
    depth: int,
    o: TreeOptions,
    scan: Map<Seq<char>, PathFacts>,
    stubs: Seq<EntryStub>,
    i: int,
    j: int,
)
    requires
        is_node(node, seed, depth, o, scan),
        children_at(scan, seed.path@) == Some(stubs),
        kinds_agree(stubs),
        forall|k: int|
            0 <= k < stubs.len() ==> paths::last_name((#[trigger] stubs[k]).path@) == Some(
                stubs[k].name@,
            ),
        0 <= i <= j < node.children@.len(),
    ensures
        ({
            let a = node.children@[i];
            let b = node.children@[j];
            &&& lists_by(o, SortField::Name, false) ==> !order::text_before(
                text::lower(b.name@),
                text::lower(a.name@),
            )
            &&& lists_by(o, SortField::Name, true) ==> !order::text_before(
                text::lower(a.name@),
                text::lower(b.name@),
            )
            &&& lists_directories_first(o) && b.is_dir ==> a.is_dir
            &&& lists_directories_first(o) && a.is_dir == b.is_dir ==> !order::text_before(
                text::lower(b.name@),
                text::lower(a.name@),
            )
        }),
{
    let a = lemma_child(node, seed, depth, o, scan, stubs, i);
    let b = lemma_child(node, seed, depth, o, scan, stubs, j);
    lemma_in_order(stubs, scan, o, i, j);
    let p = choose|p: int| 0 <= p < stubs.len() && stubs[p] == a;
    let q = choose|q: int| 0 <= q < stubs.len() && stubs[q] == b;
    assert(paths::last_name(stubs[p].path@) == Some(stubs[p].name@));
    assert(paths::last_name(stubs[q].path@) == Some(stubs[q].name@));
    lemma_name_rank(a.name@, b.name@);
    lemma_text_rank(text::lower(a.name@), text::lower(b.name@));
    order::lemma_text_total(text::lower(a.name@), text::lower(b.name@));
}

/// The children of a node are entries of its directory: only directories where only
/// those are listed, all of them at the top, and else no more than the limit.
pub proof fn law_children_are_entries(
    node: Node,
    seed: NodeSeed,
    depth: int,
    o: TreeOptions,
    scan: Map<Seq<char>, PathFacts>,
    stubs: Seq<EntryStub>,
    i: int,
)
    requires
        is_node(node, seed, depth, o, scan),
        children_at(scan, seed.path@) == Some(stubs),
        kinds_agree(stubs),
        0 <= i < node.children@.len(),
    ensures
        exists|k: int|
            0 <= k < stubs.len() && (#[trigger] stubs[k]).path@ == node.children@[i].path@
                && stubs[k].is_dir == node.children@[i].is_dir && stubs[k].is_symlink
                == node.children@[i].is_symlink && stubs[k].meta == node.children@[i].meta,
        o.dirs_only ==> node.children@[i].is_dir,
        depth > 0 ==> node.children@.len() <= o.trunc,
        depth == 0 ==> node.children@.len() == node.total_children_count,
        depth < o.max_depth,
{
    let a = lemma_child(node, seed, depth, o, scan, stubs, i);
    let p = choose|p: int| 0 <= p < stubs.len() && stubs[p] == a;
    assert(stubs[p].path@ == node.children@[i].path@);
}

/// A directory above the greatest depth whose entries are known shows them: all of them
/// at the top, and else as many as the limit allows.
pub proof fn law_known_entries_are_shown(
    node: Node,
    seed: NodeSeed,
    depth: int,
    o: TreeOptions,
    scan: Map<Seq<char>, PathFacts>,
    stubs: Seq<EntryStub>,
)
    requires
        is_node(node, seed, depth, o, scan),
        children_at(scan, seed.path@) == Some(stubs),
        node.is_dir,
        depth < o.max_depth,
        !o.no_expand_git,
        !o.dirs_only,
    ensures
        node.total_children_count == stubs.len(),
        depth == 0 || stubs.len() <= o.trunc ==> node.children@.len() == stubs.len(),
        depth != 0 && stubs.len() > o.trunc ==> node.children@.len() == o.trunc,
        node.omitted_dirs_count + node.omitted_files_count + node.children@.len() == stubs.len(),
{
    lemma_all_listed(stubs, scan, o);
    order::law_ranked(items_of(stubs, scan, o));
    assert(expanded(seed, depth, o, scan) == Some(stubs));
    law_every_entry_is_shown_or_omitted(node, seed, depth, o, scan);
}

proof fn lemma_all_listed(stubs: Seq<EntryStub>, scan: Map<Seq<char>, PathFacts>, o: TreeOptions)
    requires
        !o.dirs_only,
    ensures
        items_of(stubs, scan, o).len() == stubs.len(),
        forall|f: spec_fn(EntryStub) -> nat| #[trigger]
            item_sum(items_of(stubs, scan, o), f) == stub_sum(stubs, f),
    decreases stubs.len(),
{
    if stubs.len() > 0 {
        lemma_all_listed(stubs.drop_last(), scan, o);
        let before = items_of(stubs.drop_last(), scan, o);
        let all = items_of(stubs, scan, o);
        assert(all.drop_last() == before);
        assert forall|f: spec_fn(EntryStub) -> nat| #[trigger]
            item_sum(all, f) == stub_sum(stubs, f) by {
            assert(item_sum(before, f) == stub_sum(stubs.drop_last(), f));
        }
    }
}

/// Nothing is shown below the greatest depth, below what is no directory, below a
/// directory whose entries are not known, nor in a `.git` that is not to be expanded.
pub proof fn law_nothing_more_is_shown(
    node: Node,
    seed: NodeSeed,
    depth: int,
    o: TreeOptions,
    scan: Map<Seq<char>, PathFacts>,
)
    requires
        is_node(node, seed, depth, o, scan),
        depth >= o.max_depth || !node.is_dir || children_at(scan, seed.path@) is None
            || o.no_expand_git && node.name@ == ".git"@,
    ensures
        node.children@.len() == 0 && node.total_children_count == 0,
        node.omitted_size == 0 && node.omitted_dirs_count == 0 && node.omitted_files_count == 0,
        node.omitted_recursive_dir_count == 0 && node.omitted_recursive_file_count == 0,
{
    reveal_strlit(".git");
    reveal_strlit(".");
    assert(".git"@.len() == 4 && "."@.len() == 1);
}

/// A node tells what was found out about its path: the size with all below it for a
/// directory where sizes are listed, the bytes of its own for anything else, and the
/// numbers of directories and files below it where these are listed.
pub proof fn law_nodes_tell_what_was_found(
    node: Node,
    seed: NodeSeed,
    depth: int,
    o: TreeOptions,
    scan: Map<Seq<char>, PathFacts>,
)
    requires
        is_node(node, seed, depth, o, scan),
    ensures
        node.path@ == seed.path@,
        seed.meta matches Some(m) ==> node.is_dir == m.is_dir,
        seed.meta is None ==> (seed.file_type matches Some(kind) ==> node.is_dir == kind.0),
        ({
            let known = scan.contains_key(seed.path@);
            let f = scan[seed.path@];
            &&& o.sizes && node.is_dir && known && f.size is Some ==> node.true_size == f.size->0
            &&& o.counts && node.is_dir && known && f.dirs is Some ==> node.recursive_dir_count
                == f.dirs->0
            &&& o.counts && node.is_dir && known && f.files is Some ==> node.recursive_file_count
                == f.files->0
            &&& (!o.sizes || !node.is_dir) && seed.meta is Some ==> node.true_size
                == seed.meta->0.allocated
            &&& o.counts && !node.is_dir ==> node.recursive_file_count == 1
                && node.recursive_dir_count == 0
        }),
{
}

/// The sum of the files that some nodes stand for.
pub open spec fn shown_files(children: Seq<Node>) -> nat
    decreases children.len(),
{
    if children.len() == 0 {
        0
    } else {
        shown_files(children.drop_last()) + children.last().recursive_file_count as nat
    }
}

/// The sum of the directories that some nodes stand for, themselves included.
pub open spec fn shown_dirs(children: Seq<Node>) -> nat
    decreases children.len(),
{
    if children.len() == 0 {
        0
    } else {
        shown_dirs(children.drop_last()) + (if children.last().is_dir {
            children.last().recursive_dir_count as nat + 1
        } else {
            0
        })
    }
}

/// The sum of the sizes of some nodes.
pub open spec fn shown_bytes(children: Seq<Node>) -> nat
    decreases children.len(),
{
    if children.len() == 0 {
        0
    } else {
        shown_bytes(children.drop_last()) + children.last().true_size as nat
    }
}

/// The sum of the sizes of some entries.
pub open spec fn sizes_sum(stubs: Seq<EntryStub>, scan: Map<Seq<char>, PathFacts>) -> nat
    decreases stubs.len(),
{
    if stubs.len() == 0 {
        0
    } else {
        sizes_sum(stubs.drop_last(), scan) + entry_size(stubs.last(), scan) as nat
    }
}

/// The sum of the directories that some entries stand for, themselves included.
pub open spec fn dirs_sum(stubs: Seq<EntryStub>, scan: Map<Seq<char>, PathFacts>) -> nat
    decreases stubs.len(),
{
    if stubs.len() == 0 {
        0
    } else {
        let s = stubs.last();
        dirs_sum(stubs.drop_last(), scan) + (if !s.is_dir {
            0nat
        } else if scan.contains_key(s.path@) && scan[s.path@].dirs is Some {
            scan[s.path@].dirs->0 as nat + 1
        } else {
            1
        })
    }
}

/// The sum of the files that some entries stand for.
pub open spec fn files_sum(stubs: Seq<EntryStub>, scan: Map<Seq<char>, PathFacts>) -> nat
    decreases stubs.len(),
{
    if stubs.len() == 0 {
        0
    } else {
        let s = stubs.last();
        files_sum(stubs.drop_last(), scan) + (if !s.is_dir {
            1nat
        } else if scan.contains_key(s.path@) && scan[s.path@].files is Some {
            scan[s.path@].files->0 as nat
        } else {
            0
        })
    }
}

proof fn lemma_shown_sums(
    children: Seq<Node>,
    items: Seq<StubItem>,
    scan: Map<Seq<char>, PathFacts>,
    o: TreeOptions,
    n: int,
)
    requires
        0 <= n <= children.len() <= items.len(),
        forall|k: int|
            0 <= k < children.len() ==> {
                let c = #[trigger] children[k];
                let s = *items[k].stub;
                &&& o.sizes ==> c.true_size == entry_size(s, scan)
                &&& o.counts ==> c.recursive_file_count == file_term(scan)(s)
                &&& o.counts ==> (if c.is_dir {
                    c.recursive_dir_count + 1
                } else {
                    0
                }) == dir_term(scan)(s)
            },
    ensures
        o.counts ==> shown_dirs(children.take(n)) == item_sum(items.take(n), dir_term(scan)),
        o.counts ==> shown_files(children.take(n)) == item_sum(items.take(n), file_term(scan)),
        o.sizes ==> shown_bytes(children.take(n)) == item_sum(items.take(n), size_term(scan)),
    decreases n,
{
    if n > 0 {
        lemma_shown_sums(children, items, scan, o, n - 1);
        assert(children.take(n).drop_last() == children.take(n - 1));
        assert(items.take(n).drop_last() == items.take(n - 1));
        assert(children.take(n).last() == children[n - 1]);
        assert(items.take(n).last() == items[n - 1]);
    }
}

proof fn lemma_dirs_fit(stubs: Seq<EntryStub>, scan: Map<Seq<char>, PathFacts>, m: int)
    requires
        0 <= m < stubs.len(),
    ensures
        stubs[m].is_dir ==> dirs_at(scan, stubs[m].path@) + 1 <= dirs_sum(stubs, scan),
    decreases stubs.len(),
{
    if m < stubs.len() - 1 {
        lemma_dirs_fit(stubs.drop_last(), scan, m);
        assert(stubs.drop_last()[m] == stubs[m]);
    }
}

proof fn lemma_entry_sums(stubs: Seq<EntryStub>, scan: Map<Seq<char>, PathFacts>)
    ensures
        stub_sum(stubs, file_term(scan)) == files_sum(stubs, scan),
        stub_sum(stubs, size_term(scan)) == sizes_sum(stubs, scan),
        dirs_sum(stubs, scan) <= u64::MAX ==> stub_sum(stubs, dir_term(scan)) == dirs_sum(
            stubs,
            scan,
        ),
    decreases stubs.len(),
{
    if stubs.len() > 0 {
        lemma_entry_sums(stubs.drop_last(), scan);
    }
}

/// Nothing is lost in a listing with counts: the files and directories below the shown
/// children and those that are left out are together all that lies below the directory.
pub proof fn law_shown_and_omitted_counts_add_up(
    node: Node,
    seed: NodeSeed,
    depth: int,
    o: TreeOptions,
    scan: Map<Seq<char>, PathFacts>,
    stubs: Seq<EntryStub>,
)
    requires
        is_node(node, seed, depth, o, scan),
        children_at(scan, seed.path@) == Some(stubs),
        kinds_agree(stubs),
        node.is_dir && depth < o.max_depth && !o.no_expand_git,
        o.counts && !o.dirs_only,
        files_sum(stubs, scan) <= u64::MAX,
        dirs_sum(stubs, scan) <= u64::MAX,
    ensures
        shown_files(node.children@) + node.omitted_recursive_file_count == files_sum(stubs, scan),
        shown_dirs(node.children@) + node.omitted_recursive_dir_count == dirs_sum(stubs, scan),
{
    let items = sorted_items(stubs, scan, o);
    let shown = node.children@.len() as int;
    assert(expanded(seed, depth, o, scan) == Some(stubs));
    order::law_ranked(items_of(stubs, scan, o));
    lemma_all_listed(stubs, scan, o);
    lemma_ranked_sum(items_of(stubs, scan, o), file_term(scan));
    lemma_skip_sum(items, shown, file_term(scan));
    lemma_ranked_sum(items_of(stubs, scan, o), dir_term(scan));
    lemma_skip_sum(items, shown, dir_term(scan));
    lemma_entry_sums(stubs, scan);
    assert forall|k: int| 0 <= k < node.children@.len() implies {
        let c = #[trigger] node.children@[k];
        let s = *items[k].stub;
        &&& o.sizes ==> c.true_size == entry_size(s, scan)
        &&& o.counts ==> c.recursive_file_count == file_term(scan)(s)
        &&& o.counts ==> (if c.is_dir {
            c.recursive_dir_count + 1
        } else {
            0
        }) == dir_term(scan)(s)
    } by {
        let s = lemma_child(node, seed, depth, o, scan, stubs, k);
        let m = choose|m: int| 0 <= m < stubs.len() && stubs[m] == s;
        lemma_dirs_fit(stubs, scan, m);
    }
    lemma_shown_sums(node.children@, items, scan, o, shown);
    assert(node.children@.take(shown) == node.children@);
}

/// Nothing is lost in a listing of directories with sizes: what is shown and what is left
/// out are together all that lies below the listed directories.
pub proof fn law_shown_and_omitted_sizes_add_up(
    node: Node,
    seed: NodeSeed,
    depth: int,
    o: TreeOptions,
    scan: Map<Seq<char>, PathFacts>,
    stubs: Seq<EntryStub>,
)
    requires
        is_node(node, seed, depth, o, scan),
        children_at(scan, seed.path@) == Some(stubs),
        kinds_agree(stubs),
        node.is_dir && depth < o.max_depth && !o.no_expand_git,
        o.sizes && o.dirs_only,
        forall|k: int| 0 <= k < stubs.len() ==> (#[trigger] stubs[k]).is_dir,
        sizes_sum(stubs, scan) <= u64::MAX,
        dirs_sum(stubs, scan) <= u64::MAX,
    ensures
        shown_bytes(node.children@) + node.omitted_size == sizes_sum(stubs, scan),
{
    let items = sorted_items(stubs, scan, o);
    let shown = node.children@.len() as int;
    assert(expanded(seed, depth, o, scan) == Some(stubs));
    order::law_ranked(items_of(stubs, scan, o));
    lemma_only_directories(stubs, scan, o, size_term(scan));
    lemma_ranked_sum(items_of(stubs, scan, o), size_term(scan));
    lemma_skip_sum(items, shown, size_term(scan));
    lemma_entry_sums(stubs, scan);
    assert forall|k: int| 0 <= k < node.children@.len() implies {
        let c = #[trigger] node.children@[k];
        let s = *items[k].stub;
        &&& o.sizes ==> c.true_size == entry_size(s, scan)
        &&& o.counts ==> c.recursive_file_count == file_term(scan)(s)
        &&& o.counts ==> (if c.is_dir {
            c.recursive_dir_count + 1
        } else {
            0
        }) == dir_term(scan)(s)
    } by {
        let s = lemma_child(node, seed, depth, o, scan, stubs, k);
        let m = choose|m: int| 0 <= m < stubs.len() && stubs[m] == s;
        lemma_dirs_fit(stubs, scan, m);
    }
    lemma_shown_sums(node.children@, items, scan, o, shown);
    assert(node.children@.take(shown) == node.children@);
}

proof fn lemma_only_directories(
    stubs: Seq<EntryStub>,
    scan: Map<Seq<char>, PathFacts>,
    o: TreeOptions,
    f: spec_fn(EntryStub) -> nat,
)
    requires
        forall|k: int| 0 <= k < stubs.len() ==> (#[trigger] stubs[k]).is_dir,
    ensures
        items_of(stubs, scan, o).len() == stubs.len(),
        item_sum(items_of(stubs, scan, o), f) == stub_sum(stubs, f),
    decreases stubs.len(),
{
    if stubs.len() > 0 {
        let front = stubs.drop_last();
        assert forall|k: int| 0 <= k < front.len() implies (#[trigger] front[k]).is_dir by {
            assert(front[k] == stubs[k]);
        }
        lemma_only_directories(front, scan, o, f);
        assert(stubs[stubs.len() - 1].is_dir);
        assert(items_of(stubs, scan, o).drop_last() == items_of(front, scan, o));
    }
}

/// A directory shows a status at least as strong as its own and as that of every child
/// it shows, letter by letter.
pub proof fn law_statuses_rise(
    node: Node,
    seed: NodeSeed,
    depth: int,
    o: TreeOptions,
    scan: Map<Seq<char>, PathFacts>,
    i: int,
    letter: int,
)
    requires
        is_node(node, seed, depth, o, scan),
        0 <= i < node.children@.len(),
        0 <= letter < 2,
    ensures
        node.git_status is Some,
        node.children@[i].git_status matches Some(s) ==> tree_git::status_rank(
            tree_git::status_at(node.git_status->0@, letter),
        ) >= tree_git::status_rank(tree_git::status_at(s@, letter)),
        git_at(scan, seed.path@) matches Some(s) ==> tree_git::status_rank(
            tree_git::status_at(node.git_status->0@, letter),
        ) >= tree_git::status_rank(tree_git::status_at(s, letter)),
{
    lemma_folded(git_at(scan, seed.path@), node.children@, i, letter);
}

proof fn lemma_folded(own: Option<Seq<char>>, children: Seq<Node>, i: int, letter: int)
    requires
        0 <= i < children.len(),
        0 <= letter < 2,
    ensures
        ({
            let all = folded_status(own, children);
            let rank = tree_git::status_rank(tree_git::status_at(all->0, letter));
            &&& all is Some
            &&& children[i].git_status matches Some(s) ==> rank >= tree_git::status_rank(
                tree_git::status_at(s@, letter),
            )
            &&& own matches Some(s) ==> rank >= tree_git::status_rank(
                tree_git::status_at(s, letter),
            )
        }),
    decreases children.len(),
{
    let front = children.drop_last();
    let before = folded_status(own, front);
    if i < front.len() {
        lemma_folded(own, front, i, letter);
        assert(front[i] == children[i]);
    } else if front.len() > 0 {
        lemma_folded(own, front, 0, letter);
    }
}

/// Names are compared without regard to ASCII case first, and by their characters where
/// they are the same but for it.
pub proof fn law_names_compare_loosely(a: Seq<char>, b: Seq<char>)
    ensures
        order::text_before(text::lower(a), text::lower(b)) ==> name_rank(a, b) < 0,
        text::lower(a) == text::lower(b) && order::text_before(a, b) ==> name_rank(a, b) < 0,
        name_rank(a, b) == 0 <==> a == b,
        name_rank(a, b) == -name_rank(b, a),
{
    lemma_name_rank(a, b);
    lemma_text_rank(text::lower(a), text::lower(b));
    lemma_text_rank(a, b);
    order::lemma_text_total(text::lower(a), text::lower(b));
    order::lemma_text_total(a, b);
}

/// What is omitted of a directory.
struct Omitted {
    dirs: usize,
    files: usize,
    size: u64,
    dir_count: u64,
    file_count: u64,
}

fn sum_omitted(items: &Vec<StubItem>, shown: usize, scan: &ScanResult) -> (r: Omitted)
    requires
        scan.wf(),
        shown <= items@.len(),
    ensures
        ({
            let rest = items@.skip(shown as int);
            &&& r.dirs == item_sum(rest, one_dir())
            &&& r.files == item_sum(rest, one_file())
            &&& r.size == crate::aggregation::capped(item_sum(rest, size_term(scan@)))
            &&& r.dir_count == crate::aggregation::capped(item_sum(rest, dir_term(scan@)))
            &&& r.file_count == crate::aggregation::capped(item_sum(rest, file_term(scan@)))
        }),
{
    let ghost rest = items@.skip(shown as int);
    let mut r = Omitted { dirs: 0, files: 0, size: 0, dir_count: 0, file_count: 0 };
    let mut i: usize = shown;
    assert(rest.take(0) == Seq::<StubItem>::empty());
    while i < items.len()
        invariant
            shown <= i <= items@.len(),
            scan.wf(),
            rest == items@.skip(shown as int),
            r.dirs == item_sum(rest.take(i - shown), one_dir()),
            r.files == item_sum(rest.take(i - shown), one_file()),
            r.size == crate::aggregation::capped(item_sum(rest.take(i - shown), size_term(scan@))),
            r.dir_count == crate::aggregation::capped(item_sum(rest.take(i - shown), dir_term(scan@))),
            r.file_count == crate::aggregation::capped(item_sum(rest.take(i - shown), file_term(scan@))),
        decreases items@.len() - i,
    {
        let ghost k = i - shown;
        proof {
            assert(rest.take(k + 1).drop_last() == rest.take(k));
            assert(rest.take(k + 1).last() == items@[i as int]);
            lemma_ones_fit(rest.take(k + 1));
        }
        let stub = items[i].stub;
        if stub.is_dir {
            r.dirs = r.dirs + 1;
            r.size = r.size.saturating_add(scan.size(stub.path.as_str()));
            r.dir_count = r.dir_count.saturating_add(
                scan.dirs(stub.path.as_str()).saturating_add(1),
            );
            r.file_count = r.file_count.saturating_add(scan.files(stub.path.as_str()));
        } else {
            r.files = r.files + 1;
            r.size = r.size.saturating_add(allocated(stub.meta));
            r.file_count = r.file_count.saturating_add(1);
        }
        i = i + 1;
    }
    assert(rest.take(rest.len() as int) == rest);
    r
}

fn sum_file_sizes(stubs: &Vec<EntryStub>) -> (r: u64)
    ensures
        r == crate::aggregation::capped(stub_sum(stubs@, file_size_term())),
{
    let mut sum: u64 = 0;
    let mut i: usize = 0;
    assert(stubs@.take(0) == Seq::<EntryStub>::empty());
    while i < stubs.len()
        invariant
            i <= stubs@.len(),
            sum == crate::aggregation::capped(stub_sum(stubs@.take(i as int), file_size_term())),
        decreases stubs@.len() - i,
    {
        assert(stubs@.take(i + 1).drop_last() == stubs@.take(i as int));
        if !stubs[i].is_dir {
            sum = sum.saturating_add(allocated(stubs[i].meta));
        }
        i = i + 1;
    }
    assert(stubs@.take(stubs@.len() as int) == stubs@);
    sum
}

/// Labels on which nothing is written yet.
fn empty_labels() -> (r: Labels)
    ensures
        r.is_blank(),
{
    proof {
        reveal_strlit("");
        assert(""@ == Seq::<char>::empty());
    }
    Labels {
        name: String::new(),
        size: String::new(),
        time: String::new(),
        dirs: String::new(),
        files: String::new(),
        omitted_size: String::new(),
        omitted_dirs: String::new(),
        omitted_files: String::new(),
    }
}

fn copy_status(s: &Option<String>) -> (r: Option<String>)
    ensures
        r == *s,
{
    match s {
        Some(s) => Some(s.clone()),
        None => None,
    }
}

/// Builds the tree below a seed. A sum that is too large stands as the largest number
/// there is, as in the scan.
pub fn build_tree_from_cache(seed: NodeSeed, depth: usize, o: TreeOptions, scan: &ScanResult) -> (r:
    Node)
    requires
        scan.wf(),
    ensures
        is_node(r, seed, depth as int, o, scan@),
        is_unlabelled(r),
    decreases o.max_depth - depth,
{
    let is_dir = match seed.meta {
        Some(m) => m.is_dir,
        None => match seed.file_type {
            Some(t) => t.0,
            None => false,
        },
    };
    let is_symlink = match seed.is_symlink_hint {
        Some(b) => b,
        None => match seed.file_type {
            Some(t) => t.1,
            None => false,
        },
    };
    let path = seed.path.as_str();
    let facts = scan.get(path);
    let last = paths::file_name(path);
    let is_git = match &last {
        Some(name) => text::equal(name.as_str(), ".git"),
        None => false,
    };
    let name = match last {
        Some(name) => name,
        None => text::copy("."),
    };
    let mut node = Node {
        path: seed.path.clone(),
        name,
        meta: seed.meta,
        children: Vec::new(),
        total_children_count: 0,
        omitted_size: 0,
        omitted_recursive_dir_count: 0,
        omitted_recursive_file_count: 0,
        omitted_dirs_count: 0,
        omitted_files_count: 0,
        is_dir,
        is_symlink,
        true_size: if o.sizes && is_dir {
            scan.size(path)
        } else {
            allocated(seed.meta)
        },
        recursive_dir_count: if o.counts && is_dir {
            scan.dirs(path)
        } else {
            0
        },
        recursive_file_count: if !o.counts {
            0
        } else if is_dir {
            scan.files(path)
        } else {
            1
        },
        git_status: match facts {
            Some(f) => copy_status(&f.git),
            None => None,
        },
        labels: empty_labels(),
    };
    if !(is_dir && depth < o.max_depth && !(o.no_expand_git && is_git)) {
        assert(expanded(seed, depth as int, o, scan@) is None);
        return node;
    }
    let found = match facts {
        Some(f) => match &f.children {
            Some(stubs) => Some(stubs),
            None => None,
        },
        None => None,
    };
    let stubs = match found {
        Some(stubs) => stubs,
        None => {
            assert(expanded(seed, depth as int, o, scan@) is None);
            return node;
        },
    };
    assert(children_at(scan@, path@) == Some(stubs@));
    assert(expanded(seed, depth as int, o, scan@) == Some(stubs@));
    let items = sort_stubs(stubs, scan, o);
    let shown: usize = if depth == 0 || items.len() <= o.trunc {
        items.len()
    } else {
        o.trunc
    };
    let omitted = sum_omitted(&items, shown, scan);
    node.total_children_count = items.len();
    node.omitted_dirs_count = omitted.dirs;
    node.omitted_files_count = if o.dirs_only {
        0
    } else {
        omitted.files
    };
    node.omitted_size = if o.sizes {
        let files: u64 = if o.dirs_only {
            0
        } else {
            sum_file_sizes(stubs)
        };
        omitted.size.saturating_add(files)
    } else {
        0
    };
    node.omitted_recursive_dir_count = if o.counts {
        omitted.dir_count
    } else {
        0
    };
    node.omitted_recursive_file_count = if o.counts {
        omitted.file_count
    } else {
        0
    };
    let mut children: Vec<Node> = Vec::new();
    let mut status = copy_status(&node.git_status);
    let ghost own = git_at(scan@, path@);
    let mut i: usize = 0;
    while i < shown
        invariant
            i <= shown <= items@.len(),
            depth < o.max_depth,
            scan.wf(),
            children@.len() == i,
            forall|k: int|
                0 <= k < i ==> is_node(
                    #[trigger] children@[k],
                    stub_node_seed(items@[k]),
                    depth + 1,
                    o,
                    scan@,
                ),
            forall|k: int| 0 <= k < i ==> is_unlabelled(#[trigger] children@[k]),
            paths::opt_text(status) == folded_status(own, children@),
        decreases shown - i,
    {
        let stub = items[i].stub;
        let child = build_tree_from_cache(
            NodeSeed {
                path: &stub.path,
                meta: stub.meta,
                file_type: Some((stub.is_dir, stub.is_symlink)),
                is_symlink_hint: Some(stub.is_symlink),
            },
            depth + 1,
            o,
            scan,
        );
        let merged = tree_git::merge_git_status(
            match &status {
                Some(s) => Some(s.as_str()),
                None => None,
            },
            match &child.git_status {
                Some(s) => Some(s.as_str()),
                None => None,
            },
        );
        let ghost before = children@;
        children.push(child);
        assert(children@.drop_last() == before);
        status = merged;
        i = i + 1;
    }
    node.children = children;
    node.git_status = status;
    node
}

/// A git status is put in at its path, where what else is known stays; no other path is
/// touched.
pub proof fn law_a_status_goes_to_its_path(
    scan: Map<Seq<char>, PathFacts>,
    path: String,
    status: String,
    other: Seq<char>,
)
    ensures
        ({
            let r = with_path_git(scan, path, status);
            &&& r.contains_key(path@)
            &&& r[path@].git == Some(status)
            &&& scan.contains_key(path@) ==> r[path@].size == scan[path@].size && r[path@].dirs
                == scan[path@].dirs && r[path@].files == scan[path@].files && r[path@].children
                == scan[path@].children
            &&& other != path@ ==> (r.contains_key(other) <==> scan.contains_key(other))
            &&& other != path@ && scan.contains_key(other) ==> r[other] == scan[other]
        }),
{
}

/// Totals are put in at their path, each where it is given; what else is known of the path
/// stays, and no other path is touched.
pub proof fn law_totals_go_to_their_path(
    scan: Map<Seq<char>, PathFacts>,
    path: String,
    size: Option<u64>,
    dirs: Option<u64>,
    files: Option<u64>,
    other: Seq<char>,
)
    ensures
        ({
            let r = with_path_totals(scan, path, size, dirs, files);
            let known = scan.contains_key(path@);
            &&& r.contains_key(path@)
            &&& size is Some ==> r[path@].size == size
            &&& dirs is Some ==> r[path@].dirs == dirs
            &&& files is Some ==> r[path@].files == files
            &&& known && size is None ==> r[path@].size == scan[path@].size
            &&& known && dirs is None ==> r[path@].dirs == scan[path@].dirs
            &&& known && files is None ==> r[path@].files == scan[path@].files
            &&& known ==> r[path@].git == scan[path@].git && r[path@].children
                == scan[path@].children
            &&& other != path@ ==> (r.contains_key(other) <==> scan.contains_key(other))
            &&& other != path@ && scan.contains_key(other) ==> r[other] == scan[other]
        }),
{
}

} // verus!
