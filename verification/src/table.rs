//! Hash tables keyed by names and by inodes.
//!
//! A table maps each key to a number: the position of its record in a vector that
//! the caller holds, or what the caller counts.

use crate::text;
use dashmap::DashMap;
use rustc_hash::{FxBuildHasher, FxHashMap};
use vstd::prelude::*;

verus! {

/// `rustc_hash::FxBuildHasher`, carried as a type only.
#[verifier::external_type_specification]
#[verifier::external_body]
pub struct ExFxBuildHasher(FxBuildHasher);

/// The table without entries.
pub open spec fn no_names() -> Map<Seq<char>, usize> {
    Map::empty()
}

/// What a name table holds.
pub uninterp spec fn names_in(table: FxHashMap<String, usize>) -> Map<Seq<char>, usize>;

/// `FxHashMap::default` makes a table without entries.
#[verifier::external_body]
pub(crate) fn new_names() -> (r: FxHashMap<String, usize>)
    ensures
        names_in(r) == no_names(),
{
    FxHashMap::default()
}

/// `HashMap::get` returns the value of a key, if the table has the key.
#[verifier::external_body]
pub(crate) fn name_position(table: &FxHashMap<String, usize>, name: &str) -> (r: Option<usize>)
    ensures
        match r {
            Some(i) => names_in(*table).contains_key(name@) && names_in(*table)[name@] == i,
            None => !names_in(*table).contains_key(name@),
        },
{
    table.get(name).copied()
}

/// `HashMap::insert` sets the value of a key and leaves the other keys alone.
#[verifier::external_body]
pub(crate) fn put_name(table: &mut FxHashMap<String, usize>, name: String, position: usize)
    ensures
        names_in(*final(table)) == names_in(*old(table)).insert(name@, position),
{
    table.insert(name, position);
}

/// `dashmap::DashMap`, carried as a type only.
#[verifier::external_type_specification]
#[verifier::external_body]
#[verifier::reject_recursive_types(K)]
#[verifier::reject_recursive_types(V)]
#[verifier::reject_recursive_types(S)]
pub struct ExDashMap<K, V, S>(DashMap<K, V, S>);

/// The table without entries.
pub open spec fn no_numbers() -> Map<Seq<char>, u64> {
    Map::empty()
}

/// What a shared table of names holds.
pub uninterp spec fn numbers_in(table: DashMap<String, u64, FxBuildHasher>) -> Map<Seq<char>, u64>;

/// `DashMap::with_hasher` makes a table without entries.
#[verifier::external_body]
pub(crate) fn new_numbers() -> (r: DashMap<String, u64, FxBuildHasher>)
    ensures
        numbers_in(r) == no_numbers(),
{
    DashMap::with_hasher(FxBuildHasher)
}

/// `DashMap::get` returns the value of a key, if the table has the key.
#[verifier::external_body]
pub(crate) fn number_of(table: &DashMap<String, u64, FxBuildHasher>, name: &str) -> (r: Option<u64>)
    ensures
        match r {
            Some(n) => numbers_in(*table).contains_key(name@) && numbers_in(*table)[name@] == n,
            None => !numbers_in(*table).contains_key(name@),
        },
{
    table.get(name).map(|found| *found)
}

/// `DashMap::insert` sets the value of a key and leaves the other keys alone. The
/// table is borrowed for the call alone, so that nothing else changes it meanwhile.
#[verifier::external_body]
pub(crate) fn put_number(table: &mut DashMap<String, u64, FxBuildHasher>, name: String, number: u64)
    ensures
        numbers_in(*final(table)) == numbers_in(*old(table)).insert(name@, number),
{
    table.insert(name, number);
}

/// The table without entries.
pub open spec fn no_links() -> Map<(u64, u64), usize> {
    Map::empty()
}

/// What a table of inodes holds.
pub uninterp spec fn links_in(table: FxHashMap<(u64, u64), usize>) -> Map<(u64, u64), usize>;

/// `FxHashMap::default` makes a table without entries.
#[verifier::external_body]
fn new_links() -> (r: FxHashMap<(u64, u64), usize>)
    ensures
        links_in(r) == no_links(),
{
    FxHashMap::default()
}

/// `HashMap::get` returns the value of a key, if the table has the key.
#[verifier::external_body]
fn link_position(table: &FxHashMap<(u64, u64), usize>, key: (u64, u64)) -> (r: Option<usize>)
    ensures
        match r {
            Some(i) => links_in(*table).contains_key(key) && links_in(*table)[key] == i,
            None => !links_in(*table).contains_key(key),
        },
{
    table.get(&key).copied()
}

/// `HashMap::insert` sets the value of a key and leaves the other keys alone.
#[verifier::external_body]
fn put_link(table: &mut FxHashMap<(u64, u64), usize>, key: (u64, u64), position: usize)
    ensures
        links_in(*final(table)) == links_in(*old(table)).insert(key, position),
{
    table.insert(key, position);
}

/// The first destination path of each inode that was copied.
pub struct Anchors {
    paths: Vec<String>,
    positions: FxHashMap<(u64, u64), usize>,
}

impl View for Anchors {
    type V = Map<(u64, u64), Seq<char>>;

    closed spec fn view(&self) -> Map<(u64, u64), Seq<char>> {
        Map::new(
            |k: (u64, u64)| links_in(self.positions).contains_key(k),
            |k: (u64, u64)| self.paths@[links_in(self.positions)[k] as int]@,
        )
    }
}

impl Anchors {
    /// Every position in the table is one of the list.
    pub closed spec fn wf(&self) -> bool {
        forall|k: (u64, u64)| #[trigger]
            links_in(self.positions).contains_key(k) ==> links_in(self.positions)[k]
                < self.paths@.len()
    }

    /// No inode.
    pub fn new() -> (r: Anchors)
        ensures
            r.wf(),
            r@ == Map::<(u64, u64), Seq<char>>::empty(),
    {
        let r = Anchors { paths: Vec::new(), positions: new_links() };
        assert(r@ == Map::<(u64, u64), Seq<char>>::empty());
        r
    }

    /// The path that stands for an inode.
    pub fn get(&self, key: (u64, u64)) -> (r: Option<&str>)
        requires
            self.wf(),
        ensures
            match r {
                Some(p) => self@.contains_key(key) && self@[key] == p@,
                None => !self@.contains_key(key),
            },
    {
        match link_position(&self.positions, key) {
            Some(i) => Some(self.paths[i].as_str()),
            None => None,
        }
    }

    /// Sets the path that stands for an inode, unless it has one.
    pub fn publish(&mut self, key: (u64, u64), path: String)
        requires
            old(self).wf(),
        ensures
            final(self).wf(),
            final(self)@ == (if old(self)@.contains_key(key) {
                old(self)@
            } else {
                old(self)@.insert(key, path@)
            }),
    {
        if link_position(&self.positions, key).is_some() {
            return;
        }
        let position: usize = self.paths.len();
        let ghost before = *self;
        self.paths.push(path);
        put_link(&mut self.positions, key, position);
        assert forall|k: (u64, u64)| self@.contains_key(k) && before@.contains_key(k) implies self@[k]
            == #[trigger] before@[k] by {
            assert(links_in(before.positions).contains_key(k));
        }
        assert(self@ == before@.insert(key, path@));
    }
}

/// A set of names that remembers the order in which they came.
pub struct NameSet {
    names: Vec<String>,
    positions: FxHashMap<String, usize>,
}

impl View for NameSet {
    type V = Set<Seq<char>>;

    closed spec fn view(&self) -> Set<Seq<char>> {
        names_in(self.positions).dom()
    }
}

impl NameSet {
    /// The names in the order in which they came.
    pub closed spec fn listed(&self) -> Seq<Seq<char>> {
        text::texts(self.names@)
    }

    /// The table and the list agree.
    pub closed spec fn wf(&self) -> bool {
        &&& forall|i: int|
            0 <= i < self.names@.len() ==> names_in(self.positions).contains_key(
                #[trigger] self.names@[i]@,
            ) && names_in(self.positions)[self.names@[i]@] == i
        &&& forall|k: Seq<char>| #[trigger]
            names_in(self.positions).contains_key(k) ==> names_in(self.positions)[k]
                < self.names@.len() && self.names@[names_in(self.positions)[k] as int]@ == k
    }

    /// What the list has to do with the set.
    pub proof fn lemma_listed(&self)
        requires
            self.wf(),
        ensures
            self.listed().no_duplicates(),
            self.listed().to_set() == self@,
            self@.finite(),
            self@.len() == self.listed().len(),
            forall|i: int| 0 <= i < self.listed().len() ==> self@.contains(#[trigger] self.listed()[i]),
    {
        let l = self.listed();
        assert forall|i: int, j: int| 0 <= i < l.len() && 0 <= j < l.len() && i != j implies l[i]
            != l[j] by {
            assert(l[i] == self.names@[i]@ && l[j] == self.names@[j]@);
        }
        assert forall|i: int| 0 <= i < l.len() implies self@.contains(#[trigger] l[i]) by {
            assert(l[i] == self.names@[i]@);
        }
        assert forall|k: Seq<char>| l.to_set().contains(k) == self@.contains(k) by {
            if self@.contains(k) {
                let i = names_in(self.positions)[k] as int;
                assert(l[i] == k);
            }
        }
        assert(l.to_set() == self@);
        vstd::seq_lib::seq_to_set_is_finite(l);
        l.unique_seq_to_set();
    }

    /// The empty set.
    pub fn new() -> (r: NameSet)
        ensures
            r.wf(),
            r@ == Set::<Seq<char>>::empty(),
            r.listed() == Seq::<Seq<char>>::empty(),
    {
        let r = NameSet { names: Vec::new(), positions: new_names() };
        assert(r@ == Set::<Seq<char>>::empty());
        r
    }

    /// Tests for a name.
    pub fn contains(&self, name: &str) -> (r: bool)
        ensures
            r == self@.contains(name@),
    {
        name_position(&self.positions, name).is_some()
    }

    /// Adds a name; tells whether it is new.
    pub fn insert(&mut self, name: String) -> (r: bool)
        requires
            old(self).wf(),
        ensures
            final(self).wf(),
            final(self)@ == old(self)@.insert(name@),
            r == !old(self)@.contains(name@),
            final(self).listed() == (if old(self)@.contains(name@) {
                old(self).listed()
            } else {
                old(self).listed().push(name@)
            }),
    {
        if name_position(&self.positions, name.as_str()).is_some() {
            assert(self@ == old(self)@.insert(name@));
            return false;
        }
        let position: usize = self.names.len();
        put_name(&mut self.positions, name.clone(), position);
        self.names.push(name);
        assert(self@ == old(self)@.insert(name@));
        assert(self.listed() == old(self).listed().push(name@));
        true
    }

    /// The number of names.
    pub fn len(&self) -> (r: usize)
        requires
            self.wf(),
        ensures
            r == self@.len(),
            r == self.listed().len(),
            self@.finite(),
    {
        proof {
            self.lemma_listed();
        }
        self.names.len()
    }

    /// The name that came at position `i`.
    pub fn name(&self, i: usize) -> (r: &str)
        requires
            i < self.listed().len(),
        ensures
            r@ == self.listed()[i as int],
    {
        self.names[i].as_str()
    }

    /// The names in the order in which they came.
    pub fn into_names(self) -> (r: Vec<String>)
        ensures
            text::texts(r@) == self.listed(),
    {
        self.names
    }
}

} // verus!
