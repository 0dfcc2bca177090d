//! The changes of a transfer as a tree of paths.

use crate::changes;
use crate::domain::{ChangeItem, ChangeKind};
use crate::paths;
use crate::preview;
use crate::preview::EntryState;
use crate::table;
use crate::text;
use rustc_hash::FxHashMap;
use vstd::prelude::*;

verus! {

/// What is known of a path that changes, or has changes below it.
#[derive(Clone, Copy, Debug, PartialEq, Eq, Structural)]
pub struct NodeFacts {
    pub state: Option<EntryState>,
    pub is_dir: bool,
    /// A change adds this directory itself.
    pub explicit_added_dir: bool,
}

/// A path of which nothing is known yet.
pub open spec fn fresh_node() -> NodeFacts {
    NodeFacts { state: None, is_dir: true, explicit_added_dir: false }
}

/// The names of a changed path, and whether it is written as a directory.
/// Nothing, where no name is left.
pub open spec fn item_path(rel: Seq<char>) -> Option<(Seq<Seq<char>>, bool)> {
    let p = paths::skip_repeated(text::trimmed(rel), "./"@);
    let bare = text::trim_end_char(p, '/');
    if bare.len() == 0 {
        None
    } else {
        Some((text::split_on(bare, '/'), p.last() == '/'))
    }
}

/// The key of the first `n` names of a path: each with a slash before it.
pub open spec fn key_of(parts: Seq<Seq<char>>, n: int) -> Seq<char>
    decreases n,
{
    if n <= 0 {
        Seq::empty()
    } else {
        key_of(parts, n - 1).push('/') + parts[n - 1]
    }
}

/// What is known of a changed path with one change more.
pub open spec fn changed_leaf(node: NodeFacts, is_dir: bool, kind: ChangeKind) -> NodeFacts {
    NodeFacts {
        is_dir,
        explicit_added_dir: node.explicit_added_dir || kind == ChangeKind::NewDir,
        state: match preview::state_of(kind) {
            EntryState::Added => if node.state is None {
                Some(EntryState::Added)
            } else {
                node.state
            },
            EntryState::Removed => Some(EntryState::Removed),
            _ => if node.state == Some(EntryState::Added) {
                node.state
            } else {
                Some(EntryState::Modified)
            },
        },
    }
}

/// What is known of a path with a change below it.
pub open spec fn changed_below(node: NodeFacts) -> NodeFacts {
    NodeFacts {
        is_dir: true,
        state: if node.state == Some(EntryState::Added) {
            node.state
        } else {
            Some(EntryState::Modified)
        },
        ..node
    }
}

/// The facts of a key.
pub open spec fn facts_at(m: Map<Seq<char>, NodeFacts>, key: Seq<char>) -> NodeFacts {
    if m.contains_key(key) {
        m[key]
    } else {
        fresh_node()
    }
}

/// The tree with the first `n` names of a changed path touched.
pub open spec fn with_path(
    m: Map<Seq<char>, NodeFacts>,
    parts: Seq<Seq<char>>,
    is_dir: bool,
    kind: ChangeKind,
    n: int,
) -> Map<Seq<char>, NodeFacts>
    decreases n,
{
    if n <= 0 {
        m
    } else {
        let before = with_path(m, parts, is_dir, kind, n - 1);
        let key = key_of(parts, n);
        let node = facts_at(before, key);
        before.insert(
            key,
            if n == parts.len() {
                changed_leaf(node, is_dir, kind)
            } else {
                changed_below(node)
            },
        )
    }
}

/// The tree with one change more.
pub open spec fn with_item(m: Map<Seq<char>, NodeFacts>, item: ChangeItem) -> Map<
    Seq<char>,
    NodeFacts,
> {
    match item_path(item.rel@) {
        Some(p) => with_path(m, p.0, p.1, item.kind, p.0.len() as int),
        None => m,
    }
}

/// The tree of a list of changes.
pub open spec fn tree_of(items: Seq<ChangeItem>) -> Map<Seq<char>, NodeFacts>
    decreases items.len(),
{
    if items.len() == 0 {
        Map::empty()
    } else {
        with_item(tree_of(items.drop_last()), items.last())
    }
}

/// The keys with one more, unless it is there.
pub open spec fn with_key(keys: Seq<Seq<char>>, key: Seq<char>) -> Seq<Seq<char>> {
    if keys.contains(key) {
        keys
    } else {
        keys.push(key)
    }
}

/// The keys with those of the first `n` names of a path.
pub open spec fn with_path_keys(
    keys: Seq<Seq<char>>,
    parts: Seq<Seq<char>>,
    n: int,
) -> Seq<Seq<char>>
    decreases n,
{
    if n <= 0 {
        keys
    } else {
        with_key(with_path_keys(keys, parts, n - 1), key_of(parts, n))
    }
}

/// The keys with those of one change more.
pub open spec fn with_item_keys(keys: Seq<Seq<char>>, item: ChangeItem) -> Seq<Seq<char>> {
    match item_path(item.rel@) {
        Some(p) => with_path_keys(keys, p.0, p.0.len() as int),
        None => keys,
    }
}

/// The keys of a list of changes in the order in which they come.
pub open spec fn tree_keys(items: Seq<ChangeItem>) -> Seq<Seq<char>>
    decreases items.len(),
{
    if items.len() == 0 {
        Seq::empty()
    } else {
        with_item_keys(tree_keys(items.drop_last()), items.last())
    }
}

/// Whether a key is one of a name right below another.
pub open spec fn is_child(child: Seq<char>, parent: Seq<char>) -> bool {
    paths::rel_parent(child) == Some(parent)
}

/// Whether everything right below a key is added.
pub open spec fn all_children_added(m: Map<Seq<char>, NodeFacts>, key: Seq<char>) -> bool {
    forall|c: Seq<char>| #[trigger]
        m.contains_key(c) && is_child(c, key) ==> m[c].state == Some(EntryState::Added)
}

/// Whether `done` is `m` with its new directories settled: one that is added
/// itself counts as added if all that is in it does, and as modified if not.
pub open spec fn is_settled(m: Map<Seq<char>, NodeFacts>, done: Map<Seq<char>, NodeFacts>) -> bool {
    &&& done.dom() == m.dom()
    &&& forall|k: Seq<char>| #[trigger]
        done.contains_key(k) ==> done[k] == (NodeFacts {
            state: if !m[k].explicit_added_dir {
                m[k].state
            } else if all_children_added(done, k) {
                Some(EntryState::Added)
            } else {
                Some(EntryState::Modified)
            },
            ..m[k]
        })
}

proof fn lemma_child_is_longer(child: Seq<char>, parent: Seq<char>)
    requires
        is_child(child, parent),
    ensures
        child.len() > parent.len(),
{
    lemma_rfind_bound(child);
}

proof fn lemma_rfind_bound(s: Seq<char>)
    ensures
        -1 <= text::rfind_char(s, '/') < s.len(),
    decreases s.len(),
{
    if s.len() > 0 {
        lemma_rfind_bound(s.drop_last());
    }
}

/// A tree can be settled in one way only.
pub proof fn law_settling_is_determined(
    m: Map<Seq<char>, NodeFacts>,
    a: Map<Seq<char>, NodeFacts>,
    b: Map<Seq<char>, NodeFacts>,
    bound: nat,
)
    requires
        is_settled(m, a),
        is_settled(m, b),
        forall|k: Seq<char>| #[trigger] m.contains_key(k) ==> k.len() <= bound,
    ensures
        a == b,
{
    assert forall|k: Seq<char>| #[trigger] a.contains_key(k) implies a[k] == b[k] by {
        assert(m.dom().contains(k));
        assert(m.contains_key(k));
        lemma_settled_at(m, a, b, bound, k);
    }
    assert(a.dom() == b.dom());
    assert(a == b);
}

proof fn lemma_settled_at(
    m: Map<Seq<char>, NodeFacts>,
    a: Map<Seq<char>, NodeFacts>,
    b: Map<Seq<char>, NodeFacts>,
    bound: nat,
    k: Seq<char>,
)
    requires
        is_settled(m, a),
        is_settled(m, b),
        forall|k: Seq<char>| #[trigger] m.contains_key(k) ==> k.len() <= bound,
        m.contains_key(k),
    ensures
        a[k] == b[k],
    decreases bound - k.len(),
{
    assert(a.dom().contains(k) && b.dom().contains(k));
    assert(a.contains_key(k) && b.contains_key(k));
    assert forall|c: Seq<char>| #[trigger] a.contains_key(c) && is_child(c, k) implies a[c] == b[c]
        && b.contains_key(c) by {
        assert(m.dom().contains(c));
        assert(m.contains_key(c));
        lemma_child_is_longer(c, k);
        lemma_settled_at(m, a, b, bound, c);
        assert(b.dom().contains(c));
    }
    if all_children_added(a, k) {
        assert forall|c: Seq<char>| #[trigger]
            b.contains_key(c) && is_child(c, k) implies b[c].state == Some(EntryState::Added) by {
            assert(a.dom().contains(c));
            assert(a.contains_key(c));
        }
    }
    if all_children_added(b, k) {
        assert forall|c: Seq<char>| #[trigger]
            a.contains_key(c) && is_child(c, k) implies a[c].state == Some(EntryState::Added) by {
            assert(b.contains_key(c));
        }
    }
}

/// The changes of a transfer as a tree of paths.
pub struct ChangeTree {
    keys: Vec<String>,
    parents: Vec<Option<usize>>,
    facts: Vec<NodeFacts>,
    positions: FxHashMap<String, usize>,
}

impl View for ChangeTree {
    type V = Map<Seq<char>, NodeFacts>;

    closed spec fn view(&self) -> Map<Seq<char>, NodeFacts> {
        Map::new(
            |k: Seq<char>| table::names_in(self.positions).contains_key(k),
            |k: Seq<char>| self.facts@[table::names_in(self.positions)[k] as int],
        )
    }
}

impl ChangeTree {
    /// The keys in the order in which they came.
    pub closed spec fn listed(&self) -> Seq<Seq<char>> {
        text::texts(self.keys@)
    }

    pub closed spec fn wf(&self) -> bool {
        let names = table::names_in(self.positions);
        &&& self.parents@.len() == self.keys@.len()
        &&& self.facts@.len() == self.keys@.len()
        &&& forall|i: int|
            0 <= i < self.keys@.len() ==> names.contains_key(#[trigger] self.keys@[i]@)
                && names[self.keys@[i]@] == i
        &&& forall|k: Seq<char>| #[trigger]
            names.contains_key(k) ==> names[k] < self.keys@.len() && self.keys@[names[k] as int]@
                == k
        &&& forall|i: int|
            0 <= i < self.keys@.len() ==> match #[trigger] self.parents@[i] {
                Some(p) => p < i && is_child(self.keys@[i]@, self.keys@[p as int]@),
                None => is_child(self.keys@[i]@, Seq::empty()),
            }
    }

    /// The keys listed are those of the tree, each once.
    pub proof fn lemma_listed(&self)
        requires
            self.wf(),
        ensures
            self.listed().no_duplicates(),
            forall|k: Seq<char>| self.listed().contains(k) == #[trigger] self@.contains_key(k),
    {
        let l = self.listed();
        assert forall|i: int, j: int| 0 <= i < l.len() && 0 <= j < l.len() && i != j implies l[i]
            != l[j] by {
            assert(l[i] == self.keys@[i]@ && l[j] == self.keys@[j]@);
        }
        assert forall|k: Seq<char>| l.contains(k) == #[trigger] self@.contains_key(k) by {
            if self@.contains_key(k) {
                let i = table::names_in(self.positions)[k] as int;
                assert(l[i] == k);
            }
            if l.contains(k) {
                let i = choose|i: int| 0 <= i < l.len() && l[i] == k;
                assert(self.keys@[i]@ == k);
            }
        }
    }

    fn new() -> (r: ChangeTree)
        ensures
            r.wf(),
            r@ == Map::<Seq<char>, NodeFacts>::empty(),
            r.listed() == Seq::<Seq<char>>::empty(),
    {
        let r = ChangeTree {
            keys: Vec::new(),
            parents: Vec::new(),
            facts: Vec::new(),
            positions: table::new_names(),
        };
        assert(r@ == Map::<Seq<char>, NodeFacts>::empty());
        r
    }

    /// The facts of a key, if the tree has it.
    pub fn get(&self, key: &str) -> (r: Option<NodeFacts>)
        requires
            self.wf(),
        ensures
            r == (if self@.contains_key(key@) {
                Some(self@[key@])
            } else {
                None
            }),
    {
        match table::name_position(&self.positions, key) {
            Some(i) => Some(self.facts[i]),
            None => None,
        }
    }

    /// The number of keys.
    pub fn len(&self) -> (r: usize)
        ensures
            r == self.listed().len(),
    {
        self.keys.len()
    }

    /// Key `i`.
    pub fn key(&self, i: usize) -> (r: &str)
        requires
            i < self.listed().len(),
        ensures
            r@ == self.listed()[i as int],
    {
        self.keys[i].as_str()
    }

    /// Sets the facts of a key; a new one goes below `parent`.
    fn put(&mut self, key: String, parent: Option<usize>, facts: NodeFacts) -> (r: usize)
        requires
            old(self).wf(),
            match parent {
                Some(p) => p < old(self).listed().len() && is_child(
                    key@,
                    old(self).listed()[p as int],
                ),
                None => is_child(key@, Seq::empty()),
            },
        ensures
            final(self).wf(),
            final(self)@ == old(self)@.insert(key@, facts),
            r < final(self).listed().len(),
            final(self).listed()[r as int] == key@,
            final(self).listed() == with_key(old(self).listed(), key@),
    {
        match table::name_position(&self.positions, key.as_str()) {
            Some(i) => {
                self.facts.set(i, facts);
                assert(self.listed() == old(self).listed());
                assert(old(self).listed()[i as int] == key@);
                assert(self@ == old(self)@.insert(key@, facts)) by {
                    assert forall|k: Seq<char>| self@.contains_key(k) && k != key@ implies self@[k]
                        == #[trigger] old(self)@[k] by {
                        assert(table::names_in(self.positions).contains_key(k));
                    }
                }
                i
            },
            None => {
                let i: usize = self.keys.len();
                table::put_name(&mut self.positions, key.clone(), i);
                self.keys.push(key);
                self.parents.push(parent);
                self.facts.push(facts);
                assert(self.listed()[i as int] == key@);
                assert(self.listed() == old(self).listed().push(key@));
                proof {
                    old(self).lemma_listed();
                    assert(old(self).listed().contains(key@) == old(self)@.contains_key(key@));
                }
                assert(self@ == old(self)@.insert(key@, facts)) by {
                    assert forall|k: Seq<char>| self@.contains_key(k) && k != key@ implies self@[k]
                        == #[trigger] old(self)@[k] by {
                        assert(table::names_in(old(self).positions).contains_key(k));
                    }
                }
                assert forall|j: int| 0 <= j < self.keys@.len() implies match #[trigger] self.parents@[j] {
                    Some(p) => p < j && is_child(self.keys@[j]@, self.keys@[p as int]@),
                    None => is_child(self.keys@[j]@, Seq::empty()),
                } by {
                    if j < i {
                        assert(old(self).parents@[j] == self.parents@[j]);
                        match self.parents@[j] {
                            Some(p) => {
                                assert(self.keys@[p as int] == old(self).keys@[p as int]);
                            },
                            None => {},
                        }
                    } else {
                        match parent {
                            Some(p) => {
                                assert(old(self).listed()[p as int] == self.keys@[p as int]@);
                            },
                            None => {},
                        }
                    }
                }
                i
            },
        }
    }
}

proof fn lemma_parent_of_key(parent: Seq<char>, name: Seq<char>)
    requires
        !name.contains('/'),
    ensures
        is_child(parent.push('/') + name, parent),
    decreases name.len(),
{
    let key = parent.push('/') + name;
    if name.len() == 0 {
        assert(key == parent.push('/'));
        assert(key.last() == '/');
        assert(key.take(parent.len() as int) == parent);
    } else {
        assert(name.last() == name[name.len() - 1]);
        assert(key.last() == name.last());
        assert(key.drop_last() == parent.push('/') + name.drop_last());
        assert(!name.drop_last().contains('/')) by {
            if name.drop_last().contains('/') {
                let i = choose|i: int| 0 <= i < name.drop_last().len() && name.drop_last()[i] == '/';
                assert(name[i] == '/');
            }
        }
        lemma_parent_of_key(parent, name.drop_last());
        lemma_rfind_bound(key.drop_last());
        assert(key.take(parent.len() as int) == key.drop_last().take(parent.len() as int));
    }
}

fn add_item(tree: &mut ChangeTree, item: &ChangeItem)
    requires
        old(tree).wf(),
    ensures
        final(tree).wf(),
        final(tree)@ == with_item(old(tree)@, *item),
        final(tree).listed() == with_item_keys(old(tree).listed(), *item),
{
    let ghost start = tree@;
    let ghost first = tree.listed();
    let trimmed = text::trim(text::to_chars(item.rel.as_str()).as_slice());
    let p = paths::strip_repeated(trimmed.as_slice(), text::to_chars("./").as_slice());
    let bare = text::trim_end(p.as_slice(), '/');
    if bare.len() == 0 {
        return;
    }
    proof {
        lemma_trim_end_len(p@);
    }
    let is_dir = p[p.len() - 1] == '/';
    let parts = text::split(bare.as_slice(), '/');
    let ghost names = text::rows(parts@);
    assert(item_path(item.rel@) == Some((names, is_dir)));
    proof {
        changes::lemma_pieces_have_no_separator(bare@, '/');
        text::lemma_split_on_nonempty(bare@, '/');
    }
    let kind = item.kind;
    let mut key: Vec<char> = Vec::new();
    let mut parent: Option<usize> = None;
    let mut i: usize = 0;
    while i < parts.len()
        invariant
            i <= parts@.len(),
            names == text::rows(parts@),
            names == text::split_on(bare@, '/'),
            forall|k: int| 0 <= k < names.len() ==> !(#[trigger] names[k]).contains('/'),
            tree.wf(),
            tree@ == with_path(start, names, is_dir, kind, i as int),
            tree.listed() == with_path_keys(first, names, i as int),
            key@ == key_of(names, i as int),
            match parent {
                Some(p) => p < tree.listed().len() && tree.listed()[p as int] == key@,
                None => key@ == Seq::<char>::empty(),
            },
        decreases parts@.len() - i,
    {
        proof {
            assert(names[i as int] == parts@[i as int]@);
            lemma_parent_of_key(key@, names[i as int]);
        }
        key.push('/');
        text::extend(&mut key, parts[i].as_slice());
        assert(key@ == key_of(names, i + 1));
        let name = text::from_chars(key.as_slice());
        let mut node = match tree.get(name.as_str()) {
            Some(f) => f,
            None => NodeFacts { state: None, is_dir: true, explicit_added_dir: false },
        };
        let ghost was = node;
        let added = match node.state {
            Some(EntryState::Added) => true,
            _ => false,
        };
        if i == parts.len() - 1 {
            node.is_dir = is_dir;
            match kind {
                ChangeKind::NewDir => {
                    node.explicit_added_dir = true;
                    if node.state.is_none() {
                        node.state = Some(EntryState::Added);
                    }
                },
                ChangeKind::NewFile => {
                    if node.state.is_none() {
                        node.state = Some(EntryState::Added);
                    }
                },
                ChangeKind::RemovedFile => {
                    node.state = Some(EntryState::Removed);
                },
                ChangeKind::RemovedDir => {
                    node.state = Some(EntryState::Removed);
                },
                ChangeKind::ModFile => {
                    if !added {
                        node.state = Some(EntryState::Modified);
                    }
                },
            }
            assert(node == changed_leaf(was, is_dir, kind));
        } else {
            node.is_dir = true;
            if !added {
                node.state = Some(EntryState::Modified);
            }
            assert(node == changed_below(was));
        }
        let at: usize = tree.put(name, parent, node);
        parent = Some(at);
        i = i + 1;
    }
}

pub proof fn lemma_trim_end_len(s: Seq<char>)
    ensures
        text::trim_end_char(s, '/').len() <= s.len(),
    decreases s.len(),
{
    if s.len() > 0 && s.last() == '/' {
        lemma_trim_end_len(s.drop_last());
    }
}

/// What of the nodes from `i` on is settled, and of whom it is known that
/// something right below it, from `i` on, is not added.
spec fn settled_from(
    facts0: Seq<NodeFacts>,
    facts: Seq<NodeFacts>,
    parents: Seq<Option<usize>>,
    full: Seq<bool>,
    i: int,
) -> bool {
    &&& facts.len() == facts0.len()
    &&& parents.len() == facts0.len()
    &&& full.len() == facts0.len()
    &&& forall|k: int| 0 <= k < i ==> #[trigger] facts[k] == facts0[k]
    &&& forall|k: int|
        i <= k < facts.len() ==> #[trigger] facts[k] == (NodeFacts {
            state: if !facts0[k].explicit_added_dir {
                facts0[k].state
            } else if full[k] {
                Some(EntryState::Added)
            } else {
                Some(EntryState::Modified)
            },
            ..facts0[k]
        })
    &&& forall|k: int|
        0 <= k < full.len() ==> #[trigger] full[k] == (forall|c: int|
            i <= c < facts.len() && #[trigger] parents[c] == Some(k as usize) ==> facts[c].state
                == Some(EntryState::Added))
}

fn settle(tree: &mut ChangeTree)
    requires
        old(tree).wf(),
    ensures
        final(tree).wf(),
        is_settled(old(tree)@, final(tree)@),
        final(tree).listed() == old(tree).listed(),
{
    let ghost before = *tree;
    let ghost facts0 = tree.facts@;
    let n: usize = tree.keys.len();
    let mut full: Vec<bool> = Vec::new();
    let mut j: usize = 0;
    while j < n
        invariant
            j <= n,
            full@ == Seq::new(j as nat, |k: int| true),
        decreases n - j,
    {
        full.push(true);
        assert(full@ == Seq::new((j + 1) as nat, |k: int| true));
        j = j + 1;
    }
    let mut i: usize = n;
    assert(settled_from(facts0, tree.facts@, tree.parents@, full@, i as int));
    while i > 0
        invariant
            i <= n,
            n == before.keys@.len(),
            before.wf(),
            facts0 == before.facts@,
            *tree == (ChangeTree { facts: tree.facts, ..before }),
            settled_from(facts0, tree.facts@, tree.parents@, full@, i as int),
        decreases i,
    {
        let k: usize = i - 1;
        let ghost facts1 = tree.facts@;
        let ghost full1 = full@;
        let mut f = tree.facts[k];
        if f.explicit_added_dir {
            f.state = if full[k] {
                Some(EntryState::Added)
            } else {
                Some(EntryState::Modified)
            };
            tree.facts.set(k, f);
        }
        let added = match f.state {
            Some(EntryState::Added) => true,
            _ => false,
        };
        assert(match before.parents@[k as int] {
            Some(p) => p < k,
            None => true,
        });
        if let Some(p) = tree.parents[k] {
            if !added {
                full.set(p, false);
            }
        }
        proof {
            let facts2 = tree.facts@;
            let full2 = full@;
            let parents = tree.parents@;
            assert(facts2[k as int] == f);
            assert forall|q: int| 0 <= q < full2.len() implies #[trigger] full2[q] == (forall|c: int|
                k <= c < facts2.len() && #[trigger] parents[c] == Some(q as usize)
                    ==> facts2[c].state == Some(EntryState::Added)) by {
                let was = forall|c: int|
                    i <= c < facts1.len() && #[trigger] parents[c] == Some(q as usize)
                        ==> facts1[c].state == Some(EntryState::Added);
                assert(full1[q] == was);
                assert(forall|c: int| i <= c < facts1.len() ==> facts2[c] == facts1[c]);
                if full2[q] {
                    assert forall|c: int|
                        k <= c < facts2.len() && #[trigger] parents[c] == Some(
                            q as usize,
                        ) implies facts2[c].state == Some(EntryState::Added) by {
                        if c > k {
                            assert(full1[q]);
                            assert(facts1[c].state == Some(EntryState::Added));
                        }
                    }
                } else if full1[q] {
                    assert(parents[k as int] == Some(q as usize));
                    assert(facts2[k as int].state != Some(EntryState::Added));
                } else {
                    let c = choose|c: int|
                        i <= c < facts1.len() && #[trigger] parents[c] == Some(q as usize)
                            && facts1[c].state != Some(EntryState::Added);
                    assert(facts2[c] == facts1[c]);
                }
            }
            assert forall|q: int| k <= q < facts2.len() implies #[trigger] facts2[q] == (NodeFacts {
                state: if !facts0[q].explicit_added_dir {
                    facts0[q].state
                } else if full2[q] {
                    Some(EntryState::Added)
                } else {
                    Some(EntryState::Modified)
                },
                ..facts0[q]
            }) by {
                assert(full2[q] == full1[q]);
                if q > k {
                    assert(facts2[q] == facts1[q]);
                } else {
                    assert(facts1[q] == facts0[q]);
                }
            }
        }
        i = k;
    }
    proof {
        lemma_settled_map(before, *tree, full@);
    }
}

proof fn lemma_settled_map(before: ChangeTree, after: ChangeTree, full: Seq<bool>)
    requires
        before.wf(),
        after == (ChangeTree { facts: after.facts, ..before }),
        settled_from(before.facts@, after.facts@, before.parents@, full, 0),
    ensures
        after.wf(),
        is_settled(before@, after@),
{
    let names = table::names_in(before.positions);
    let m = before@;
    let d = after@;
    assert(d.dom() == m.dom());
    assert forall|k: Seq<char>| #[trigger] d.contains_key(k) implies d[k] == (NodeFacts {
        state: if !m[k].explicit_added_dir {
            m[k].state
        } else if all_children_added(d, k) {
            Some(EntryState::Added)
        } else {
            Some(EntryState::Modified)
        },
        ..m[k]
    }) by {
        let i = names[k] as int;
        assert(names.contains_key(k));
        assert(after.facts@[i] == d[k]);
        assert(before.facts@[i] == m[k]);
        assert(full[i] == all_children_added(d, k)) by {
            assert(full[i] == (forall|c: int|
                0 <= c < after.facts@.len() && #[trigger] before.parents@[c] == Some(i as usize)
                    ==> after.facts@[c].state == Some(EntryState::Added)));
            if full[i] {
                assert forall|c: Seq<char>| #[trigger]
                    d.contains_key(c) && is_child(c, k) implies d[c].state == Some(
                    EntryState::Added,
                ) by {
                    let j = names[c] as int;
                    assert(names.contains_key(c));
                    lemma_parent_index(before, j, i);
                    assert(before.parents@[j] == Some(i as usize));
                }
            } else {
                let j = choose|j: int|
                    0 <= j < after.facts@.len() && #[trigger] before.parents@[j] == Some(i as usize)
                        && after.facts@[j].state != Some(EntryState::Added);
                let c = before.keys@[j]@;
                assert(names.contains_key(c));
                assert(d.contains_key(c));
                assert(is_child(c, before.keys@[i]@));
            }
        }
    }
}

proof fn lemma_parent_index(t: ChangeTree, j: int, i: int)
    requires
        t.wf(),
        0 <= j < t.keys@.len(),
        0 <= i < t.keys@.len(),
        is_child(t.keys@[j]@, t.keys@[i]@),
    ensures
        t.parents@[j] == Some(i as usize),
{
    let names = table::names_in(t.positions);
    assert(names[t.keys@[i]@] == i);
    match t.parents@[j] {
        Some(p) => {
            assert(t.keys@[p as int]@ == t.keys@[i]@);
            assert(names[t.keys@[p as int]@] == p);
        },
        None => {
            assert(t.keys@[i]@ == Seq::<char>::empty());
            lemma_key_not_empty(t, i);
        },
    }
}

proof fn lemma_key_not_empty(t: ChangeTree, i: int)
    requires
        t.wf(),
        0 <= i < t.keys@.len(),
    ensures
        t.keys@[i]@.len() > 0,
{
    match t.parents@[i] {
        Some(p) => {
            lemma_child_is_longer(t.keys@[i]@, t.keys@[p as int]@);
        },
        None => {
            lemma_child_is_longer(t.keys@[i]@, Seq::empty());
        },
    }
}

/// Builds the tree of a list of changes, with its new directories settled.
pub fn build_change_tree(items: &Vec<ChangeItem>) -> (r: ChangeTree)
    ensures
        r.wf(),
        is_settled(tree_of(items@), r@),
        r.listed() == tree_keys(items@),
{
    let mut tree = ChangeTree::new();
    let mut i: usize = 0;
    assert(items@.take(0) == Seq::<ChangeItem>::empty());
    while i < items.len()
        invariant
            i <= items@.len(),
            tree.wf(),
            tree@ == tree_of(items@.take(i as int)),
            tree.listed() == tree_keys(items@.take(i as int)),
        decreases items@.len() - i,
    {
        assert(items@.take(i + 1).drop_last() == items@.take(i as int));
        add_item(&mut tree, &items[i]);
        i = i + 1;
    }
    assert(items@.take(items@.len() as int) == items@);
    settle(&mut tree);
    tree
}

/// A removal removes whatever was known of a path; what is added stays added under
/// changes that modify it; and what was modified or removed is not made new.
pub proof fn law_changes_add_up(node: NodeFacts, is_dir: bool, kind: ChangeKind)
    ensures
        ({
            let r = changed_leaf(node, is_dir, kind);
            &&& r.is_dir == is_dir
            &&& r.state is Some
            &&& r.state == Some(EntryState::Removed) <==> preview::state_of(kind)
                == EntryState::Removed || (preview::state_of(kind) == EntryState::Added
                && node.state == Some(EntryState::Removed))
            &&& node.state == Some(EntryState::Added) && preview::state_of(kind)
                != EntryState::Removed ==> r.state == Some(EntryState::Added)
            &&& node.state is None && preview::state_of(kind) == EntryState::Added ==> r.state
                == Some(EntryState::Added)
            &&& node.state is None && preview::state_of(kind) == EntryState::Modified ==> r.state
                == Some(EntryState::Modified)
            &&& node.state == Some(EntryState::Modified) && preview::state_of(kind)
                != EntryState::Removed ==> r.state == Some(EntryState::Modified)
            &&& r.explicit_added_dir <==> node.explicit_added_dir || kind == ChangeKind::NewDir
        }),
{
}

/// What has a change below it is a directory, and is modified unless it is added.
pub proof fn law_changes_below_modify(node: NodeFacts)
    ensures
        changed_below(node).is_dir,
        changed_below(node).state == Some(EntryState::Added) <==> node.state == Some(
            EntryState::Added,
        ),
        changed_below(node).state != Some(EntryState::Added) ==> changed_below(node).state == Some(
            EntryState::Modified,
        ),
        changed_below(node).explicit_added_dir == node.explicit_added_dir,
{
}

proof fn lemma_path_stands(
    m: Map<Seq<char>, NodeFacts>,
    parts: Seq<Seq<char>>,
    is_dir: bool,
    kind: ChangeKind,
    n: int,
    k: int,
)
    requires
        1 <= k <= n <= parts.len(),
    ensures
        with_path(m, parts, is_dir, kind, n).contains_key(key_of(parts, k)),
    decreases n,
{
    if k < n {
        lemma_path_stands(m, parts, is_dir, kind, n - 1, k);
    }
}

proof fn lemma_path_keeps(
    m: Map<Seq<char>, NodeFacts>,
    parts: Seq<Seq<char>>,
    is_dir: bool,
    kind: ChangeKind,
    n: int,
    key: Seq<char>,
)
    requires
        m.contains_key(key),
    ensures
        with_path(m, parts, is_dir, kind, n).contains_key(key),
    decreases n,
{
    if n > 0 {
        lemma_path_keeps(m, parts, is_dir, kind, n - 1, key);
    }
}

/// Every changed path stands in the tree, with every directory above it.
pub proof fn law_changed_paths_stand(items: Seq<ChangeItem>, i: int, k: int)
    requires
        0 <= i < items.len(),
        item_path(items[i].rel@) is Some,
        1 <= k <= (item_path(items[i].rel@)->0).0.len(),
    ensures
        tree_of(items).contains_key(key_of((item_path(items[i].rel@)->0).0, k)),
    decreases items.len(),
{
    let rest = items.drop_last();
    let last = items.last();
    if i < items.len() - 1 {
        assert(rest[i] == items[i]);
        law_changed_paths_stand(rest, i, k);
        let key = key_of((item_path(items[i].rel@)->0).0, k);
        match item_path(last.rel@) {
            Some(p) => lemma_path_keeps(
                tree_of(rest),
                p.0,
                p.1,
                last.kind,
                p.0.len() as int,
                key,
            ),
            None => {},
        }
    } else {
        let p = item_path(last.rel@)->0;
        lemma_path_stands(tree_of(rest), p.0, p.1, last.kind, p.0.len() as int, k);
    }
}

/// The last change says whether its path is a directory, and if it removes the path, that
/// is what is known of it.
pub proof fn law_the_last_change_is_taken_in(items: Seq<ChangeItem>)
    requires
        items.len() > 0,
        item_path(items.last().rel@) is Some,
    ensures
        ({
            let p = item_path(items.last().rel@)->0;
            let key = key_of(p.0, p.0.len() as int);
            tree_of(items).contains_key(key) && tree_of(items)[key].is_dir == p.1 && (
            preview::state_of(items.last().kind) == EntryState::Removed ==> tree_of(
                items,
            )[key].state == Some(EntryState::Removed))
        }),
{
    let p = item_path(items.last().rel@)->0;
    text::lemma_split_on_nonempty(
        text::trim_end_char(
            paths::skip_repeated(text::trimmed(items.last().rel@), "./"@),
            '/',
        ),
        '/',
    );
}

/// A slash at the end marks a directory and is no part of its names.
pub proof fn law_slashes_mark_directories(rel: Seq<char>)
    ensures
        item_path(rel) matches Some(p) ==> (p.1 <==> text::trimmed(rel).last() == '/'),
{
    reveal_strlit("./");
    let t = text::trimmed(rel);
    lemma_skipped_is_end(t, "./"@);
    let p = paths::skip_repeated(t, "./"@);
    if text::trim_end_char(p, '/').len() > 0 {
        lemma_trim_end_len(p);
        assert(p.len() > 0);
        assert(t.last() == p.last());
    }
}

proof fn lemma_skipped_is_end(s: Seq<char>, lead: Seq<char>)
    requires
        lead.len() > 0,
    ensures
        paths::skip_repeated(s, lead).len() <= s.len(),
        s.skip(s.len() - paths::skip_repeated(s, lead).len()) == paths::skip_repeated(s, lead),
    decreases s.len(),
{
    if text::begins(s, lead) {
        let rest = s.skip(lead.len() as int);
        lemma_skipped_is_end(rest, lead);
        let r = paths::skip_repeated(rest, lead);
        assert(s.skip(s.len() - r.len()) == rest.skip(rest.len() - r.len()));
    } else {
        assert(s.skip(0) == s);
    }
}

proof fn lemma_path_keys(keys: Seq<Seq<char>>, parts: Seq<Seq<char>>, n: int, k: Seq<char>)
    ensures
        with_path_keys(keys, parts, n).contains(k) <==> keys.contains(k) || exists|i: int|
            1 <= i <= n && k == #[trigger] key_of(parts, i),
        keys.no_duplicates() ==> with_path_keys(keys, parts, n).no_duplicates(),
    decreases n,
{
    if n > 0 {
        lemma_path_keys(keys, parts, n - 1, k);
        let rest = with_path_keys(keys, parts, n - 1);
        let key = key_of(parts, n);
        let all = with_path_keys(keys, parts, n);
        if !rest.contains(key) {
            if rest.contains(k) {
                let i = choose|i: int| 0 <= i < rest.len() && rest[i] == k;
                assert(all[i] == k);
            }
            assert(all[all.len() - 1] == key);
            if all.contains(k) && k != key {
                let i = choose|i: int| 0 <= i < all.len() && all[i] == k;
                assert(rest[i] == k);
            }
        }
    }
}

proof fn lemma_path_map(
    m: Map<Seq<char>, NodeFacts>,
    parts: Seq<Seq<char>>,
    is_dir: bool,
    kind: ChangeKind,
    n: int,
    k: Seq<char>,
)
    ensures
        with_path(m, parts, is_dir, kind, n).contains_key(k) <==> m.contains_key(k) || exists|i: int|
            1 <= i <= n && k == #[trigger] key_of(parts, i),
    decreases n,
{
    if n > 0 {
        lemma_path_map(m, parts, is_dir, kind, n - 1, k);
    }
}

/// The keys of a list of changes are those of its tree, each once.
pub proof fn law_keys_are_those_of_the_tree(items: Seq<ChangeItem>, k: Seq<char>)
    ensures
        tree_keys(items).contains(k) <==> tree_of(items).contains_key(k),
        tree_keys(items).no_duplicates(),
    decreases items.len(),
{
    if items.len() > 0 {
        let rest = items.drop_last();
        law_keys_are_those_of_the_tree(rest, k);
        match item_path(items.last().rel@) {
            Some(p) => {
                lemma_path_keys(tree_keys(rest), p.0, p.0.len() as int, k);
                lemma_path_map(
                    tree_of(rest),
                    p.0,
                    p.1,
                    items.last().kind,
                    p.0.len() as int,
                    k,
                );
            },
            None => {},
        }
    }
}

} // verus!
