//! Totals of directories, folded upwards.

use crate::changes;
use crate::order;
use crate::order::Ranked;
use crate::paths;
use crate::table;
use crate::text;
use crate::tree;
use rustc_hash::FxHashMap;
use vstd::prelude::*;

verus! {

/// A directory with its own totals.
pub struct FoldEntry {
    pub path: String,
    pub totals: [u64; 3],
}

impl Ranked for FoldEntry {
    open spec fn before(self, other: Self) -> bool {
        tree::parts_rank(paths::comps(self.path@), paths::comps(other.path@)) < 0
    }

    proof fn asymmetric(a: Self, b: Self) {
        tree::lemma_parts_rank(paths::comps(a.path@), paths::comps(b.path@));
    }

    proof fn not_before_transitive(a: Self, b: Self, c: Self) {
        let x = paths::comps(a.path@);
        let y = paths::comps(b.path@);
        let z = paths::comps(c.path@);
        tree::lemma_parts_rank(x, y);
        tree::lemma_parts_rank(y, z);
        tree::lemma_parts_rank(x, z);
        tree::lemma_parts_rank_transitive(x, y, z);
    }

    fn is_before(&self, other: &Self) -> (r: bool) {
        tree::rank_paths(self.path.as_str(), other.path.as_str()) < 0
    }
}

/// The components of the paths.
pub open spec fn parts_of(entries: Seq<FoldEntry>) -> Seq<Seq<Seq<char>>> {
    entries.map_values(|e: FoldEntry| paths::comps(e.path@))
}

/// The values of one total.
pub open spec fn owns_of(entries: Seq<FoldEntry>, m: int) -> Seq<u64> {
    entries.map_values(|e: FoldEntry| e.totals@[m])
}

/// Where a path stands for the last time.
pub open spec fn last_at(all: Seq<Seq<Seq<char>>>, parts: Seq<Seq<char>>) -> Option<int>
    decreases all.len(),
{
    if all.len() == 0 {
        None
    } else if all.last() == parts {
        Some(all.len() - 1)
    } else {
        last_at(all.drop_last(), parts)
    }
}

/// The fewest components that something above a path has: the root is above
/// every absolute path.
pub open spec fn floor_of(parts: Seq<Seq<char>>) -> int {
    if parts.len() > 0 && parts[0] == "/"@ {
        1
    } else {
        0
    }
}

/// The nearest listed path above one, among those with at most `d` components.
pub open spec fn nearest(all: Seq<Seq<Seq<char>>>, parts: Seq<Seq<char>>, d: int) -> Option<int>
    decreases d + 1,
{
    if d < floor_of(parts) || d < 0 {
        None
    } else {
        match last_at(all, parts.take(d)) {
            Some(q) => Some(q),
            None => nearest(all, parts, d - 1),
        }
    }
}

/// The nearest listed directory above each one.
pub open spec fn parents_of(all: Seq<Seq<Seq<char>>>) -> Seq<Option<int>> {
    Seq::new(all.len(), |i: int| nearest(all, all[i], all[i].len() - 1))
}

/// The total of a directory with all below it.
pub open spec fn exact(owns: Seq<u64>, parents: Seq<Option<int>>, i: int) -> nat
    decreases owns.len() - i, 1int, 0int,
{
    owns[i] as nat + below_from(owns, parents, i, i + 1)
}

/// The totals of those right below directory `k`, from `i` on.
pub open spec fn below_from(owns: Seq<u64>, parents: Seq<Option<int>>, k: int, i: int) -> nat
    decreases owns.len() - k, 0int, owns.len() - i,
{
    if i >= owns.len() || i <= k {
        0
    } else {
        below_from(owns, parents, k, i + 1) + (if parents[i] == Some(k) {
            exact(owns, parents, i)
        } else {
            0
        })
    }
}

/// A number, or the largest there is.
pub open spec fn capped(n: nat) -> u64 {
    if n > u64::MAX {
        u64::MAX
    } else {
        n as u64
    }
}

/// Adds, and tells whether the sum is too large. It is the largest number then.
pub fn add_checked(slot: u64, value: u64) -> (r: (u64, bool))
    ensures
        r.0 == capped((slot + value) as nat),
        r.1 == (slot + value > u64::MAX),
{
    match slot.checked_add(value) {
        Some(n) => (n, false),
        None => (u64::MAX, true),
    }
}

/// Whether some total is too large.
pub open spec fn overflows(owns: Seq<Seq<u64>>, parents: Seq<Option<int>>) -> bool {
    exists|k: int, m: int|
        0 <= k < parents.len() && 0 <= m < 3 && #[trigger] exact(owns[m], parents, k) > u64::MAX
}

/// Directories with their totals folded upwards.
pub struct Folded {
    pub entries: Vec<FoldEntry>,
    /// Some total is too large, and stands as the largest number there is.
    pub overflowed: bool,
}

/// The three totals of some directories.
pub open spec fn all_owns(entries: Seq<FoldEntry>) -> Seq<Seq<u64>> {
    seq![owns_of(entries, 0), owns_of(entries, 1), owns_of(entries, 2)]
}

/// Components as a path has them.
pub open spec fn is_parts(parts: Seq<Seq<char>>) -> bool {
    forall|i: int|
        0 <= i < parts.len() ==> (i == 0 && #[trigger] parts[i] == "/"@) || (!parts[i].contains('/')
            && parts[i].len() > 0)
}

/// The components of a path are components.
pub proof fn lemma_comps_are_parts(s: Seq<char>)
    ensures
        is_parts(paths::comps(s)),
{
    let pieces = text::split_on(s, '/');
    let named = |p: Seq<char>| paths::is_name(p);
    let names = pieces.filter(named);
    changes::lemma_pieces_have_no_separator(s, '/');
    let parts = paths::comps(s);
    reveal_strlit(".");
    reveal_strlit("/");
    let lead = parts.len() - names.len();
    assert forall|i: int| 0 <= i < parts.len() implies (i == 0 && #[trigger] parts[i] == "/"@) || (
    !parts[i].contains('/') && parts[i].len() > 0) by {
        if i >= lead {
            let name = names[i - lead];
            assert(parts[i] == name);
            assert(names.contains(name));
            pieces.lemma_filter_contains_rev(named, name);
            assert(pieces.contains(name));
            let k = choose|k: int| 0 <= k < pieces.len() && pieces[k] == name;
            assert(!pieces[k].contains('/'));
            assert(named(name));
        }
    }
}

proof fn lemma_joined_starts(parts: Seq<Seq<char>>)
    requires
        parts.len() > 0,
        forall|i: int| 0 <= i < parts.len() ==> !(#[trigger] parts[i]).contains('/')
            && parts[i].len() > 0,
    ensures
        text::joined(parts, "/"@).len() > 0,
        text::joined(parts, "/"@)[0] != '/',
    decreases parts.len(),
{
    assert(!parts[0].contains('/'));
    assert(parts[0][0] != '/') by {
        if parts[0][0] == '/' {
            assert(parts[0].contains('/'));
        }
    }
    if parts.len() > 1 {
        let front = parts.drop_last();
        assert forall|i: int| 0 <= i < front.len() implies !(#[trigger] front[i]).contains('/')
            && front[i].len() > 0 by {
            assert(front[i] == parts[i]);
        }
        lemma_joined_starts(front);
    }
}

proof fn lemma_names_only(parts: Seq<Seq<char>>)
    requires
        is_parts(parts),
    ensures
        parts.len() > 0 && parts[0] == "/"@ ==> forall|i: int|
            0 <= i < parts.skip(1).len() ==> !(#[trigger] parts.skip(1)[i]).contains('/')
                && parts.skip(1)[i].len() > 0,
        !(parts.len() > 0 && parts[0] == "/"@) ==> forall|i: int|
            0 <= i < parts.len() ==> !(#[trigger] parts[i]).contains('/') && parts[i].len() > 0,
{
    if parts.len() > 0 && parts[0] == "/"@ {
        let rest = parts.skip(1);
        assert forall|i: int| 0 <= i < rest.len() implies !(#[trigger] rest[i]).contains('/')
            && rest[i].len() > 0 by {
            assert(rest[i] == parts[i + 1]);
        }
    }
}

proof fn lemma_joined_injective(a: Seq<Seq<char>>, b: Seq<Seq<char>>)
    requires
        forall|i: int| 0 <= i < a.len() ==> !(#[trigger] a[i]).contains('/') && a[i].len() > 0,
        forall|i: int| 0 <= i < b.len() ==> !(#[trigger] b[i]).contains('/') && b[i].len() > 0,
        text::joined(a, "/"@) == text::joined(b, "/"@),
    ensures
        a == b,
{
    if a.len() > 0 {
        lemma_joined_starts(a);
    }
    if b.len() > 0 {
        lemma_joined_starts(b);
    }
    if a.len() > 0 && b.len() > 0 {
        changes::lemma_split_joined(a);
        changes::lemma_split_joined(b);
    } else {
        assert(a == b);
    }
}

/// A path is known by its text.
pub proof fn lemma_rendered_injective(a: Seq<Seq<char>>, b: Seq<Seq<char>>)
    requires
        is_parts(a),
        is_parts(b),
        paths::rendered(a) == paths::rendered(b),
    ensures
        a == b,
{
    reveal_strlit("/");
    lemma_names_only(a);
    lemma_names_only(b);
    let root_a = a.len() > 0 && a[0] == "/"@;
    let root_b = b.len() > 0 && b[0] == "/"@;
    if root_a && root_b {
        let x = text::joined(a.skip(1), "/"@);
        let y = text::joined(b.skip(1), "/"@);
        assert(paths::rendered(a) == "/"@ + x && paths::rendered(b) == "/"@ + y);
        assert(("/"@ + x).skip(1) == x);
        assert(("/"@ + y).skip(1) == y);
        lemma_joined_injective(a.skip(1), b.skip(1));
        assert(a == seq!["/"@] + a.skip(1));
        assert(b == seq!["/"@] + b.skip(1));
    } else if !root_a && !root_b {
        lemma_joined_injective(a, b);
    } else if root_a {
        lemma_rooted_apart(a, b);
    } else {
        lemma_rooted_apart(b, a);
    }
}

proof fn lemma_rooted_apart(a: Seq<Seq<char>>, b: Seq<Seq<char>>)
    requires
        is_parts(b),
        a.len() > 0 && a[0] == "/"@,
        !(b.len() > 0 && b[0] == "/"@),
    ensures
        paths::rendered(a) != paths::rendered(b),
{
    reveal_strlit("/");
    lemma_names_only(b);
    let x = text::joined(a.skip(1), "/"@);
    assert(paths::rendered(a) == "/"@ + x);
    assert(("/"@ + x)[0] == '/');
    if b.len() > 0 {
        lemma_joined_starts(b);
    } else {
        assert(paths::rendered(b).len() == 0);
    }
}

/// The table holds the last place of each path, by its text.
spec fn indexed(t: Map<Seq<char>, usize>, all: Seq<Seq<Seq<char>>>) -> bool {
    forall|p: Seq<Seq<char>>| #[trigger]
        is_parts(p) ==> match last_at(all, p) {
            Some(i) => t.contains_key(paths::rendered(p)) && t[paths::rendered(p)] == i,
            None => !t.contains_key(paths::rendered(p)),
        }
}

proof fn lemma_last_at(all: Seq<Seq<Seq<char>>>, p: Seq<Seq<char>>)
    ensures
        last_at(all, p) is Some <==> all.contains(p),
        last_at(all, p) is Some ==> 0 <= last_at(all, p)->0 < all.len() && all[last_at(all, p)->0]
            == p,
    decreases all.len(),
{
    if all.len() > 0 {
        let rest = all.drop_last();
        lemma_last_at(rest, p);
        if all.last() == p {
            assert(all[all.len() - 1] == p);
        } else {
            if all.contains(p) {
                let i = choose|i: int| 0 <= i < all.len() && all[i] == p;
                assert(rest[i] == p);
            }
            if rest.contains(p) {
                let i = choose|i: int| 0 <= i < rest.len() && rest[i] == p;
                assert(all[i] == p);
            }
        }
    }
}

fn index_paths(entries: &Vec<FoldEntry>) -> (r: FxHashMap<String, usize>)
    ensures
        indexed(table::names_in(r), parts_of(entries@)),
{
    let ghost all = parts_of(entries@);
    let mut t = table::new_names();
    let mut i: usize = 0;
    while i < entries.len()
        invariant
            i <= entries@.len(),
            all == parts_of(entries@),
            indexed(table::names_in(t), all.take(i as int)),
        decreases entries@.len() - i,
    {
        let ghost step = all.take(i + 1);
        assert(step.drop_last() == all.take(i as int));
        assert(step.last() == paths::comps(entries@[i as int].path@));
        let parts = paths::components(text::to_chars(entries[i].path.as_str()).as_slice());
        let key = paths::render(parts.as_slice());
        let ghost here = step.last();
        proof {
            lemma_comps_are_parts(entries@[i as int].path@);
        }
        table::put_name(&mut t, text::from_chars(key.as_slice()), i);
        assert forall|p: Seq<Seq<char>>| #[trigger] is_parts(p) implies match last_at(step, p) {
            Some(k) => table::names_in(t).contains_key(paths::rendered(p)) && table::names_in(
                t,
            )[paths::rendered(p)] == k,
            None => !table::names_in(t).contains_key(paths::rendered(p)),
        } by {
            if p != here && paths::rendered(p) == paths::rendered(here) {
                lemma_rendered_injective(p, here);
            }
        }
        i = i + 1;
    }
    assert(all.take(all.len() as int) == all);
    t
}

fn find_parent(t: &FxHashMap<String, usize>, path: &str, Ghost(all): Ghost<Seq<Seq<Seq<char>>>>) -> (r:
    Option<usize>)
    requires
        indexed(table::names_in(*t), all),
    ensures
        match nearest(all, paths::comps(path@), paths::comps(path@).len() - 1) {
            Some(q) => r == Some(q as usize) && 0 <= q <= usize::MAX,
            None => r is None,
        },
{
    let parts = paths::components(text::to_chars(path).as_slice());
    let ghost p = text::rows(parts@);
    proof {
        lemma_comps_are_parts(path@);
    }
    let floor: usize = if parts.len() > 0 && text::is_text(parts[0].as_slice(), "/") {
        assert(p[0] == parts@[0]@);
        1
    } else {
        assert(parts@.len() > 0 ==> p[0] == parts@[0]@);
        0
    };
    let mut d: usize = parts.len();
    while d > floor
        invariant
            d <= parts@.len(),
            p == text::rows(parts@),
            p == paths::comps(path@),
            is_parts(p),
            floor == floor_of(p),
            indexed(table::names_in(*t), all),
            nearest(all, p, p.len() - 1) == nearest(all, p, d - 1),
        decreases d,
    {
        let head = paths::between(parts.as_slice(), 0, d - 1);
        assert(text::rows(head@) == p.take(d - 1));
        let key = text::from_chars(paths::render(head.as_slice()).as_slice());
        assert(is_parts(p.take(d - 1)));
        proof {
            lemma_last_at(all, p.take(d - 1));
        }
        if let Some(q) = table::name_position(t, key.as_str()) {
            return Some(q);
        }
        d = d - 1;
    }
    None
}

spec fn as_ints(v: Seq<Option<usize>>) -> Seq<Option<int>> {
    v.map_values(
        |p: Option<usize>|
            match p {
                Some(q) => Some(q as int),
                None => None::<int>,
            },
    )
}

/// Those above stand before those below.
proof fn lemma_parent_is_before(entries: Seq<FoldEntry>, i: int)
    requires
        order::in_order(entries),
        0 <= i < entries.len(),
    ensures
        match parents_of(parts_of(entries))[i] {
            Some(q) => 0 <= q < i,
            None => true,
        },
{
    let all = parts_of(entries);
    lemma_nearest(all, all[i], all[i].len() - 1);
    if let Some(q) = nearest(all, all[i], all[i].len() - 1) {
        let d = all[q].len() as int;
        assert(all[q] == all[i].take(d));
        lemma_prefix_rank(all[q], all[i]);
        tree::lemma_parts_rank(all[q], all[i]);
        assert(entries[q].before(entries[i]));
        if q >= i {
            assert(!entries[q].before(entries[i]));
        }
    }
}

proof fn lemma_nearest(all: Seq<Seq<Seq<char>>>, parts: Seq<Seq<char>>, d: int)
    requires
        d < parts.len(),
    ensures
        match nearest(all, parts, d) {
            Some(q) => {
                &&& 0 <= q < all.len()
                &&& floor_of(parts) <= all[q].len() <= d
                &&& all[q] == parts.take(all[q].len() as int)
                &&& forall|e: int| all[q].len() < e <= d ==> !all.contains(#[trigger] parts.take(e))
            },
            None => forall|e: int|
                floor_of(parts) <= e <= d ==> !all.contains(#[trigger] parts.take(e)),
        },
    decreases d + 1,
{
    if d >= floor_of(parts) && d >= 0 {
        lemma_last_at(all, parts.take(d));
        if last_at(all, parts.take(d)) is None {
            lemma_nearest(all, parts, d - 1);
        }
    }
}

proof fn lemma_prefix_rank(a: Seq<Seq<char>>, b: Seq<Seq<char>>)
    requires
        a.len() < b.len(),
        b.take(a.len() as int) == a,
    ensures
        tree::parts_rank(a, b) == -1,
    decreases a.len(),
{
    if a.len() > 0 {
        assert(a[0] == b[0]);
        assert(!order::text_before(a[0], a[0])) by {
            order::lemma_text_total(a[0], a[0]);
        }
        assert(b.skip(1).take(a.len() - 1) == a.skip(1));
        lemma_prefix_rank(a.skip(1), b.skip(1));
    }
}

/// Adds the total of a directory to the one above it.
fn add_up(entries: &mut Vec<FoldEntry>, id: usize, parent: usize) -> (r: bool)
    requires
        id < old(entries)@.len(),
        parent < id,
    ensures
        final(entries)@.len() == old(entries)@.len(),
        forall|k: int|
            0 <= k < old(entries)@.len() ==> (#[trigger] final(entries)@[k]).path
                == old(entries)@[k].path,
        forall|k: int|
            0 <= k < old(entries)@.len() && k != parent ==> #[trigger] final(entries)@[k]
                == old(entries)@[k],
        forall|m: int|
            0 <= m < 3 ==> (#[trigger] final(entries)@[parent as int].totals@[m]) == capped(
                (old(entries)@[parent as int].totals@[m] + old(entries)@[id as int].totals@[m]) as nat,
            ),
        r == exists|m: int|
            0 <= m < 3 && #[trigger] old(entries)@[parent as int].totals@[m]
                + old(entries)@[id as int].totals@[m] > u64::MAX,
{
    let values = entries[id].totals;
    let slots = entries[parent].totals;
    let ghost before = entries@;
    let (a, oa) = add_checked(slots[0], values[0]);
    let (b, ob) = add_checked(slots[1], values[1]);
    let (c, oc) = add_checked(slots[2], values[2]);
    let path = entries[parent].path.clone();
    entries.set(parent, FoldEntry { path, totals: [a, b, c] });
    proof {
        assert(entries@[parent as int].totals@[0] == a);
        assert(entries@[parent as int].totals@[1] == b);
        assert(entries@[parent as int].totals@[2] == c);
        if oa {
            assert(before[parent as int].totals@[0] + before[id as int].totals@[0] > u64::MAX);
        }
        if ob {
            assert(before[parent as int].totals@[1] + before[id as int].totals@[1] > u64::MAX);
        }
        if oc {
            assert(before[parent as int].totals@[2] + before[id as int].totals@[2] > u64::MAX);
        }
    }
    oa || ob || oc
}

spec fn partial(owns: Seq<Seq<u64>>, parents: Seq<Option<int>>, k: int, m: int, i: int) -> nat {
    owns[m][k] as nat + below_from(owns[m], parents, k, if i > k + 1 {
        i
    } else {
        k + 1
    })
}

spec fn folded_from(
    entries: Seq<FoldEntry>,
    owns: Seq<Seq<u64>>,
    parents: Seq<Option<int>>,
    overflowed: bool,
    i: int,
) -> bool {
    &&& forall|k: int, m: int|
        #![trigger entries[k].totals@[m]]
        0 <= k < entries.len() && 0 <= m < 3 ==> entries[k].totals@[m] == capped(
            partial(owns, parents, k, m, i),
        )
    &&& overflowed == exists|k: int, m: int|
        0 <= k < entries.len() && 0 <= m < 3 && #[trigger] partial(owns, parents, k, m, i)
            > u64::MAX
}

proof fn lemma_partial_step(owns: Seq<Seq<u64>>, parents: Seq<Option<int>>, k: int, m: int, i: int)
    requires
        owns.len() == 3,
        0 <= m < 3,
        owns[m].len() == parents.len(),
        0 <= k < parents.len(),
        0 <= i < parents.len(),
        match parents[i] {
            Some(q) => q < i,
            None => true,
        },
    ensures
        partial(owns, parents, k, m, i) == partial(owns, parents, k, m, i + 1) + (if parents[i]
            == Some(k) {
            exact(owns[m], parents, i)
        } else {
            0
        }),
        partial(owns, parents, i, m, i + 1) == exact(owns[m], parents, i),
{
    if i > k {
        assert(below_from(owns[m], parents, k, i) == below_from(owns[m], parents, k, i + 1) + (
        if parents[i] == Some(k) {
            exact(owns[m], parents, i)
        } else {
            0
        }));
    }
}

/// Adds the totals of directories to those above them. A total that is too
/// large stands as the largest number there is.
pub fn fold(entries: Vec<FoldEntry>) -> (r: Folded)
    ensures
        ({
            let sorted = order::ranked(entries@);
            let parents = parents_of(parts_of(sorted));
            let owns = all_owns(sorted);
            &&& r.entries@.len() == sorted.len()
            &&& forall|k: int|
                0 <= k < sorted.len() ==> (#[trigger] r.entries@[k]).path == sorted[k].path
            &&& forall|k: int, m: int|
                #![trigger r.entries@[k].totals@[m]]
                0 <= k < sorted.len() && 0 <= m < 3 ==> r.entries@[k].totals@[m] == capped(
                    exact(owns[m], parents, k),
                )
            &&& r.overflowed == overflows(owns, parents)
        }),
{
    let ghost first = entries@;
    let mut list = order::sort(entries);
    let ghost sorted = list@;
    proof {
        order::law_ranked(first);
    }
    let ghost all = parts_of(sorted);
    let ghost owns = all_owns(sorted);
    let ghost tree_parents = parents_of(all);
    let index = index_paths(&list);
    let mut parents: Vec<Option<usize>> = Vec::new();
    let mut i: usize = 0;
    assert(as_ints(parents@) == tree_parents.take(0));
    while i < list.len()
        invariant
            i <= list@.len(),
            list@ == sorted,
            all == parts_of(sorted),
            tree_parents == parents_of(all),
            indexed(table::names_in(index), all),
            as_ints(parents@) == tree_parents.take(i as int),
            parents@.len() == i,
        decreases list@.len() - i,
    {
        let p = find_parent(&index, list[i].path.as_str(), Ghost(all));
        assert(all[i as int] == paths::comps(sorted[i as int].path@));
        let ghost before = as_ints(parents@);
        parents.push(p);
        assert(as_ints(parents@) == before.push(tree_parents[i as int]));
        assert(tree_parents.take(i + 1) == tree_parents.take(i as int).push(
            tree_parents[i as int],
        ));
        i = i + 1;
    }
    assert(tree_parents.take(tree_parents.len() as int) == tree_parents);
    let mut overflowed = false;
    let mut i: usize = list.len();
    proof {
        assert forall|k: int, m: int| 0 <= k < list@.len() && 0 <= m < 3 implies list@[k].totals@[m]
            == capped(#[trigger] partial(owns, tree_parents, k, m, i as int)) && partial(
            owns,
            tree_parents,
            k,
            m,
            i as int,
        ) <= u64::MAX by {
            assert(owns[m][k] == sorted[k].totals@[m]);
        }
    }
    while i > 0
        invariant
            i <= list@.len(),
            list@.len() == sorted.len(),
            order::in_order(sorted),
            all == parts_of(sorted),
            owns == all_owns(sorted),
            tree_parents == parents_of(all),
            as_ints(parents@) == tree_parents,
            parents@.len() == sorted.len(),
            forall|k: int| 0 <= k < sorted.len() ==> (#[trigger] list@[k]).path == sorted[k].path,
            folded_from(list@, owns, tree_parents, overflowed, i as int),
        decreases i,
    {
        let id: usize = i - 1;
        let ghost before = list@;
        let ghost flag = overflowed;
        proof {
            lemma_parent_is_before(sorted, id as int);
            assert(as_ints(parents@)[id as int] == tree_parents[id as int]);
        }
        assert forall|k: int, m: int| 0 <= k < sorted.len() && 0 <= m < 3 implies (#[trigger] partial(
            owns,
            tree_parents,
            k,
            m,
            id as int,
        )) == partial(owns, tree_parents, k, m, i as int) + (if tree_parents[id as int] == Some(k) {
            exact(owns[m], tree_parents, id as int)
        } else {
            0
        }) by {
            assert(owns[m].len() == tree_parents.len());
            lemma_partial_step(owns, tree_parents, k, m, id as int);
        }
        assert forall|m: int| 0 <= m < 3 implies (#[trigger] partial(
            owns,
            tree_parents,
            id as int,
            m,
            i as int,
        )) == exact(owns[m], tree_parents, id as int) by {
            assert(owns[m].len() == tree_parents.len());
            lemma_partial_step(owns, tree_parents, id as int, m, id as int);
        }
        if let Some(p) = parents[id] {
            let o = add_up(&mut list, id, p);
            if o {
                overflowed = true;
            }
            proof {
                assert forall|k: int, m: int|
                    #![trigger list@[k].totals@[m]]
                    0 <= k < list@.len() && 0 <= m < 3 implies list@[k].totals@[m] == capped(
                    partial(owns, tree_parents, k, m, id as int),
                ) by {
                    assert(before[k].totals@[m] == capped(
                        partial(owns, tree_parents, k, m, i as int),
                    ));
                    assert(before[id as int].totals@[m] == capped(
                        partial(owns, tree_parents, id as int, m, i as int),
                    ));
                }
                lemma_overflow_step(
                    before,
                    owns,
                    tree_parents,
                    flag,
                    o,
                    id as int,
                    p as int,
                );
            }
        } else {
            assert(folded_from(list@, owns, tree_parents, overflowed, id as int)) by {
                assert forall|k: int, m: int| 0 <= k < sorted.len() && 0 <= m < 3 implies (
                #[trigger] partial(owns, tree_parents, k, m, id as int)) == partial(
                    owns,
                    tree_parents,
                    k,
                    m,
                    i as int,
                ) by {}
                lemma_same_overflow(owns, tree_parents, sorted.len() as int, id as int);
            }
        }
        i = id;
    }
    proof {
        assert forall|k: int, m: int| 0 <= k < sorted.len() && 0 <= m < 3 implies partial(
            owns,
            tree_parents,
            k,
            m,
            0,
        ) == #[trigger] exact(owns[m], tree_parents, k) by {}
        if overflowed {
            let (k, m) = choose|k: int, m: int|
                0 <= k < list@.len() && 0 <= m < 3 && #[trigger] partial(
                    owns,
                    tree_parents,
                    k,
                    m,
                    0,
                ) > u64::MAX;
            assert(exact(owns[m], tree_parents, k) > u64::MAX);
        }
        if overflows(owns, tree_parents) {
            let (k, m) = choose|k: int, m: int|
                0 <= k < tree_parents.len() && 0 <= m < 3 && #[trigger] exact(
                    owns[m],
                    tree_parents,
                    k,
                ) > u64::MAX;
            assert(partial(owns, tree_parents, k, m, 0) > u64::MAX);
        }
    }
    Folded { entries: list, overflowed }
}

spec fn over_at(owns: Seq<Seq<u64>>, parents: Seq<Option<int>>, n: int, i: int) -> bool {
    exists|k: int, m: int|
        0 <= k < n && 0 <= m < 3 && #[trigger] partial(owns, parents, k, m, i) > u64::MAX
}

proof fn lemma_same_overflow(owns: Seq<Seq<u64>>, parents: Seq<Option<int>>, n: int, id: int)
    requires
        forall|k: int, m: int|
            0 <= k < n && 0 <= m < 3 ==> (#[trigger] partial(owns, parents, k, m, id)) == partial(
                owns,
                parents,
                k,
                m,
                id + 1,
            ),
    ensures
        over_at(owns, parents, n, id) == over_at(owns, parents, n, id + 1),
{
    if over_at(owns, parents, n, id + 1) {
        let (k, m) = choose|k: int, m: int|
            0 <= k < n && 0 <= m < 3 && #[trigger] partial(owns, parents, k, m, id + 1) > u64::MAX;
        assert(partial(owns, parents, k, m, id) > u64::MAX);
    }
}

proof fn lemma_overflow_step(
    before: Seq<FoldEntry>,
    owns: Seq<Seq<u64>>,
    parents: Seq<Option<int>>,
    flag: bool,
    o: bool,
    id: int,
    p: int,
)
    requires
        folded_from(before, owns, parents, flag, id + 1),
        0 <= p < id < before.len(),
        forall|k: int, m: int|
            0 <= k < before.len() && 0 <= m < 3 ==> (#[trigger] partial(owns, parents, k, m, id))
                == partial(owns, parents, k, m, id + 1) + (if k == p {
                partial(owns, parents, id, m, id + 1)
            } else {
                0
            }),
        o == exists|m: int|
            0 <= m < 3 && #[trigger] before[p].totals@[m] + before[id].totals@[m] > u64::MAX,
    ensures
        (flag || o) == exists|k: int, m: int|
            0 <= k < before.len() && 0 <= m < 3 && #[trigger] partial(owns, parents, k, m, id)
                > u64::MAX,
{
    let n = before.len() as int;
    if flag {
        let (k, m) = choose|k: int, m: int|
            0 <= k < n && 0 <= m < 3 && #[trigger] partial(owns, parents, k, m, id + 1) > u64::MAX;
        assert(partial(owns, parents, k, m, id) > u64::MAX);
    } else if o {
        let m = choose|m: int|
            0 <= m < 3 && #[trigger] before[p].totals@[m] + before[id].totals@[m] > u64::MAX;
        assert(before[p].totals@[m] == capped(partial(owns, parents, p, m, id + 1)));
        assert(before[id].totals@[m] == capped(partial(owns, parents, id, m, id + 1)));
        assert(partial(owns, parents, p, m, id) > u64::MAX);
    }
    if over_at(owns, parents, n, id) && !flag {
        let (k, m) = choose|k: int, m: int|
            0 <= k < n && 0 <= m < 3 && #[trigger] partial(owns, parents, k, m, id) > u64::MAX;
        assert(!(partial(owns, parents, k, m, id + 1) > u64::MAX));
        assert(!(partial(owns, parents, id, m, id + 1) > u64::MAX));
        assert(k == p);
        assert(before[p].totals@[m] == capped(partial(owns, parents, p, m, id + 1)));
        assert(before[id].totals@[m] == capped(partial(owns, parents, id, m, id + 1)));
        assert(before[p].totals@[m] + before[id].totals@[m] > u64::MAX);
    }
}

/// Whether the second path is the first one, or lies below it.
pub open spec fn holds(a: Seq<Seq<char>>, b: Seq<Seq<char>>) -> bool {
    a == b || (floor_of(b) <= a.len() < b.len() && b.take(a.len() as int) == a)
}

/// The sum of the first `n` numbers that are chosen.
pub open spec fn chosen_sum(owns: Seq<u64>, chosen: spec_fn(int) -> bool, n: int) -> nat
    decreases n,
{
    if n <= 0 {
        0
    } else {
        chosen_sum(owns, chosen, n - 1) + (if chosen(n - 1) {
            owns[n - 1] as nat
        } else {
            0
        })
    }
}

/// Chooses what is at a path or below it.
pub open spec fn at_or_below(all: Seq<Seq<Seq<char>>>, i: int) -> spec_fn(int) -> bool {
    |j: int| holds(all[i], all[j])
}

/// Chooses what is at or below one of the directories right below `i`, from `t` on.
spec fn below_children(
    all: Seq<Seq<Seq<char>>>,
    parents: Seq<Option<int>>,
    i: int,
    t: int,
) -> spec_fn(int) -> bool {
    |j: int| exists|c: int| t <= c < all.len() && is_held(all, parents, i, c, j)
}

spec fn is_held(all: Seq<Seq<Seq<char>>>, parents: Seq<Option<int>>, i: int, c: int, j: int) -> bool {
    parents[c] == Some(i) && holds(all[c], all[j])
}

proof fn lemma_chosen_split(
    owns: Seq<u64>,
    a: spec_fn(int) -> bool,
    b: spec_fn(int) -> bool,
    c: spec_fn(int) -> bool,
    n: int,
)
    requires
        forall|j: int| 0 <= j < n ==> #[trigger] c(j) == (a(j) || b(j)),
        forall|j: int| 0 <= j < n ==> !(#[trigger] a(j) && b(j)),
    ensures
        chosen_sum(owns, c, n) == chosen_sum(owns, a, n) + chosen_sum(owns, b, n),
    decreases n,
{
    if n > 0 {
        lemma_chosen_split(owns, a, b, c, n - 1);
        assert(c(n - 1) == (a(n - 1) || b(n - 1)));
        assert(!(a(n - 1) && b(n - 1)));
    }
}

proof fn lemma_chosen_none(owns: Seq<u64>, a: spec_fn(int) -> bool, n: int)
    requires
        forall|j: int| 0 <= j < n ==> !#[trigger] a(j),
    ensures
        chosen_sum(owns, a, n) == 0,
    decreases n,
{
    if n > 0 {
        lemma_chosen_none(owns, a, n - 1);
        assert(!a(n - 1));
    }
}

proof fn lemma_chosen_one(owns: Seq<u64>, i: int, n: int)
    requires
        0 <= i < n,
    ensures
        chosen_sum(owns, |j: int| j == i, n) == owns[i],
    decreases n,
{
    let a = |j: int| j == i;
    if i < n - 1 {
        lemma_chosen_one(owns, i, n - 1);
    } else {
        lemma_chosen_none(owns, a, n - 1);
    }
}

proof fn lemma_listed_once(all: Seq<Seq<Seq<char>>>, p: Seq<Seq<char>>, i: int)
    requires
        all.no_duplicates(),
        0 <= i < all.len(),
        all[i] == p,
    ensures
        last_at(all, p) == Some(i),
{
    lemma_last_at(all, p);
    assert(all.contains(p));
}

/// Two directories right below the same one do not hold the same.
proof fn lemma_children_apart(all: Seq<Seq<Seq<char>>>, i: int, c: int, e: int, j: int)
    requires
        all.no_duplicates(),
        0 <= i < all.len(),
        0 <= c < all.len(),
        0 <= e < all.len(),
        0 <= j < all.len(),
        c != e,
        parents_of(all)[c] == Some(i),
        parents_of(all)[e] == Some(i),
    ensures
        !(holds(all[c], all[j]) && holds(all[e], all[j])),
{
    if holds(all[c], all[j]) && holds(all[e], all[j]) {
        let (s, l) = if all[c].len() <= all[e].len() {
            (c, e)
        } else {
            (e, c)
        };
        assert(all[j].take(all[l].len() as int) == all[l]);
        assert(all[j].take(all[s].len() as int) == all[s]);
        assert(all[l].take(all[s].len() as int) == all[s]);
        if all[s].len() == all[l].len() {
            assert(all[l].take(all[l].len() as int) == all[l]);
            assert(all[s] == all[l]);
        } else {
            lemma_nearest(all, all[l], all[l].len() - 1);
            lemma_nearest(all, all[s], all[s].len() - 1);
            assert(all[i].len() < all[s].len());
            assert(all.contains(all[s]));
            assert(!all.contains(all[l].take(all[s].len() as int)));
        }
    }
}

proof fn lemma_least_listed(all: Seq<Seq<Seq<char>>>, p: Seq<Seq<char>>, from: int) -> (e: int)
    requires
        from < p.len(),
        0 <= from,
        all.contains(p),
    ensures
        from < e <= p.len(),
        all.contains(p.take(e)),
        forall|d: int| from < d < e ==> !all.contains(#[trigger] p.take(d)),
    decreases p.len() - from,
{
    if all.contains(p.take(from + 1)) {
        from + 1
    } else {
        assert(p.take(p.len() as int) == p);
        let e = lemma_least_listed(all, p, from + 1);
        assert forall|d: int| from < d < e implies !all.contains(#[trigger] p.take(d)) by {
            if d == from + 1 {
            }
        }
        e
    }
}

/// What lies below a directory lies at or below one right below it.
proof fn lemma_child_holds(entries: Seq<FoldEntry>, i: int, j: int)
    requires
        order::in_order(entries),
        parts_of(entries).no_duplicates(),
        0 <= i < entries.len(),
        0 <= j < entries.len(),
        i != j,
        holds(parts_of(entries)[i], parts_of(entries)[j]),
    ensures
        below_children(parts_of(entries), parents_of(parts_of(entries)), i, i + 1)(j),
{
    let all = parts_of(entries);
    let parents = parents_of(all);
    assert(all[i] != all[j]);
    assert(all.contains(all[j]));
    let e = lemma_least_listed(all, all[j], all[i].len() as int);
    let p = all[j].take(e);
    let c = choose|c: int| 0 <= c < all.len() && all[c] == p;
    assert(p.take(all[i].len() as int) == all[i]);
    assert(floor_of(p) == floor_of(all[j]));
    assert(holds(all[c], all[j])) by {
        if e == all[j].len() {
            assert(p == all[j]);
        }
    }
    lemma_nearest(all, p, p.len() - 1);
    lemma_listed_once(all, all[i], i);
    assert(all.contains(all[i]));
    assert(all.contains(p.take(all[i].len() as int)));
    match nearest(all, p, p.len() - 1) {
        Some(q) => {
            if all[q].len() > all[i].len() {
                assert(p.take(all[q].len() as int) == all[j].take(all[q].len() as int));
                assert(all.contains(all[q]));
            }
            assert(all[q].len() == all[i].len());
            assert(all[q] == all[i]);
            assert(q == i);
        },
        None => {
            assert(!all.contains(p.take(all[i].len() as int)));
        },
    }
    assert(parents[c] == Some(i));
    lemma_parent_is_before(entries, c);
    assert(is_held(all, parents, i, c, j));
}

proof fn lemma_below_sum(entries: Seq<FoldEntry>, owns: Seq<u64>, i: int, t: int)
    requires
        order::in_order(entries),
        parts_of(entries).no_duplicates(),
        owns.len() == entries.len(),
        0 <= i < t <= entries.len(),
    ensures
        below_from(owns, parents_of(parts_of(entries)), i, t) == chosen_sum(
            owns,
            below_children(parts_of(entries), parents_of(parts_of(entries)), i, t),
            owns.len() as int,
        ),
    decreases owns.len() - i, 0int, owns.len() - t,
{
    let all = parts_of(entries);
    let parents = parents_of(all);
    let n = owns.len() as int;
    let now = below_children(all, parents, i, t);
    if t == n {
        lemma_chosen_none(owns, now, n);
    } else {
        let later = below_children(all, parents, i, t + 1);
        lemma_below_sum(entries, owns, i, t + 1);
        if parents[t] == Some(i) {
            law_total_is_all_below(entries, owns, t);
            let here = at_or_below(all, t);
            assert forall|j: int| 0 <= j < n implies #[trigger] now(j) == (later(j) || here(j)) by {
                if now(j) {
                    let c = choose|c: int| t <= c < all.len() && is_held(all, parents, i, c, j);
                    if c > t {
                        assert(is_held(all, parents, i, c, j));
                    }
                }
                if here(j) {
                    assert(is_held(all, parents, i, t, j));
                }
                if later(j) {
                    let c = choose|c: int| t + 1 <= c < all.len() && is_held(all, parents, i, c, j);
                    assert(is_held(all, parents, i, c, j));
                }
            }
            assert forall|j: int| 0 <= j < n implies !(#[trigger] later(j) && here(j)) by {
                if later(j) && here(j) {
                    let c = choose|c: int| t + 1 <= c < all.len() && is_held(all, parents, i, c, j);
                    lemma_children_apart(all, i, t, c, j);
                }
            }
            lemma_chosen_split(owns, later, here, now, n);
        } else {
            let none = |j: int| false;
            assert forall|j: int| 0 <= j < n implies #[trigger] now(j) == (later(j) || none(j)) by {
                if now(j) {
                    let c = choose|c: int| t <= c < all.len() && is_held(all, parents, i, c, j);
                    assert(c != t);
                    assert(is_held(all, parents, i, c, j));
                }
                if later(j) {
                    let c = choose|c: int| t + 1 <= c < all.len() && is_held(all, parents, i, c, j);
                    assert(is_held(all, parents, i, c, j));
                }
            }
            lemma_chosen_split(owns, later, none, now, n);
            lemma_chosen_none(owns, none, n);
        }
    }
}

/// The total of a directory is the sum of the totals of all that is at it or
/// below it, and of nothing else.
pub proof fn law_total_is_all_below(entries: Seq<FoldEntry>, owns: Seq<u64>, i: int)
    requires
        order::in_order(entries),
        parts_of(entries).no_duplicates(),
        owns.len() == entries.len(),
        0 <= i < entries.len(),
    ensures
        exact(owns, parents_of(parts_of(entries)), i) == chosen_sum(
            owns,
            at_or_below(parts_of(entries), i),
            owns.len() as int,
        ),
    decreases owns.len() - i, 1int, 0int,
{
    let all = parts_of(entries);
    let parents = parents_of(all);
    let n = owns.len() as int;
    lemma_below_sum(entries, owns, i, i + 1);
    let below = below_children(all, parents, i, i + 1);
    let here = |j: int| j == i;
    let both = at_or_below(all, i);
    lemma_chosen_one(owns, i, n);
    assert forall|j: int| 0 <= j < n implies #[trigger] both(j) == (below(j) || here(j)) by {
        if both(j) && j != i {
            lemma_child_holds(entries, i, j);
        }
        if below(j) {
            let c = choose|c: int| i + 1 <= c < all.len() && is_held(all, parents, i, c, j);
            lemma_held_below(all, i, c, j);
        }
    }
    assert forall|j: int| 0 <= j < n implies !(#[trigger] below(j) && here(j)) by {
        if below(j) && here(j) {
            let c = choose|c: int| i + 1 <= c < all.len() && is_held(all, parents, i, c, j);
            lemma_nearest(all, all[c], all[c].len() - 1);
            assert(all[c].len() > all[i].len());
        }
    }
    lemma_chosen_split(owns, below, here, both, n);
}

proof fn lemma_held_below(all: Seq<Seq<Seq<char>>>, i: int, c: int, j: int)
    requires
        0 <= i < all.len(),
        0 <= c < all.len(),
        0 <= j < all.len(),
        parents_of(all)[c] == Some(i),
        holds(all[c], all[j]),
    ensures
        holds(all[i], all[j]),
{
    lemma_nearest(all, all[c], all[c].len() - 1);
    assert(all[c].take(all[i].len() as int) == all[i]);
    if all[c] != all[j] {
        assert(all[j].take(all[i].len() as int) == all[j].take(all[c].len() as int).take(
            all[i].len() as int,
        ));
        if all[c].len() > 0 && all[i].len() < floor_of(all[j]) {
            assert(all[c][0] == all[j][0]);
        }
    }
}

/// Puts the items that are shown in order, and leaves the others behind them. Where
/// none is shown, all stay as they are.
pub fn sort_prefix<T: Ranked>(entries: Vec<T>, limit: usize) -> (r: Vec<T>)
    ensures
        r@.len() == entries@.len(),
        r@.to_multiset() == entries@.to_multiset(),
        forall|i: int|
            0 <= i < limit && i < entries@.len() ==> #[trigger] r@[i] == order::ranked(
                entries@,
            )[i],
        limit == 0 ==> r@ == entries@,
{
    if limit == 0 {
        return entries;
    }
    proof {
        order::law_ranked(entries@);
    }
    order::sort(entries)
}

} // verus!
