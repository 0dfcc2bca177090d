//! Orders and a stable sort.

use vstd::prelude::*;

verus! {

/// Lexicographic order of character sequences, by code point.
pub open spec fn text_before(a: Seq<char>, b: Seq<char>) -> bool
    decreases a.len(),
{
    if b.len() == 0 {
        false
    } else if a.len() == 0 {
        true
    } else if a[0] != b[0] {
        (a[0] as int) < (b[0] as int)
    } else {
        text_before(a.skip(1), b.skip(1))
    }
}

/// Two texts are equal or one stands before the other, never both.
pub proof fn lemma_text_total(a: Seq<char>, b: Seq<char>)
    ensures
        text_before(a, b) || a == b || text_before(b, a),
        text_before(a, b) ==> !text_before(b, a) && a != b,
    decreases a.len(),
{
    if a.len() > 0 && b.len() > 0 && a[0] == b[0] {
        lemma_text_total(a.skip(1), b.skip(1));
        assert(a == seq![a[0]] + a.skip(1));
        assert(b == seq![b[0]] + b.skip(1));
    } else if a.len() == 0 && b.len() == 0 {
        assert(a == b);
    }
}

/// The order of texts is transitive.
pub proof fn lemma_text_transitive(a: Seq<char>, b: Seq<char>, c: Seq<char>)
    requires
        text_before(a, b),
        text_before(b, c),
    ensures
        text_before(a, c),
    decreases a.len(),
{
    if a.len() > 0 && a[0] == b[0] && b[0] == c[0] {
        lemma_text_transitive(a.skip(1), b.skip(1), c.skip(1));
    }
}

/// Compares two characters by code point.
fn char_is_before(a: char, b: char) -> (r: bool)
    ensures
        r == ((a as int) < (b as int)),
{
    (a as u32) < (b as u32)
}

/// Compares two texts.
pub fn text_is_before(a: &[char], b: &[char]) -> (r: bool)
    ensures
        r == text_before(a@, b@),
{
    let mut i: usize = 0;
    assert(a@.skip(0) == a@ && b@.skip(0) == b@);
    while i < a.len() && i < b.len()
        invariant
            i <= a@.len(),
            i <= b@.len(),
            text_before(a@, b@) == text_before(a@.skip(i as int), b@.skip(i as int)),
        decreases a@.len() - i,
    {
        assert(a@.skip(i as int)[0] == a@[i as int] && b@.skip(i as int)[0] == b@[i as int]);
        if a[i] != b[i] {
            return char_is_before(a[i], b[i]);
        }
        assert(a@.skip(i as int).skip(1) == a@.skip(i + 1));
        assert(b@.skip(i as int).skip(1) == b@.skip(i + 1));
        i = i + 1;
    }
    i < b.len()
}

/// Things with a strict order in which "not before" is transitive: some may
/// stand level with others.
pub trait Ranked: Sized {
    spec fn before(self, other: Self) -> bool;

    proof fn asymmetric(a: Self, b: Self)
        requires
            a.before(b),
        ensures
            !b.before(a),
    ;

    proof fn not_before_transitive(a: Self, b: Self, c: Self)
        requires
            !b.before(a),
            !c.before(b),
        ensures
            !c.before(a),
    ;

    fn is_before(&self, other: &Self) -> (r: bool)
        ensures
            r == self.before(*other),
    ;
}

impl Ranked for usize {
    open spec fn before(self, other: Self) -> bool {
        self < other
    }

    proof fn asymmetric(a: Self, b: Self) {
    }

    proof fn not_before_transitive(a: Self, b: Self, c: Self) {
    }

    fn is_before(&self, other: &Self) -> (r: bool) {
        *self < *other
    }
}

/// `s` with `x` behind the last item that `x` does not stand before.
pub open spec fn placed<T: Ranked>(s: Seq<T>, x: T) -> Seq<T>
    decreases s.len(),
{
    if s.len() > 0 && x.before(s.last()) {
        placed(s.drop_last(), x).push(s.last())
    } else {
        s.push(x)
    }
}

/// The items of `s` in order; items that stand level keep their places
/// relative to each other.
pub open spec fn ranked<T: Ranked>(s: Seq<T>) -> Seq<T>
    decreases s.len(),
{
    if s.len() == 0 {
        s
    } else {
        placed(ranked(s.drop_last()), s.last())
    }
}

/// No item stands before an earlier one.
pub open spec fn in_order<T: Ranked>(s: Seq<T>) -> bool {
    forall|i: int, j: int| 0 <= i <= j < s.len() ==> !(#[trigger] s[j]).before(#[trigger] s[i])
}

proof fn lemma_placed<T: Ranked>(s: Seq<T>, x: T, at: int)
    requires
        0 <= at <= s.len(),
        forall|i: int| 0 <= i < at ==> !x.before(#[trigger] s[i]),
        forall|i: int| at <= i < s.len() ==> x.before(#[trigger] s[i]),
    ensures
        placed(s, x) == s.insert(at, x),
    decreases s.len(),
{
    if at < s.len() {
        assert(x.before(s[s.len() - 1]));
        lemma_placed(s.drop_last(), x, at);
        assert(s.drop_last().insert(at, x).push(s.last()) == s.insert(at, x));
    } else {
        if s.len() > 0 {
            assert(!x.before(s[s.len() - 1]));
        }
        assert(s.push(x) == s.insert(at, x));
    }
}

/// Where `x` goes in an ordered sequence.
proof fn lemma_place_exists<T: Ranked>(s: Seq<T>, x: T) -> (at: int)
    requires
        in_order(s),
    ensures
        0 <= at <= s.len(),
        forall|i: int| 0 <= i < at ==> !x.before(#[trigger] s[i]),
        forall|i: int| at <= i < s.len() ==> x.before(#[trigger] s[i]),
    decreases s.len(),
{
    if s.len() == 0 {
        0
    } else if x.before(s.last()) {
        let rest = s.drop_last();
        assert(in_order(rest)) by {
            assert forall|i: int, j: int| 0 <= i <= j < rest.len() implies !(
            #[trigger] rest[j]).before(#[trigger] rest[i]) by {
                assert(rest[j] == s[j] && rest[i] == s[i]);
            }
        }
        let at = lemma_place_exists(rest, x);
        assert forall|i: int| 0 <= i < at implies !x.before(#[trigger] s[i]) by {
            assert(rest[i] == s[i]);
        }
        assert forall|i: int| at <= i < s.len() implies x.before(#[trigger] s[i]) by {
            if i < rest.len() {
                assert(rest[i] == s[i]);
            }
        }
        at
    } else {
        assert forall|i: int| 0 <= i < s.len() implies !x.before(#[trigger] s[i]) by {
            T::not_before_transitive(s[i], s.last(), x);
        }
        s.len() as int
    }
}

proof fn lemma_insert_in_order<T: Ranked>(s: Seq<T>, x: T, at: int)
    requires
        in_order(s),
        0 <= at <= s.len(),
        forall|i: int| 0 <= i < at ==> !x.before(#[trigger] s[i]),
        forall|i: int| at <= i < s.len() ==> x.before(#[trigger] s[i]),
    ensures
        in_order(s.insert(at, x)),
{
    let t = s.insert(at, x);
    assert forall|i: int, j: int| 0 <= i <= j < t.len() implies !(#[trigger] t[j]).before(
        #[trigger] t[i],
    ) by {
        let a = if i < at {
            i
        } else {
            i - 1
        };
        let b = if j < at {
            j
        } else {
            j - 1
        };
        if i == at && j == at {
            if x.before(x) {
                T::asymmetric(x, x);
            }
        } else if i == at {
            assert(t[j] == s[b]);
            T::asymmetric(x, s[b]);
        } else if j == at {
            assert(t[i] == s[a]);
        } else {
            assert(t[i] == s[a] && t[j] == s[b]);
        }
    }
}

/// Sorting puts the items in order and neither adds nor drops any.
pub proof fn law_ranked<T: Ranked>(s: Seq<T>)
    ensures
        in_order(ranked(s)),
        ranked(s).to_multiset() == s.to_multiset(),
        ranked(s).len() == s.len(),
    decreases s.len(),
{
    broadcast use vstd::seq_lib::group_to_multiset_ensures;

    if s.len() > 0 {
        let rest = ranked(s.drop_last());
        law_ranked(s.drop_last());
        let at = lemma_place_exists(rest, s.last());
        lemma_placed(rest, s.last(), at);
        lemma_insert_in_order(rest, s.last(), at);
        assert(s == s.drop_last().push(s.last()));
        assert(rest.insert(at, s.last()).remove(at) == rest);
        let t = rest.insert(at, s.last());
        assert(t.to_multiset().remove(s.last()) == rest.to_multiset());
        assert(t.to_multiset().count(s.last()) > 0) by {
            assert(t[at] == s.last());
            assert(t.contains(s.last()));
        }
        assert(t.to_multiset() == rest.to_multiset().insert(s.last()));
    }
}

/// What is in a sequence is in the sorted one, and the other way round.
pub proof fn law_ranked_contains<T: Ranked>(s: Seq<T>, x: T)
    ensures
        ranked(s).contains(x) <==> s.contains(x),
{
    broadcast use vstd::seq_lib::group_to_multiset_ensures;

    law_ranked(s);
    assert(ranked(s).contains(x) <==> ranked(s).to_multiset().count(x) > 0);
    assert(s.contains(x) <==> s.to_multiset().count(x) > 0);
}

/// Sorting something in order changes nothing.
pub proof fn law_ranked_in_order_is_unchanged<T: Ranked>(s: Seq<T>)
    requires
        in_order(s),
    ensures
        ranked(s) == s,
    decreases s.len(),
{
    if s.len() > 0 {
        let rest = s.drop_last();
        assert forall|i: int, j: int| 0 <= i <= j < rest.len() implies !(
        #[trigger] rest[j]).before(#[trigger] rest[i]) by {
            assert(rest[j] == s[j] && rest[i] == s[i]);
        }
        law_ranked_in_order_is_unchanged(rest);
        if rest.len() > 0 {
            assert(rest.last() == s[s.len() - 2]);
            assert(!s[s.len() - 1].before(s[s.len() - 2]));
        }
        assert(rest.push(s.last()) == s);
    }
}

/// Sorts stably.
pub fn sort<T: Ranked>(v: Vec<T>) -> (r: Vec<T>)
    ensures
        r@ == ranked(v@),
        in_order(r@),
{
    let ghost all = v@;
    let mut rest = v;
    let mut out: Vec<T> = Vec::new();
    let ghost mut n: int = 0;
    reverse(&mut rest);
    assert(all.take(0) == Seq::<T>::empty());
    while rest.len() > 0
        invariant
            0 <= n <= all.len(),
            rest@ == all.skip(n).reverse(),
            out@ == ranked(all.take(n)),
            in_order(out@),
        decreases rest@.len(),
    {
        let ghost before = out@;
        let item = rest.pop().unwrap();
        assert(item == all[n]) by {
            assert(all.skip(n).reverse().last() == all.skip(n)[0]);
        }
        let mut low: usize = 0;
        let mut high: usize = out.len();
        while low < high
            invariant
                low <= high <= out@.len(),
                out@ == before,
                in_order(out@),
                forall|i: int| 0 <= i < low ==> !item.before(#[trigger] out@[i]),
                forall|i: int| high <= i < out@.len() ==> item.before(#[trigger] out@[i]),
            decreases high - low,
        {
            let mid: usize = low + (high - low) / 2;
            if item.is_before(&out[mid]) {
                proof {
                    assert forall|i: int| mid <= i < out@.len() implies item.before(
                        #[trigger] out@[i],
                    ) by {
                        assert(!out@[i].before(out@[mid as int]));
                        if !item.before(out@[i]) {
                            T::not_before_transitive(out@[mid as int], out@[i], item);
                        }
                    }
                }
                high = mid;
            } else {
                proof {
                    assert forall|i: int| 0 <= i < mid + 1 implies !item.before(
                        #[trigger] out@[i],
                    ) by {
                        assert(!out@[mid as int].before(out@[i]));
                        T::not_before_transitive(out@[i], out@[mid as int], item);
                    }
                }
                low = mid + 1;
            }
        }
        proof {
            lemma_placed(before, item, low as int);
            lemma_insert_in_order(before, item, low as int);
            assert(all.take(n + 1).drop_last() == all.take(n));
            assert(all.take(n + 1).last() == item);
            assert(all.skip(n).reverse().drop_last() == all.skip(n + 1).reverse());
            n = n + 1;
        }
        out.insert(low, item);
    }
    assert(all.take(all.len() as int) == all);
    out
}

/// Reverses in place.
pub fn reverse<T>(v: &mut Vec<T>)
    ensures
        final(v)@ == old(v)@.reverse(),
{
    let mut taken: Vec<T> = Vec::new();
    let ghost all = v@;
    while v.len() > 0
        invariant
            v@.len() + taken@.len() == all.len(),
            v@ == all.take(v@.len() as int),
            forall|i: int| 0 <= i < taken@.len() ==> taken@[i] == all[all.len() - 1 - i],
        decreases v@.len(),
    {
        let item = v.pop().unwrap();
        taken.push(item);
    }
    assert(taken@ == all.reverse());
    v.append(&mut taken);
    assert(v@ == all.reverse());
}

/// Not standing before is transitive.
pub proof fn lemma_text_not_before_transitive(a: Seq<char>, b: Seq<char>, c: Seq<char>)
    requires
        !text_before(b, a),
        !text_before(c, b),
    ensures
        !text_before(c, a),
{
    lemma_text_total(a, b);
    lemma_text_total(b, c);
    lemma_text_total(a, c);
    if text_before(c, a) {
        if text_before(a, b) {
            lemma_text_transitive(c, a, b);
        }
    }
}

/// `placed` for an order that is given.
pub open spec fn placed_by<M>(s: Seq<M>, x: M, lt: spec_fn(M, M) -> bool) -> Seq<M>
    decreases s.len(),
{
    if s.len() > 0 && lt(x, s.last()) {
        placed_by(s.drop_last(), x, lt).push(s.last())
    } else {
        s.push(x)
    }
}

/// `ranked` for an order that is given.
pub open spec fn ranked_by<M>(s: Seq<M>, lt: spec_fn(M, M) -> bool) -> Seq<M>
    decreases s.len(),
{
    if s.len() == 0 {
        s
    } else {
        placed_by(ranked_by(s.drop_last(), lt), s.last(), lt)
    }
}

proof fn lemma_placed_by_multiset<M>(s: Seq<M>, x: M, lt: spec_fn(M, M) -> bool)
    ensures
        placed_by(s, x, lt).to_multiset() == s.to_multiset().insert(x),
        placed_by(s, x, lt).len() == s.len() + 1,
    decreases s.len(),
{
    broadcast use vstd::seq_lib::group_to_multiset_ensures;

    if s.len() > 0 && lt(x, s.last()) {
        lemma_placed_by_multiset(s.drop_last(), x, lt);
        assert(s == s.drop_last().push(s.last()));
        assert(s.to_multiset() == s.drop_last().to_multiset().insert(s.last()));
        assert(placed_by(s, x, lt).to_multiset() == s.drop_last().to_multiset().insert(x).insert(
            s.last(),
        ));
        assert(s.drop_last().to_multiset().insert(x).insert(s.last())
            == s.drop_last().to_multiset().insert(s.last()).insert(x));
    }
}

/// Sorting neither adds nor drops anything.
pub proof fn law_ranked_by_keeps_all<M>(s: Seq<M>, lt: spec_fn(M, M) -> bool)
    ensures
        ranked_by(s, lt).to_multiset() == s.to_multiset(),
        ranked_by(s, lt).len() == s.len(),
    decreases s.len(),
{
    broadcast use vstd::seq_lib::group_to_multiset_ensures;

    if s.len() > 0 {
        law_ranked_by_keeps_all(s.drop_last(), lt);
        lemma_placed_by_multiset(ranked_by(s.drop_last(), lt), s.last(), lt);
        assert(s == s.drop_last().push(s.last()));
    }
}

proof fn lemma_placed_mapped<T: Ranked, M>(
    s: Seq<T>,
    x: T,
    f: spec_fn(T) -> M,
    lt: spec_fn(M, M) -> bool,
)
    requires
        forall|a: T, b: T| #[trigger] a.before(b) == lt(f(a), f(b)),
    ensures
        placed(s, x).map_values(f) == placed_by(s.map_values(f), f(x), lt),
    decreases s.len(),
{
    let m = s.map_values(f);
    if s.len() > 0 {
        assert(m.last() == f(s.last()));
        assert(m.drop_last() == s.drop_last().map_values(f));
        assert(x.before(s.last()) == lt(f(x), f(s.last())));
        if x.before(s.last()) {
            lemma_placed_mapped(s.drop_last(), x, f, lt);
            assert(placed(s, x).map_values(f) == placed(s.drop_last(), x).map_values(f).push(
                f(s.last()),
            ));
        } else {
            assert(s.push(x).map_values(f) == m.push(f(x)));
        }
    } else {
        assert(s.push(x).map_values(f) == m.push(f(x)));
    }
}

/// Sorting things sorts their models.
pub proof fn lemma_ranked_mapped<T: Ranked, M>(
    s: Seq<T>,
    f: spec_fn(T) -> M,
    lt: spec_fn(M, M) -> bool,
)
    requires
        forall|a: T, b: T| #[trigger] a.before(b) == lt(f(a), f(b)),
    ensures
        ranked(s).map_values(f) == ranked_by(s.map_values(f), lt),
    decreases s.len(),
{
    let m = s.map_values(f);
    if s.len() > 0 {
        lemma_ranked_mapped(s.drop_last(), f, lt);
        lemma_placed_mapped(ranked(s.drop_last()), s.last(), f, lt);
        assert(m.drop_last() == s.drop_last().map_values(f));
        assert(m.last() == f(s.last()));
    }
}

/// At the first place where two texts differ the lower code point decides.
pub proof fn law_first_difference_decides(a: Seq<char>, b: Seq<char>, at: int)
    requires
        0 <= at < a.len(),
        at < b.len(),
        forall|i: int| 0 <= i < at ==> a[i] == b[i],
        a[at] != b[at],
    ensures
        text_before(a, b) <==> (a[at] as int) < (b[at] as int),
    decreases at,
{
    if at > 0 {
        assert(a[0] == b[0]);
        assert forall|i: int| 0 <= i < at - 1 implies a.skip(1)[i] == b.skip(1)[i] by {
            assert(a[i + 1] == b[i + 1]);
        }
        law_first_difference_decides(a.skip(1), b.skip(1), at - 1);
    }
}

/// A text stands before every longer one that begins with it.
pub proof fn law_beginnings_come_first(a: Seq<char>, more: Seq<char>)
    ensures
        text_before(a, a + more) <==> more.len() > 0,
        !text_before(a + more, a),
    decreases a.len(),
{
    if a.len() > 0 {
        law_beginnings_come_first(a.skip(1), more);
        assert((a + more).skip(1) == a.skip(1) + more);
        assert((a + more)[0] == a[0]);
    } else {
        assert(a + more == more);
    }
}

/// Whether something stands level with `x`: neither goes before the other.
pub open spec fn level_with<T: Ranked>(x: T) -> spec_fn(T) -> bool {
    |y: T| !y.before(x) && !x.before(y)
}

proof fn lemma_placed_behind_level<T: Ranked>(s: Seq<T>, y: T, x: T)
    ensures
        placed(s, y).filter(level_with(x)) == s.push(y).filter(level_with(x)),
    decreases s.len(),
{
    reveal(Seq::filter);
    let p = level_with(x);
    if s.len() > 0 && y.before(s.last()) {
        let z = s.last();
        lemma_placed_behind_level(s.drop_last(), y, x);
        assert(placed(s, y) == placed(s.drop_last(), y).push(z));
        assert(placed(s, y).drop_last() == placed(s.drop_last(), y));
        assert(s.drop_last().push(y).drop_last() == s.drop_last());
        assert(s.push(y).drop_last() == s);
        let rest = s.drop_last().filter(p);
        assert(s.filter(p) == (if p(z) { rest.push(z) } else { rest }));
        assert(s.push(y).filter(p) == (if p(y) { s.filter(p).push(y) } else { s.filter(p) }));
        assert(s.drop_last().push(y).filter(p) == (if p(y) { rest.push(y) } else { rest }));
        if p(y) && p(z) {
            T::not_before_transitive(z, x, y);
        }
    }
}

/// Sorting keeps the places of things that stand level, relative to each other.
pub proof fn law_sorting_is_stable<T: Ranked>(s: Seq<T>, x: T)
    ensures
        ranked(s).filter(level_with(x)) == s.filter(level_with(x)),
    decreases s.len(),
{
    reveal(Seq::filter);
    if s.len() > 0 {
        let rest = ranked(s.drop_last());
        law_sorting_is_stable(s.drop_last(), x);
        lemma_placed_behind_level(rest, s.last(), x);
        assert(rest.push(s.last()).drop_last() == rest);
    }
}

proof fn lemma_placed_by_contains<M>(s: Seq<M>, x: M, lt: spec_fn(M, M) -> bool, k: int)
    requires
        0 <= k < placed_by(s, x, lt).len(),
    ensures
        placed_by(s, x, lt)[k] == x || s.contains(placed_by(s, x, lt)[k]),
    decreases s.len(),
{
    if s.len() > 0 && lt(x, s.last()) {
        let rest = placed_by(s.drop_last(), x, lt);
        if k < rest.len() {
            lemma_placed_by_contains(s.drop_last(), x, lt, k);
            if rest[k] != x {
                let i = choose|i: int| 0 <= i < s.drop_last().len() && s.drop_last()[i] == rest[k];
                assert(s[i] == rest[k]);
            }
        } else {
            assert(s[s.len() - 1] == s.last());
        }
    } else if k < s.len() {
        assert(s[k] == placed_by(s, x, lt)[k]);
    }
}

proof fn lemma_placed_by_in_order<M>(s: Seq<M>, x: M, lt: spec_fn(M, M) -> bool)
    requires
        forall|a: M, b: M| #[trigger] lt(a, b) ==> !lt(b, a),
        forall|a: M, b: M, c: M| !#[trigger] lt(b, a) && !#[trigger] lt(c, b) ==> !lt(c, a),
        forall|i: int, j: int| 0 <= i <= j < s.len() ==> !lt(#[trigger] s[j], #[trigger] s[i]),
    ensures
        ({
            let r = placed_by(s, x, lt);
            forall|i: int, j: int| 0 <= i <= j < r.len() ==> !lt(#[trigger] r[j], #[trigger] r[i])
        }),
    decreases s.len(),
{
    let r = placed_by(s, x, lt);
    if s.len() > 0 && lt(x, s.last()) {
        let before = s.drop_last();
        assert forall|i: int, j: int| 0 <= i <= j < before.len() implies !lt(
            #[trigger] before[j],
            #[trigger] before[i],
        ) by {
            assert(before[j] == s[j] && before[i] == s[i]);
        }
        lemma_placed_by_in_order(before, x, lt);
        let rest = placed_by(before, x, lt);
        assert forall|i: int, j: int| 0 <= i <= j < r.len() implies !lt(
            #[trigger] r[j],
            #[trigger] r[i],
        ) by {
            if j < rest.len() {
                assert(r[j] == rest[j] && r[i] == rest[i]);
            } else if i < rest.len() {
                lemma_placed_by_contains(before, x, lt, i);
                if rest[i] == x {
                    assert(lt(x, s.last()));
                } else {
                    let k = choose|k: int| 0 <= k < before.len() && before[k] == rest[i];
                    assert(s[k] == rest[i]);
                    assert(!lt(s[s.len() - 1], s[k]));
                }
            } else {
                assert(r[i] == s[s.len() - 1]);
            }
        }
    } else {
        assert forall|i: int, j: int| 0 <= i <= j < r.len() implies !lt(
            #[trigger] r[j],
            #[trigger] r[i],
        ) by {
            if j < s.len() {
                assert(r[j] == s[j] && r[i] == s[i]);
            } else if i < s.len() {
                assert(!lt(s[s.len() - 1], s[i]));
                assert(!lt(x, s[s.len() - 1]));
            } else if lt(x, x) {
                assert(!lt(x, x));
            }
        }
    }
}

/// Sorting by an order that is given puts things in that order.
pub proof fn law_ranked_by_is_in_order<M>(s: Seq<M>, lt: spec_fn(M, M) -> bool)
    requires
        forall|a: M, b: M| #[trigger] lt(a, b) ==> !lt(b, a),
        forall|a: M, b: M, c: M| !#[trigger] lt(b, a) && !#[trigger] lt(c, b) ==> !lt(c, a),
    ensures
        ({
            let r = ranked_by(s, lt);
            forall|i: int, j: int| 0 <= i <= j < r.len() ==> !lt(#[trigger] r[j], #[trigger] r[i])
        }),
    decreases s.len(),
{
    if s.len() > 0 {
        law_ranked_by_is_in_order(s.drop_last(), lt);
        lemma_placed_by_in_order(ranked_by(s.drop_last(), lt), s.last(), lt);
    }
}

} // verus!
