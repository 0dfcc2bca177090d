//! The devices that a block device is made of.

use crate::table::NameSet;
use crate::telemetry::DeviceKey;
use crate::text;
use vstd::prelude::*;

verus! {

/// Whether a device stands before another.
pub open spec fn key_before(a: DeviceKey, b: DeviceKey) -> bool {
    a.0 < b.0 || (a.0 == b.0 && a.1 < b.1)
}

/// Each device once, in order.
pub open spec fn is_ascending(keys: Seq<DeviceKey>) -> bool {
    forall|i: int, j: int|
        0 <= i < j < keys.len() ==> key_before(#[trigger] keys[i], #[trigger] keys[j])
}

/// Puts devices in order and leaves each in once.
pub fn unique_keys(keys: &Vec<DeviceKey>) -> (r: Vec<DeviceKey>)
    ensures
        is_ascending(r@),
        forall|k: DeviceKey| #[trigger] r@.contains(k) <==> keys@.contains(k),
{
    let mut out: Vec<DeviceKey> = Vec::new();
    let mut i: usize = 0;
    while i < keys.len()
        invariant
            i <= keys@.len(),
            is_ascending(out@),
            forall|k: DeviceKey| #[trigger] out@.contains(k) <==> keys@.take(i as int).contains(k),
        decreases keys@.len() - i,
    {
        let key = keys[i];
        let ghost before = out@;
        let mut p: usize = 0;
        while p < out.len() && (out[p].0 < key.0 || (out[p].0 == key.0 && out[p].1 < key.1))
            invariant
                p <= out@.len(),
                out@ == before,
                forall|k: int| 0 <= k < p ==> key_before(#[trigger] out@[k], key),
            decreases out@.len() - p,
        {
            p = p + 1;
        }
        let there = p < out.len() && out[p].0 == key.0 && out[p].1 == key.1;
        if !there {
            out.insert(p, key);
        }
        proof {
            let step = keys@.take(i + 1);
            assert forall|a: int, b: int| 0 <= a < b < out@.len() implies key_before(
                #[trigger] out@[a],
                #[trigger] out@[b],
            ) by {
                if !there {
                    let x = if a < p {
                        a
                    } else {
                        a - 1
                    };
                    let y = if b < p {
                        b
                    } else {
                        b - 1
                    };
                    if a != p && b != p {
                        assert(key_before(before[x], before[y]));
                    } else if a == p {
                        assert(out@[b] == before[y]);
                        assert(!key_before(before[p as int], key));
                        if y > p {
                            assert(key_before(before[p as int], before[y]));
                        }
                    } else {
                        assert(out@[a] == before[x]);
                    }
                } else {
                    assert(key_before(before[a], before[b]));
                }
            }
            assert forall|k: DeviceKey| #[trigger] out@.contains(k) <==> step.contains(k) by {
                if step.contains(k) {
                    let j = choose|j: int| 0 <= j < step.len() && step[j] == k;
                    if j < i {
                        assert(keys@.take(i as int)[j] == k);
                        assert(before.contains(k));
                        let q = choose|q: int| 0 <= q < before.len() && before[q] == k;
                        if there {
                            assert(out@[q] == k);
                        } else if q < p {
                            assert(out@[q] == k);
                        } else {
                            assert(out@[q + 1] == k);
                        }
                    } else {
                        assert(out@[p as int] == k);
                    }
                }
                if out@.contains(k) {
                    let q = choose|q: int| 0 <= q < out@.len() && out@[q] == k;
                    if there {
                        assert(before[q] == k);
                        assert(before.contains(k));
                    } else if q < p {
                        assert(before[q] == k);
                        assert(before.contains(k));
                    } else if q > p {
                        assert(before[q - 1] == k);
                        assert(before.contains(k));
                    } else {
                        assert(step[i as int] == k);
                    }
                    if before.contains(k) {
                        let j = choose|j: int|
                            0 <= j < keys@.take(i as int).len() && keys@.take(i as int)[j] == k;
                        assert(step[j] == k);
                    }
                }
            }
        }
        i = i + 1;
    }
    assert(keys@.take(keys@.len() as int) == keys@);
    out
}

/// How far the search for the devices below one is.
pub struct LeafModel {
    pub visited: Set<Seq<char>>,
    pub waiting: Seq<Seq<char>>,
    pub keys: Seq<DeviceKey>,
}

/// The search with the next name taken: the last one waiting that was not
/// visited.
pub open spec fn after_take(m: LeafModel) -> LeafModel
    decreases m.waiting.len(),
{
    if m.waiting.len() == 0 {
        m
    } else {
        let rest = LeafModel { waiting: m.waiting.drop_last(), ..m };
        if m.visited.contains(m.waiting.last()) {
            after_take(rest)
        } else {
            LeafModel { visited: m.visited.insert(m.waiting.last()), ..rest }
        }
    }
}

/// The next name of a search.
pub open spec fn next_name(m: LeafModel) -> Option<Seq<char>>
    decreases m.waiting.len(),
{
    if m.waiting.len() == 0 {
        None
    } else if m.visited.contains(m.waiting.last()) {
        next_name(LeafModel { waiting: m.waiting.drop_last(), ..m })
    } else {
        Some(m.waiting.last())
    }
}

/// The names that are not empty.
pub open spec fn real_names(names: Seq<Seq<char>>) -> Seq<Seq<char>>
    decreases names.len(),
{
    if names.len() == 0 {
        names
    } else {
        let rest = real_names(names.drop_last());
        if names.last().len() > 0 {
            rest.push(names.last())
        } else {
            rest
        }
    }
}

/// The search with what was found at a name: those below it, or, where there is
/// nothing below, its own device.
pub open spec fn after_found(m: LeafModel, below: Seq<Seq<char>>, key: Option<DeviceKey>) -> LeafModel {
    let names = real_names(below);
    if names.len() > 0 {
        LeafModel { waiting: m.waiting + names, ..m }
    } else {
        match key {
            Some(k) => LeafModel { keys: m.keys.push(k), ..m },
            None => m,
        }
    }
}

/// The search for the devices that a block device is made of.
pub struct LeafWalk {
    visited: NameSet,
    waiting: Vec<String>,
    keys: Vec<DeviceKey>,
}

impl View for LeafWalk {
    type V = LeafModel;

    closed spec fn view(&self) -> LeafModel {
        LeafModel {
            visited: self.visited@,
            waiting: text::texts(self.waiting@),
            keys: self.keys@,
        }
    }
}

impl LeafWalk {
    pub closed spec fn wf(&self) -> bool {
        self.visited.wf()
    }

    /// A search that starts at a name.
    pub fn new(name: &str) -> (r: LeafWalk)
        ensures
            r.wf(),
            r@ == (LeafModel {
                visited: Set::empty(),
                waiting: seq![name@],
                keys: Seq::empty(),
            }),
    {
        let mut waiting: Vec<String> = Vec::new();
        waiting.push(text::copy(name));
        assert(text::texts(waiting@) == seq![name@]);
        LeafWalk { visited: NameSet::new(), waiting, keys: Vec::new() }
    }

    /// Takes the next name to look at.
    pub fn next(&mut self) -> (r: Option<String>)
        requires
            old(self).wf(),
        ensures
            final(self).wf(),
            crate::paths::opt_text(r) == next_name(old(self)@),
            final(self)@ == after_take(old(self)@),
    {
        let ghost start = self@;
        while self.waiting.len() > 0
            invariant
                self.wf(),
                start == old(self)@,
                next_name(self@) == next_name(start),
                after_take(self@) == after_take(start),
            decreases self.waiting@.len(),
        {
            let ghost before = self@;
            match self.waiting.pop() {
                Some(name) => {
                    assert(before.waiting.last() == name@);
                    assert(text::texts(self.waiting@) == before.waiting.drop_last());
                    assert(self@ == (LeafModel { waiting: before.waiting.drop_last(), ..before }));
                    if !self.visited.contains(name.as_str()) {
                        self.visited.insert(name.clone());
                        assert(self@ == after_take(start));
                        return Some(name);
                    }
                },
                None => {},
            }
        }
        assert(self@.waiting.len() == 0);
        None
    }

    /// Takes in what was found at a name.
    pub fn found(&mut self, below: &Vec<String>, key: Option<DeviceKey>)
        requires
            old(self).wf(),
        ensures
            final(self).wf(),
            final(self)@ == after_found(old(self)@, text::texts(below@), key),
    {
        let ghost start = self@;
        let ghost names = text::texts(below@);
        let mut any = false;
        let mut i: usize = 0;
        assert(names.take(0) == Seq::<Seq<char>>::empty());
        assert(start.waiting + real_names(names.take(0)) == start.waiting);
        while i < below.len()
            invariant
                i <= below@.len(),
                self.wf(),
                names == text::texts(below@),
                self@ == (LeafModel {
                    waiting: start.waiting + real_names(names.take(i as int)),
                    ..start
                }),
                any == (real_names(names.take(i as int)).len() > 0),
            decreases below@.len() - i,
        {
            let ghost step = names.take(i + 1);
            assert(step.drop_last() == names.take(i as int));
            assert(step.last() == below@[i as int]@);
            if !below[i].as_str().is_empty() {
                let ghost before = self@.waiting;
                self.waiting.push(below[i].clone());
                assert(text::texts(self.waiting@) == before.push(step.last()));
                assert(before.push(step.last()) == start.waiting + real_names(step));
                any = true;
            }
            i = i + 1;
        }
        assert(names.take(names.len() as int) == names);
        if !any {
            assert(start.waiting + real_names(names) == start.waiting);
            if let Some(k) = key {
                self.keys.push(k);
            }
        }
        assert(self@ == after_found(start, names, key));
    }

    /// Ends a search: each device once, in order. Where none was found, the one
    /// that is given instead.
    pub fn finish(self, instead: Option<DeviceKey>) -> (r: Vec<DeviceKey>)
        ensures
            is_ascending(r@),
            forall|k: DeviceKey| #[trigger]
                r@.contains(k) <==> (self@.keys.contains(k) || (self@.keys.len() == 0 && instead
                    == Some(k))),
    {
        let mut keys = self.keys;
        if keys.len() == 0 {
            if let Some(k) = instead {
                keys.push(k);
                assert(keys@[0] == k);
            }
        }
        let r = unique_keys(&keys);
        r
    }
}

/// No device is looked at twice.
pub proof fn law_no_device_is_visited_twice(m: LeafModel)
    ensures
        next_name(m) is Some ==> !m.visited.contains(next_name(m)->0) && after_take(
            m,
        ).visited.contains(next_name(m)->0),
    decreases m.waiting.len(),
{
    if m.waiting.len() > 0 && m.visited.contains(m.waiting.last()) {
        law_no_device_is_visited_twice(LeafModel { waiting: m.waiting.drop_last(), ..m });
    }
}

/// Names are kept if they are not empty.
pub proof fn law_empty_names_are_dropped(names: Seq<Seq<char>>, n: Seq<char>)
    ensures
        real_names(names).contains(n) <==> names.contains(n) && n.len() > 0,
    decreases names.len(),
{
    if names.len() > 0 {
        let less = names.drop_last();
        let rest = real_names(less);
        let all = real_names(names);
        law_empty_names_are_dropped(less, n);
        assert(names == less.push(names.last()));
        if all.contains(n) {
            let i = choose|i: int| 0 <= i < all.len() && all[i] == n;
            if i < rest.len() {
                assert(rest[i] == n);
                let k = choose|k: int| 0 <= k < less.len() && less[k] == n;
                assert(names[k] == n);
            } else {
                assert(names[names.len() - 1] == n);
            }
        }
        if names.contains(n) && n.len() > 0 {
            let i = choose|i: int| 0 <= i < names.len() && names[i] == n;
            if i < less.len() {
                assert(less[i] == n);
                let k = choose|k: int| 0 <= k < rest.len() && rest[k] == n;
                assert(all[k] == n);
            } else {
                assert(all[all.len() - 1] == n);
            }
        }
    }
}

/// Taking a name loses none that waits: each of them still waits or has been visited. A
/// search ends if and only if all that wait have been visited.
pub proof fn law_no_waiting_name_is_lost(m: LeafModel, i: int)
    requires
        0 <= i < m.waiting.len(),
    ensures
        after_take(m).waiting.contains(m.waiting[i]) || after_take(m).visited.contains(m.waiting[i]),
        next_name(m) is None ==> m.visited.contains(m.waiting[i]),
        !m.visited.contains(m.waiting[i]) ==> next_name(m) is Some,
        next_name(m) is Some ==> m.waiting.contains(next_name(m)->0),
        after_take(m).keys == m.keys,
    decreases m.waiting.len(),
{
    let rest = LeafModel { waiting: m.waiting.drop_last(), ..m };
    let x = m.waiting.last();
    if m.visited.contains(x) {
        lemma_visited_stays(rest, x);
        if i < rest.waiting.len() {
            assert(rest.waiting[i] == m.waiting[i]);
            law_no_waiting_name_is_lost(rest, i);
        } else if rest.waiting.len() > 0 {
            law_no_waiting_name_is_lost(rest, 0);
        }
        if next_name(rest) is Some {
            let k = choose|k: int|
                0 <= k < rest.waiting.len() && rest.waiting[k] == next_name(rest)->0;
            assert(m.waiting[k] == next_name(rest)->0);
        }
    } else {
        assert(m.waiting[m.waiting.len() - 1] == x);
        if i < rest.waiting.len() {
            assert(rest.waiting[i] == m.waiting[i]);
        }
    }
}

proof fn lemma_visited_stays(m: LeafModel, n: Seq<char>)
    requires
        m.visited.contains(n),
    ensures
        after_take(m).visited.contains(n),
    decreases m.waiting.len(),
{
    if m.waiting.len() > 0 && m.visited.contains(m.waiting.last()) {
        lemma_visited_stays(LeafModel { waiting: m.waiting.drop_last(), ..m }, n);
    }
}

/// A device with others below it is made of those, which are looked at next; one with
/// nothing below it is itself one that is looked for.
pub proof fn law_devices_are_made_of_those_below(
    m: LeafModel,
    below: Seq<Seq<char>>,
    key: Option<DeviceKey>,
    i: int,
)
    requires
        0 <= i < below.len(),
    ensures
        below[i].len() > 0 ==> after_found(m, below, key).waiting.contains(below[i])
            && after_found(m, below, key).keys == m.keys,
        (forall|k: int| 0 <= k < below.len() ==> (#[trigger] below[k]).len() == 0) ==> after_found(
            m,
            below,
            key,
        ).waiting == m.waiting && (key matches Some(d) ==> after_found(m, below, key).keys
            == m.keys + seq![d]),
        after_found(m, below, key).visited == m.visited,
{
    let names = real_names(below);
    law_empty_names_are_dropped(below, below[i]);
    assert(below.contains(below[i]));
    if below[i].len() > 0 {
        let k = choose|k: int| 0 <= k < names.len() && names[k] == below[i];
        assert((m.waiting + names)[m.waiting.len() + k] == below[i]);
    }
    if forall|k: int| 0 <= k < below.len() ==> (#[trigger] below[k]).len() == 0 {
        if names.len() > 0 {
            law_empty_names_are_dropped(below, names[0]);
            assert(names.contains(names[0]));
            let k = choose|k: int| 0 <= k < below.len() && below[k] == names[0];
            assert(below[k].len() == 0);
        }
    }
}

/// Devices stand in order of their major numbers, and of their minor ones where those are
/// alike: of two, one stands before the other.
pub proof fn law_devices_are_ordered_by_number(a: DeviceKey, b: DeviceKey)
    ensures
        a.0 < b.0 ==> key_before(a, b) && !key_before(b, a),
        a.0 == b.0 ==> (key_before(a, b) <==> a.1 < b.1),
        !key_before(a, a),
        a != b ==> key_before(a, b) || key_before(b, a),
{
}

} // verus!
