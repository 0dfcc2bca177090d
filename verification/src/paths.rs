//! Paths as text: components, parents, relative names.
//!
//! Paths are compared component by component, as the file system sees them:
//! repeated slashes and `.` components make no difference.

use crate::changes;
use crate::text;
use vstd::prelude::*;

verus! {

/// A piece between slashes that names something.
pub open spec fn is_name(piece: Seq<char>) -> bool {
    piece.len() > 0 && piece != "."@
}

/// The components of a path: the root, a leading `.`, and the names.
pub open spec fn comps(s: Seq<char>) -> Seq<Seq<char>> {
    let pieces = text::split_on(s, '/');
    let lead = if s.len() > 0 && s[0] == '/' {
        seq!["/"@]
    } else if pieces[0] == "."@ {
        seq!["."@]
    } else {
        Seq::empty()
    };
    lead + pieces.filter(|p: Seq<char>| is_name(p))
}

/// Splits a path into components.
pub fn components(s: &[char]) -> (r: Vec<Vec<char>>)
    ensures
        text::rows(r@) == comps(s@),
{
    let pieces = text::split(s, '/');
    let ghost all = text::split_on(s@, '/');
    proof {
        text::lemma_split_on_nonempty(s@, '/');
        assert(all[0] == pieces@[0]@);
    }
    let mut out: Vec<Vec<char>> = Vec::new();
    if s.len() > 0 && s[0] == '/' {
        out.push(text::to_chars("/"));
    } else if text::is_text(pieces[0].as_slice(), ".") {
        out.push(text::to_chars("."));
    }
    let ghost lead = text::rows(out@);
    let ghost named = |p: Seq<char>| is_name(p);
    assert(lead == (if s@.len() > 0 && s@[0] == '/' {
        seq!["/"@]
    } else if all[0] == "."@ {
        seq!["."@]
    } else {
        Seq::empty()
    }));
    let mut i: usize = 0;
    assert(all.take(0).filter(named) == Seq::<Seq<char>>::empty()) by {
        reveal(Seq::filter);
    }
    while i < pieces.len()
        invariant
            i <= pieces@.len(),
            all == text::rows(pieces@),
            named == (|p: Seq<char>| is_name(p)),
            text::rows(out@) == lead + all.take(i as int).filter(named),
        decreases pieces@.len() - i,
    {
        let piece = &pieces[i];
        assert(all[i as int] == piece@);
        assert(all.take(i + 1).drop_last() == all.take(i as int));
        assert(all.take(i + 1).filter(named) == if named(piece@) {
            all.take(i as int).filter(named).push(piece@)
        } else {
            all.take(i as int).filter(named)
        }) by {
            reveal(Seq::filter);
        }
        let ghost before = text::rows(out@);
        if piece.len() > 0 && !text::is_text(piece.as_slice(), ".") {
            let copy = text::part(piece.as_slice(), 0, piece.len());
            assert(copy@ == piece@);
            out.push(copy);
            assert(text::rows(out@) == before.push(piece@));
        }
        i = i + 1;
    }
    assert(all.take(all.len() as int) == all);
    out
}

/// The text of a component sequence.
pub open spec fn rendered(parts: Seq<Seq<char>>) -> Seq<char> {
    if parts.len() > 0 && parts[0] == "/"@ {
        "/"@ + text::joined(parts.skip(1), "/"@)
    } else {
        text::joined(parts, "/"@)
    }
}

/// Writes a component sequence.
pub fn render(parts: &[Vec<char>]) -> (r: Vec<char>)
    ensures
        r@ == rendered(text::rows(parts@)),
{
    let slash = text::to_chars("/");
    let ghost all = text::rows(parts@);
    if parts.len() > 0 && text::is_text(parts[0].as_slice(), "/") {
        assert(all[0] == parts@[0]@);
        let rest = tail(parts, 1);
        let mut out = text::to_chars("/");
        let names = text::join(rest.as_slice(), slash.as_slice());
        text::extend(&mut out, names.as_slice());
        out
    } else {
        assert(parts@.len() > 0 ==> all[0] == parts@[0]@);
        text::join(parts, slash.as_slice())
    }
}

/// A copy of the components from `from` on.
pub fn tail(parts: &[Vec<char>], from: usize) -> (r: Vec<Vec<char>>)
    requires
        from <= parts@.len(),
    ensures
        text::rows(r@) == text::rows(parts@).skip(from as int),
{
    between(parts, from, parts.len())
}

/// A copy of the components from `from` up to `to`.
pub fn between(parts: &[Vec<char>], from: usize, to: usize) -> (r: Vec<Vec<char>>)
    requires
        from <= to <= parts@.len(),
    ensures
        text::rows(r@) == text::rows(parts@).subrange(from as int, to as int),
{
    let ghost all = text::rows(parts@);
    let mut out: Vec<Vec<char>> = Vec::new();
    let mut i: usize = from;
    while i < to
        invariant
            from <= i <= to <= parts@.len(),
            all == text::rows(parts@),
            text::rows(out@) == all.subrange(from as int, i as int),
        decreases to - i,
    {
        let copy = text::part(parts[i].as_slice(), 0, parts[i].len());
        assert(copy@ == parts@[i as int]@);
        assert(all[i as int] == parts@[i as int]@);
        let ghost before = text::rows(out@);
        out.push(copy);
        assert(text::rows(out@) == before.push(copy@));
        assert(all.subrange(from as int, i + 1) == all.subrange(from as int, i as int).push(
            all[i as int],
        ));
        i = i + 1;
    }
    out
}

/// Whether two paths have the same components.
pub open spec fn same_path(a: Seq<char>, b: Seq<char>) -> bool {
    comps(a) == comps(b)
}

/// Whether `b` is `a` or an ancestor of `a`.
pub open spec fn under(a: Seq<char>, b: Seq<char>) -> bool {
    comps(b).len() <= comps(a).len() && comps(a).take(comps(b).len() as int) == comps(b)
}

/// The components of `a` below its ancestor `b`.
pub open spec fn below(a: Seq<char>, b: Seq<char>) -> Seq<Seq<char>> {
    comps(a).skip(comps(b).len() as int)
}

/// Compares component sequences up to a length.
fn prefix_of(short: &[Vec<char>], long: &[Vec<char>]) -> (r: bool)
    ensures
        r == (text::rows(short@).len() <= text::rows(long@).len() && text::rows(long@).take(
            short@.len() as int,
        ) == text::rows(short@)),
{
    if short.len() > long.len() {
        return false;
    }
    let ghost a = text::rows(short@);
    let ghost b = text::rows(long@);
    let mut i: usize = 0;
    while i < short.len()
        invariant
            i <= short@.len() <= long@.len(),
            a == text::rows(short@),
            b == text::rows(long@),
            forall|k: int| 0 <= k < i ==> a[k] == b[k],
        decreases short@.len() - i,
    {
        assert(a[i as int] == short@[i as int]@ && b[i as int] == long@[i as int]@);
        if !text::same(short[i].as_slice(), long[i].as_slice()) {
            assert(b.take(short@.len() as int)[i as int] != a[i as int]);
            return false;
        }
        i = i + 1;
    }
    assert(b.take(short@.len() as int) == a);
    true
}

/// Tests whether two paths have the same components.
pub fn paths_equal(a: &str, b: &str) -> (r: bool)
    ensures
        r == same_path(a@, b@),
{
    let left = components(text::to_chars(a).as_slice());
    let right = components(text::to_chars(b).as_slice());
    assert(comps(a@).take(comps(a@).len() as int) == comps(a@));
    left.len() == right.len() && prefix_of(right.as_slice(), left.as_slice())
}

/// Tests whether `b` is `a` or an ancestor of `a`.
pub fn path_under(a: &str, b: &str) -> (r: bool)
    ensures
        r == under(a@, b@),
{
    let left = components(text::to_chars(a).as_slice());
    let right = components(text::to_chars(b).as_slice());
    prefix_of(right.as_slice(), left.as_slice())
}

/// The relative path from an ancestor, with single slashes between its names.
pub fn relative_to(a: &str, b: &str) -> (r: Option<String>)
    ensures
        match r {
            Some(rel) => under(a@, b@) && rel@ == text::joined(below(a@, b@), "/"@),
            None => !under(a@, b@),
        },
{
    let left = components(text::to_chars(a).as_slice());
    let right = components(text::to_chars(b).as_slice());
    if !prefix_of(right.as_slice(), left.as_slice()) {
        return None;
    }
    let rest = tail(left.as_slice(), right.len());
    let slash = text::to_chars("/");
    Some(text::from_chars(text::join(rest.as_slice(), slash.as_slice()).as_slice()))
}

/// The components of a path joined with single slashes.
pub fn normalize_rel(path: &str) -> (r: String)
    ensures
        r@ == text::joined(comps(path@), "/"@),
{
    let parts = components(text::to_chars(path).as_slice());
    let slash = text::to_chars("/");
    text::from_chars(text::join(parts.as_slice(), slash.as_slice()).as_slice())
}

/// The last component, where it is a name.
pub open spec fn last_name(s: Seq<char>) -> Option<Seq<char>> {
    let parts = comps(s);
    if parts.len() == 0 || parts.last() == "/"@ || parts.last() == "."@ || parts.last() == ".."@ {
        None
    } else {
        Some(parts.last())
    }
}

/// The view of an optional string.
pub open spec fn opt_text(s: Option<String>) -> Option<Seq<char>> {
    match s {
        Some(t) => Some(t@),
        None => None,
    }
}

/// The name of the file or directory that a path ends in.
pub fn file_name(path: &str) -> (r: Option<String>)
    ensures
        opt_text(r) == last_name(path@),
{
    let parts = components(text::to_chars(path).as_slice());
    let ghost all = text::rows(parts@);
    if parts.len() == 0 {
        return None;
    }
    let last = &parts[parts.len() - 1];
    assert(all.last() == last@);
    if text::is_text(last.as_slice(), "/") || text::is_text(last.as_slice(), ".")
        || text::is_text(last.as_slice(), "..") {
        return None;
    }
    Some(text::from_chars(last.as_slice()))
}

/// The path without its last component; none for the root and for the empty
/// path.
pub open spec fn parent_of(s: Seq<char>) -> Option<Seq<char>> {
    let parts = comps(s);
    if parts.len() == 0 || parts.last() == "/"@ {
        None
    } else {
        Some(rendered(parts.drop_last()))
    }
}

/// The parent of a path.
pub fn parent(path: &str) -> (r: Option<String>)
    ensures
        opt_text(r) == parent_of(path@),
{
    let parts = components(text::to_chars(path).as_slice());
    let ghost all = text::rows(parts@);
    if parts.len() == 0 {
        return None;
    }
    let n: usize = parts.len() - 1;
    assert(all.last() == parts@[n as int]@);
    if text::is_text(parts[n].as_slice(), "/") {
        return None;
    }
    let head = between(parts.as_slice(), 0, n);
    assert(all.subrange(0, n as int) == all.drop_last());
    Some(text::from_chars(render(head.as_slice()).as_slice()))
}

/// `name` below `base`; an absolute name stands for itself.
pub open spec fn joined_path(base: Seq<char>, name: Seq<char>) -> Seq<char> {
    if name.len() > 0 && name[0] == '/' || base.len() == 0 {
        name
    } else if base.last() == '/' {
        base + name
    } else {
        base.push('/') + name
    }
}

/// Joins a name to a path.
pub fn join_path(base: &str, name: &str) -> (r: String)
    ensures
        r@ == joined_path(base@, name@),
{
    let head = text::to_chars(base);
    let rest = text::to_chars(name);
    if (rest.len() > 0 && rest[0] == '/') || head.len() == 0 {
        return text::from_chars(rest.as_slice());
    }
    let mut out = text::from_chars(head.as_slice());
    if head[head.len() - 1] != '/' {
        out.push('/');
    }
    out.push_str(name);
    out
}

/// `s` without leading repetitions of `p`.
pub open spec fn skip_repeated(s: Seq<char>, p: Seq<char>) -> Seq<char>
    decreases s.len(),
{
    if p.len() > 0 && text::begins(s, p) {
        skip_repeated(s.skip(p.len() as int), p)
    } else {
        s
    }
}

/// Drops leading repetitions of `p`.
pub fn strip_repeated(s: &[char], p: &[char]) -> (r: Vec<char>)
    ensures
        r@ == skip_repeated(s@, p@),
{
    let mut rest = text::part(s, 0, s.len());
    assert(rest@ == s@);
    while p.len() > 0 && text::begins_with(rest.as_slice(), p)
        invariant
            skip_repeated(rest@, p@) == skip_repeated(s@, p@),
        decreases rest@.len(),
    {
        let next = text::part(rest.as_slice(), p.len(), rest.len());
        assert(next@ == rest@.skip(p@.len() as int));
        rest = next;
    }
    rest
}

/// The first name of a relative path, past any leading `./` and slashes.
pub open spec fn top_name(rel: Seq<char>) -> Option<Seq<char>> {
    let trimmed = skip_repeated(skip_repeated(rel, "./"@), "/"@);
    let first = trimmed.take(text::find_char(trimmed, '/') as int);
    if first.len() == 0 {
        None
    } else {
        Some(first)
    }
}

/// The first name of a relative path.
pub fn top_level_rel_component(rel: &str) -> (r: Option<String>)
    ensures
        opt_text(r) == top_name(rel@),
{
    let chars = text::to_chars(rel);
    let dot = text::to_chars("./");
    let slash = text::to_chars("/");
    let undotted = strip_repeated(chars.as_slice(), dot.as_slice());
    let trimmed = strip_repeated(undotted.as_slice(), slash.as_slice());
    let end: usize = text::find(trimmed.as_slice(), '/');
    let first = text::part(trimmed.as_slice(), 0, end);
    assert(first@ == trimmed@.take(end as int));
    if first.len() == 0 {
        None
    } else {
        Some(text::from_chars(first.as_slice()))
    }
}

/// Whether `rel` is `prefix` or lies below it.
pub open spec fn matches_prefix(rel: Seq<char>, prefix: Seq<char>) -> bool {
    rel == prefix || text::begins(rel, prefix.push('/'))
}

/// Tests whether a relative path is `prefix` or lies below it.
pub fn rel_matches_prefix(rel: &str, prefix: &str) -> (r: bool)
    ensures
        r == matches_prefix(rel@, prefix@),
{
    let chars = text::to_chars(rel);
    let mut head = text::to_chars(prefix);
    if text::same(chars.as_slice(), head.as_slice()) {
        return true;
    }
    head.push('/');
    text::begins_with(chars.as_slice(), head.as_slice())
}

/// What lies below something below `prefix` lies below `prefix`.
pub proof fn law_prefix_is_transitive(a: Seq<char>, b: Seq<char>, c: Seq<char>)
    requires
        matches_prefix(a, b),
        matches_prefix(b, c),
    ensures
        matches_prefix(a, c),
{
    if a != b && b != c {
        assert(a.take(b.len() as int + 1) == b.push('/'));
        assert(b.take(c.len() as int + 1) == c.push('/'));
        assert(a.take(c.len() as int + 1) == a.take(b.len() as int + 1).take(c.len() as int + 1));
        assert(b.push('/').take(c.len() as int + 1) == b.take(c.len() as int + 1));
    }
}

/// The directory part of a relative path, if it has one.
pub open spec fn rel_parent(rel: Seq<char>) -> Option<Seq<char>> {
    let at = text::rfind_char(rel, '/');
    if at < 0 {
        None
    } else {
        Some(rel.take(at))
    }
}

/// Where the source entry `rel` goes below `dst_base`.
pub open spec fn dest_path(
    include_root: bool,
    src_base: Seq<char>,
    rel: Seq<char>,
    dst_base: Seq<char>,
) -> Seq<char> {
    let base = if include_root {
        joined_path(dst_base, src_base)
    } else {
        dst_base
    };
    if rel.len() == 0 {
        base
    } else {
        joined_path(base, rel)
    }
}

/// Maps a source entry to its destination.
pub fn map_dir_dest_path(include_root: bool, src_base: &str, rel: &str, dst_base: &str) -> (r:
    String)
    ensures
        r@ == dest_path(include_root, src_base@, rel@, dst_base@),
{
    let base = if include_root {
        join_path(dst_base, src_base)
    } else {
        text::copy(dst_base)
    };
    if rel.is_empty() {
        base
    } else {
        join_path(base.as_str(), rel)
    }
}

/// The names in a relative path.
pub open spec fn names_in(rel: Seq<char>) -> Seq<Seq<char>> {
    text::split_on(rel, '/').filter(|p: Seq<char>| is_name(p))
}

/// Whether a path starts at the root.
pub open spec fn is_absolute(path: Seq<char>) -> bool {
    path.len() > 0 && path[0] == '/'
}

/// A path is split at a slash into what stands before it and behind it.
pub proof fn lemma_split_at_slash(s: Seq<char>, t: Seq<char>)
    ensures
        text::split_on(s.push('/') + t, '/') == text::split_on(s, '/') + text::split_on(t, '/'),
    decreases t.len(),
{
    let whole = s.push('/') + t;
    text::lemma_split_on_nonempty(s, '/');
    if t.len() == 0 {
        assert(whole == s.push('/'));
        assert(s.push('/').drop_last() == s);
    } else {
        let u = t.drop_last();
        lemma_split_at_slash(s, u);
        text::lemma_split_on_nonempty(u, '/');
        assert(whole.drop_last() == s.push('/') + u);
        assert(whole.last() == t.last());
        let before = text::split_on(s, '/') + text::split_on(u, '/');
        assert(before.last() == text::split_on(u, '/').last());
        assert(before.drop_last() == text::split_on(s, '/') + text::split_on(u, '/').drop_last());
    }
}

/// A relative name leads below the path that it is joined to: it adds its own
/// names to those of the path, and nothing else.
pub proof fn law_joining_goes_down(base: Seq<char>, name: Seq<char>)
    requires
        base.len() > 0,
        !is_absolute(name),
    ensures
        comps(joined_path(base, name)) == comps(base) + names_in(name),
        under(joined_path(base, name), base),
        below(joined_path(base, name), base) == names_in(name),
{
    let named = |p: Seq<char>| is_name(p);
    let whole = joined_path(base, name);
    let stem = if base.last() == '/' {
        base.drop_last()
    } else {
        base
    };
    assert(whole == stem.push('/') + name);
    lemma_split_at_slash(stem, name);
    text::lemma_split_on_nonempty(stem, '/');
    let pieces = text::split_on(stem, '/');
    Seq::filter_distributes_over_add(pieces, text::split_on(name, '/'), named);
    assert(text::split_on(base, '/').filter(named) == pieces.filter(named)) by {
        if base.last() == '/' {
            reveal(Seq::filter);
            assert(pieces.push(Seq::empty()).drop_last() == pieces);
        }
    }
    assert(text::split_on(base, '/')[0] == pieces[0]);
    assert(text::split_on(whole, '/')[0] == pieces[0]);
    assert(whole[0] == base[0]);
    let lead = if base[0] == '/' {
        seq!["/"@]
    } else if pieces[0] == "."@ {
        seq!["."@]
    } else {
        Seq::empty()
    };
    assert(comps(base) == lead + pieces.filter(named));
    assert(comps(whole) == lead + (pieces.filter(named) + text::split_on(name, '/').filter(named)));
    assert(comps(whole) == comps(base) + names_in(name));
    assert(comps(whole).take(comps(base).len() as int) == comps(base));
    assert(comps(whole).skip(comps(base).len() as int) == names_in(name));
}

/// What lies below a path are names.
pub proof fn lemma_names_below(a: Seq<char>, b: Seq<char>)
    requires
        b.len() > 0,
        under(a, b),
    ensures
        forall|i: int|
            0 <= i < below(a, b).len() ==> is_name(#[trigger] below(a, b)[i]) && !below(
                a,
                b,
            )[i].contains('/'),
{
    let named = |p: Seq<char>| is_name(p);
    assert(comps(b).len() > 0) by {
        let pieces = text::split_on(b, '/');
        text::lemma_split_on_nonempty(b, '/');
        if b[0] != '/' && pieces[0] != "."@ {
            lemma_first_piece(b);
            pieces.lemma_filter_contains(named, 0);
        }
    }
    let pieces = text::split_on(a, '/');
    let names = pieces.filter(named);
    changes::lemma_pieces_have_no_separator(a, '/');
    let parts = comps(a);
    let lead = parts.len() - names.len();
    let rest = below(a, b);
    assert forall|i: int| 0 <= i < rest.len() implies is_name(#[trigger] rest[i])
        && !rest[i].contains('/') by {
        let at = i + comps(b).len();
        assert(rest[i] == parts[at]);
        let name = names[at - lead];
        assert(parts[at] == name);
        assert(names.contains(name));
        pieces.lemma_filter_contains_rev(named, name);
        let k = choose|k: int| 0 <= k < pieces.len() && pieces[k] == name;
        assert(!pieces[k].contains('/'));
        assert(named(name));
    }
}

proof fn lemma_first_piece(s: Seq<char>)
    requires
        s.len() > 0,
        s[0] != '/',
    ensures
        text::split_on(s, '/').len() > 0,
        text::split_on(s, '/')[0].len() > 0,
    decreases s.len(),
{
    let before = text::split_on(s.drop_last(), '/');
    text::lemma_split_on_nonempty(s.drop_last(), '/');
    if s.len() > 1 {
        lemma_first_piece(s.drop_last());
    }
}

/// A name without slashes is all that is in it.
pub proof fn lemma_single_name(name: Seq<char>)
    requires
        is_name(name),
        !name.contains('/'),
    ensures
        names_in(name) == seq![name],
        !is_absolute(name),
{
    reveal(Seq::filter);
    let named = |p: Seq<char>| is_name(p);
    let none = Seq::<Seq<char>>::empty();
    let empty = Seq::<char>::empty();
    changes::lemma_split_append(empty, name, '/');
    assert(empty + name == name);
    assert(text::split_on(empty, '/') == seq![empty]);
    assert(text::split_on(name, '/') == seq![name]);
    assert(none.filter(named) == none);
    assert(seq![name].drop_last() == none);
    assert(seq![name].filter(named) == none.push(name));
    if is_absolute(name) {
        assert(name.contains('/'));
    }
}

/// Every entry of a source goes below the destination, under the source's own
/// name where that is kept.
pub proof fn law_entries_go_below_the_destination(
    include_root: bool,
    src_base: Seq<char>,
    rel: Seq<char>,
    dst_base: Seq<char>,
)
    requires
        dst_base.len() > 0,
        !is_absolute(src_base),
        !is_absolute(rel),
    ensures
        under(dest_path(include_root, src_base, rel, dst_base), dst_base),
        below(dest_path(include_root, src_base, rel, dst_base), dst_base) == (if include_root {
            names_in(src_base)
        } else {
            Seq::empty()
        }) + names_in(rel),
{
    let top = comps(dst_base);
    let base = if include_root {
        joined_path(dst_base, src_base)
    } else {
        dst_base
    };
    let middle = if include_root {
        names_in(src_base)
    } else {
        Seq::empty()
    };
    if include_root {
        law_joining_goes_down(dst_base, src_base);
    }
    assert(comps(base) == top + middle);
    if rel.len() > 0 {
        law_joining_goes_down(base, rel);
    } else {
        reveal(Seq::filter);
        let named = |p: Seq<char>| is_name(p);
        let none = Seq::<Seq<char>>::empty();
        assert(none.filter(named) == none);
        assert(text::split_on(rel, '/').drop_last() == none);
        assert(names_in(rel) == none);
    }
    let whole = comps(dest_path(include_root, src_base, rel, dst_base));
    assert(whole == top + middle + names_in(rel));
    assert(whole.take(top.len() as int) == top);
    assert(whole.skip(top.len() as int) == middle + names_in(rel));
}

/// Entries with different names do not meet at the destination.
pub proof fn law_entries_keep_apart(
    include_root: bool,
    src_base: Seq<char>,
    a: Seq<char>,
    b: Seq<char>,
    dst_base: Seq<char>,
)
    requires
        dst_base.len() > 0,
        !is_absolute(src_base),
        !is_absolute(a),
        !is_absolute(b),
        same_path(
            dest_path(include_root, src_base, a, dst_base),
            dest_path(include_root, src_base, b, dst_base),
        ),
    ensures
        names_in(a) == names_in(b),
{
    law_entries_go_below_the_destination(include_root, src_base, a, dst_base);
    law_entries_go_below_the_destination(include_root, src_base, b, dst_base);
    let middle = if include_root {
        names_in(src_base)
    } else {
        Seq::empty()
    };
    assert((middle + names_in(a)).skip(middle.len() as int) == names_in(a));
    assert((middle + names_in(b)).skip(middle.len() as int) == names_in(b));
}

/// How the source entry `rel` is shown in a preview.
pub open spec fn display_rel(include_root: bool, src_base: Seq<char>, rel: Seq<char>) -> Seq<
    char,
> {
    if include_root {
        src_base.push('/') + rel
    } else {
        rel
    }
}

/// Names a source entry for a preview.
pub fn map_display_rel(include_root: bool, src_base: &str, rel: &str) -> (r: String)
    ensures
        r@ == display_rel(include_root, src_base@, rel@),
{
    let mut out = String::new();
    if include_root {
        out.push_str(src_base);
        out.push('/');
    }
    out.push_str(rel);
    assert(out@ == display_rel(include_root, src_base@, rel@));
    out
}

/// A sequence as the components of a path are: the root, a dot or a name, and names behind
/// it.
pub open spec fn is_component_list(parts: Seq<Seq<char>>) -> bool {
    forall|i: int|
        0 <= i < parts.len() ==> (i == 0 && (#[trigger] parts[i] == "/"@ || parts[i] == "."@)) || (
        is_name(parts[i]) && !parts[i].contains('/'))
}

/// The components of a path are the root or a dot, if it begins with one, and names without
/// slashes.
pub proof fn law_components_are_names(s: Seq<char>)
    ensures
        is_component_list(comps(s)),
        comps(s).len() > 0 && comps(s)[0] == "/"@ <==> is_absolute(s),
{
    let pieces = text::split_on(s, '/');
    let named = |p: Seq<char>| is_name(p);
    let names = pieces.filter(named);
    changes::lemma_pieces_have_no_separator(s, '/');
    let parts = comps(s);
    reveal_strlit(".");
    reveal_strlit("/");
    let lead = parts.len() - names.len();
    assert forall|i: int| 0 <= i < parts.len() implies (i == 0 && (#[trigger] parts[i] == "/"@
        || parts[i] == "."@)) || (is_name(parts[i]) && !parts[i].contains('/')) by {
        if i >= lead {
            let name = names[i - lead];
            assert(parts[i] == name);
            assert(names.contains(name));
            pieces.lemma_filter_contains_rev(named, name);
            let k = choose|k: int| 0 <= k < pieces.len() && pieces[k] == name;
            assert(!pieces[k].contains('/'));
            assert(named(name));
        }
    }
    assert("/"@.contains('/')) by {
        assert("/"@[0] == '/');
    }
    assert("."@[0] != "/"@[0]);
    if parts.len() > 0 && parts[0] == "/"@ && !is_absolute(s) {
        if lead == 0 {
            let name = names[0];
            assert(names.contains(name));
            pieces.lemma_filter_contains_rev(named, name);
            let k = choose|k: int| 0 <= k < pieces.len() && pieces[k] == name;
            assert(!pieces[k].contains('/'));
        }
    }
}

proof fn lemma_lead_alone(parts: Seq<Seq<char>>)
    requires
        parts.len() == 1,
        is_component_list(parts),
    ensures
        comps(rendered(parts)) == parts,
        rendered(parts).len() > 0,
        parts[0] != "/"@ ==> rendered(parts).last() != '/',
{
    reveal(Seq::filter);
    reveal_strlit(".");
    reveal_strlit("/");
    let named = |p: Seq<char>| is_name(p);
    let none = Seq::<Seq<char>>::empty();
    let empty = Seq::<char>::empty();
    let x = parts[0];
    assert(text::split_on(empty, '/') == seq![empty]);
    assert(none.filter(named) == none);
    if x == "/"@ {
        assert(parts.skip(1) == none);
        assert(text::joined(none, "/"@) == empty);
        assert(rendered(parts) == "/"@);
        let s = "/"@;
        assert(s.drop_last() == empty);
        assert(s.last() == '/');
        let pieces = text::split_on(s, '/');
        assert(pieces == seq![empty].push(empty));
        assert(pieces.drop_last() == seq![empty]);
        assert(seq![empty].drop_last() == none);
        assert(seq![empty].filter(named) == none);
        assert(pieces.filter(named) == none);
        assert(comps(s) == seq!["/"@] + none);
    } else {
        assert(rendered(parts) == x);
        if x == "."@ {
            assert(!x.contains('/'));
        }
        assert(!x.contains('/'));
        changes::lemma_split_append(empty, x, '/');
        assert(empty + x == x);
        let pieces = text::split_on(x, '/');
        assert(pieces == seq![x]);
        assert(seq![x].drop_last() == none);
        assert(x[0] != '/') by {
            if x[0] == '/' {
                assert(x.contains('/'));
            }
        }
        assert(x.last() != '/') by {
            if x.last() == '/' {
                assert(x[x.len() - 1] == '/');
                assert(x.contains('/'));
            }
        }
        if x == "."@ {
            assert(pieces.filter(named) == none);
        } else {
            assert(pieces.filter(named) == none.push(x));
        }
        assert(comps(x) == parts);
    }
}

/// A path that is written from components has these components.
pub proof fn law_written_components_are_read_back(parts: Seq<Seq<char>>)
    requires
        is_component_list(parts),
        parts.len() > 0,
    ensures
        comps(rendered(parts)) == parts,
        rendered(parts).len() > 0,
        parts.len() > 1 || parts[0] != "/"@ ==> rendered(parts).last() != '/',
    decreases parts.len(),
{
    reveal_strlit("/");
    if parts.len() == 1 {
        lemma_lead_alone(parts);
    } else {
        let front = parts.drop_last();
        let n = parts.last();
        assert(is_component_list(front)) by {
            assert forall|i: int| 0 <= i < front.len() implies (i == 0 && (#[trigger] front[i]
                == "/"@ || front[i] == "."@)) || (is_name(front[i]) && !front[i].contains('/')) by {
                assert(front[i] == parts[i]);
            }
        }
        assert(is_name(parts[parts.len() - 1]) && !parts[parts.len() - 1].contains('/'));
        law_written_components_are_read_back(front);
        lemma_single_name(n);
        let base = rendered(front);
        assert(rendered(parts) == joined_path(base, n)) by {
            if parts[0] == "/"@ {
                let rest = parts.skip(1);
                assert(rest.last() == n);
                assert(rest.drop_last() == front.skip(1));
                if front.len() == 1 {
                    assert(front.skip(1).len() == 0);
                    assert(text::joined(front.skip(1), "/"@) == Seq::<char>::empty());
                    assert(base == "/"@);
                    assert(rest.len() == 1);
                    assert(text::joined(rest, "/"@) == n);
                } else {
                    assert(text::joined(rest, "/"@) == text::joined(rest.drop_last(), "/"@) + "/"@
                        + n);
                    assert(base.push('/') == base + "/"@);
                    assert(rendered(parts) == base + "/"@ + n);
                }
            } else {
                assert(text::joined(parts, "/"@) == text::joined(front, "/"@) + "/"@ + n);
                assert(base.push('/') == base + "/"@);
            }
        }
        law_joining_goes_down(base, n);
        assert(front + seq![n] == parts);
        assert(rendered(parts).last() == n.last());
        if n.last() == '/' {
            assert(n[n.len() - 1] == '/');
            assert(n.contains('/'));
        }
    }
}

/// The parent of a path and its last name make the path.
pub proof fn law_parent_and_name_make_the_path(s: Seq<char>)
    requires
        last_name(s) is Some,
    ensures
        parent_of(s) is Some,
        comps(parent_of(s)->0) + seq![last_name(s)->0] == comps(s) || (parent_of(s)->0).len() == 0,
        (parent_of(s)->0).len() == 0 ==> comps(s) == seq![last_name(s)->0],
{
    let parts = comps(s);
    let front = parts.drop_last();
    law_components_are_names(s);
    assert(parts == front.push(parts.last()));
    assert(front.push(parts.last()) == front + seq![parts.last()]);
    if front.len() > 0 {
        assert(is_component_list(front)) by {
            assert forall|i: int| 0 <= i < front.len() implies (i == 0 && (#[trigger] front[i]
                == "/"@ || front[i] == "."@)) || (is_name(front[i]) && !front[i].contains('/')) by {
                assert(front[i] == parts[i]);
            }
        }
        law_written_components_are_read_back(front);
    } else {
        assert(parts == seq![parts.last()]);
    }
}

/// Neither a slash at the end of a path nor a dot below it makes it another path.
pub proof fn law_slashes_and_dots_make_no_difference(s: Seq<char>)
    requires
        s.len() > 0,
    ensures
        same_path(s + "/"@, s),
        same_path(s + "/."@, s),
        same_path(s + "//"@, s),
{
    reveal(Seq::filter);
    reveal_strlit(".");
    reveal_strlit("/");
    reveal_strlit("/.");
    reveal_strlit("//");
    let named = |p: Seq<char>| is_name(p);
    let none = Seq::<Seq<char>>::empty();
    let empty = Seq::<char>::empty();
    assert(none.filter(named) == none);
    assert(text::split_on(empty, '/') == seq![empty]);
    assert(seq![empty].drop_last() == none);
    assert(names_in(empty) == none);
    lemma_slash_at_the_end(s);
    lemma_slash_at_the_end(s.push('/'));
    assert(s + "/"@ == s.push('/'));
    assert(s + "//"@ == s.push('/').push('/'));
    let dot = "."@;
    assert(!dot.contains('/'));
    changes::lemma_split_append(empty, dot, '/');
    assert(empty + dot == dot);
    assert(text::split_on(dot, '/') == seq![dot]);
    assert(seq![dot].drop_last() == none);
    assert(seq![dot].filter(named) == none);
    law_joining_goes_down(s.push('/'), dot);
    assert(joined_path(s.push('/'), dot) == s + "/."@);
    assert(comps(s.push('/')) + none == comps(s.push('/')));
}

proof fn lemma_slash_at_the_end(s: Seq<char>)
    requires
        s.len() > 0,
    ensures
        comps(s.push('/')) == comps(s),
{
    reveal(Seq::filter);
    let named = |p: Seq<char>| is_name(p);
    let t = s.push('/');
    let pieces = text::split_on(s, '/');
    text::lemma_split_on_nonempty(s, '/');
    assert(t.drop_last() == s);
    assert(text::split_on(t, '/') == pieces.push(Seq::empty()));
    assert(pieces.push(Seq::empty()).drop_last() == pieces);
    assert(text::split_on(t, '/').filter(named) == pieces.filter(named));
    assert(t[0] == s[0]);
    assert(text::split_on(t, '/')[0] == pieces[0]);
}

/// What lies below a relative path has it as its beginning, up to a slash; a longer name
/// with the same beginning does not lie below it.
pub proof fn law_prefixes_end_at_a_slash(prefix: Seq<char>, rest: Seq<char>)
    ensures
        matches_prefix(prefix + rest, prefix) <==> rest.len() == 0 || rest[0] == '/',
{
    let rel = prefix + rest;
    if rest.len() == 0 {
        assert(rel == prefix);
    } else {
        assert(rel.len() != prefix.len());
        assert(rel.take(prefix.len() as int + 1) == prefix.push(rest[0]));
        assert(prefix.push(rest[0]).last() == rest[0]);
        assert(prefix.push('/').last() == '/');
    }
}

/// A path without the beginning of another does not lie below it.
pub proof fn law_other_paths_do_not_match(rel: Seq<char>, prefix: Seq<char>)
    requires
        !text::begins(rel, prefix),
    ensures
        !matches_prefix(rel, prefix),
{
    if matches_prefix(rel, prefix) {
        if rel == prefix {
            assert(rel.take(prefix.len() as int) == prefix);
        } else {
            assert(rel.take(prefix.len() as int) == rel.take(prefix.len() as int + 1).take(
                prefix.len() as int,
            ));
            assert(prefix.push('/').take(prefix.len() as int) == prefix);
        }
    }
}

/// The first name of a relative path is what stands before its first slash.
pub proof fn law_the_first_name_comes_first(name: Seq<char>, rest: Seq<char>)
    requires
        is_name(name),
        !name.contains('/'),
    ensures
        top_name(name) == Some(name),
        top_name(name + "/"@ + rest) == Some(name),
        top_name("./"@ + name) == Some(name),
{
    reveal_strlit(".");
    reveal_strlit("/");
    reveal_strlit("./");
    assert forall|i: int| 0 <= i < name.len() implies #[trigger] name[i] != '/' by {
        if name[i] == '/' {
            assert(name.contains('/'));
        }
    }
    assert(name.take(name.len() as int) == name);
    assert((name + "/"@ + rest).take(name.len() as int) == name);
    lemma_first_name(name, name);
    lemma_first_name(name, name + "/"@ + rest);
    let dotted = "./"@ + name;
    assert(dotted.take(2) == "./"@);
    assert(dotted.skip(2) == name);
    assert(skip_repeated(dotted, "./"@) == skip_repeated(name, "./"@));
}

proof fn lemma_first_name(name: Seq<char>, s: Seq<char>)
    requires
        is_name(name),
        forall|i: int| 0 <= i < name.len() ==> #[trigger] name[i] != '/',
        text::begins(s, name),
        s.len() > name.len() ==> s[name.len() as int] == '/',
    ensures
        top_name(s) == Some(name),
        skip_repeated(s, "./"@) == s,
{
    reveal_strlit(".");
    reveal_strlit("/");
    reveal_strlit("./");
    assert(s.take(name.len() as int)[0] == name[0]);
    assert(s[0] == name[0]);
    if text::begins(s, "./"@) {
        assert(s.take(2)[0] == '.' && s.take(2)[1] == '/');
        assert(s[0] == '.' && s[1] == '/');
        if name.len() > 1 {
            assert(s.take(name.len() as int)[1] == name[1]);
        } else {
            assert(name == "."@);
        }
    }
    if text::begins(s, "/"@) {
        assert(s.take(1)[0] == '/');
    }
    text::lemma_find_char(s, '/');
    let at = text::find_char(s, '/') as int;
    if at < name.len() {
        assert(s.take(name.len() as int)[at] == name[at]);
        assert(s[at] == '/' || at == s.len());
    }
    if at > name.len() {
        assert(s[name.len() as int] != '/');
    }
    assert(at == name.len());
}

/// An entry is shown under the source's own name where that is kept, and else by itself.
pub proof fn law_shown_names_of_entries(include_root: bool, src_base: Seq<char>, rel: Seq<char>)
    ensures
        include_root ==> matches_prefix(display_rel(include_root, src_base, rel), src_base)
            && display_rel(include_root, src_base, rel).skip(src_base.len() as int + 1) == rel,
        !include_root ==> display_rel(include_root, src_base, rel) == rel,
{
    let shown = src_base.push('/') + rel;
    assert(shown.take(src_base.len() as int + 1) == src_base.push('/'));
    assert(shown.skip(src_base.len() as int + 1) == rel);
}

} // verus!
