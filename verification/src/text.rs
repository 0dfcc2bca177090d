//! Text primitives over sequences of characters.
//!
//! Strings cross the library's boundary as `&str` and `String`; inside, logic
//! works on slices of characters, whose model is `Seq<char>`.

use vstd::prelude::*;

verus! {

/// `String::push` appends one character.
pub assume_specification[ String::push ](s: &mut String, ch: char)
    ensures
        final(s)@ == old(s)@.push(ch),
;

/// `String::push_str` appends a string slice.
pub assume_specification[ String::push_str ](s: &mut String, string: &str)
    ensures
        final(s)@ == old(s)@ + string@,
;

/// The character sequences that a sequence of strings stands for.
pub open spec fn texts(v: Seq<String>) -> Seq<Seq<char>> {
    v.map_values(|s: String| s@)
}

/// The characters with Unicode's `White_Space` property.
pub open spec fn is_white(c: char) -> bool {
    let n = c as int;
    ||| 0x09 <= n <= 0x0d
    ||| n == 0x20
    ||| n == 0x85
    ||| n == 0xa0
    ||| n == 0x1680
    ||| 0x2000 <= n <= 0x200a
    ||| n == 0x2028
    ||| n == 0x2029
    ||| n == 0x202f
    ||| n == 0x205f
    ||| n == 0x3000
}

/// Tests for white space.
pub fn white(c: char) -> (r: bool)
    ensures
        r == is_white(c),
{
    let n: u32 = c as u32;
    (0x09 <= n && n <= 0x0d) || n == 0x20 || n == 0x85 || n == 0xa0 || n == 0x1680
        || (0x2000 <= n && n <= 0x200a) || n == 0x2028 || n == 0x2029 || n == 0x202f
        || n == 0x205f || n == 0x3000
}

/// ASCII decimal digits.
pub open spec fn is_digit(c: char) -> bool {
    '0' as int <= c as int <= '9' as int
}

/// Tests for an ASCII decimal digit.
pub fn digit(c: char) -> (r: bool)
    ensures
        r == is_digit(c),
{
    let n: u32 = c as u32;
    0x30 <= n && n <= 0x39
}

/// The characters of a string.
pub fn to_chars(s: &str) -> (r: Vec<char>)
    ensures
        r@ == s@,
{
    let mut out: Vec<char> = Vec::new();
    for c in it: s.chars()
        invariant
            it.seq() == s@,
            out@ == s@.take(it.index()),
    {
        out.push(c);
        assert(s@.take(it.index() + 1) == s@.take(it.index()).push(c));
    }
    assert(s@.take(s@.len() as int) == s@);
    out
}

/// The string with the given characters.
pub fn from_chars(s: &[char]) -> (r: String)
    ensures
        r@ == s@,
{
    let mut out = String::new();
    let mut i: usize = 0;
    while i < s.len()
        invariant
            i <= s@.len(),
            out@ == s@.take(i as int),
        decreases s@.len() - i,
    {
        out.push(s[i]);
        assert(s@.take(i + 1) == s@.take(i as int).push(s@[i as int]));
        i = i + 1;
    }
    assert(s@.take(s@.len() as int) == s@);
    out
}

/// Compares two character sequences.
pub fn same(a: &[char], b: &[char]) -> (r: bool)
    ensures
        r == (a@ == b@),
{
    if a.len() != b.len() {
        return false;
    }
    let mut i: usize = 0;
    while i < a.len()
        invariant
            i <= a@.len(),
            a@.len() == b@.len(),
            a@.take(i as int) == b@.take(i as int),
        decreases a@.len() - i,
    {
        if a[i] != b[i] {
            return false;
        }
        assert(a@.take(i + 1) == a@.take(i as int).push(a@[i as int]));
        assert(b@.take(i + 1) == b@.take(i as int).push(b@[i as int]));
        i = i + 1;
    }
    assert(a@.take(a@.len() as int) == a@);
    assert(b@.take(b@.len() as int) == b@);
    true
}

/// Compares a character sequence with a string.
pub fn is_text(a: &[char], b: &str) -> (r: bool)
    ensures
        r == (a@ == b@),
{
    let other = to_chars(b);
    same(a, other.as_slice())
}

/// A string with the characters of another.
pub fn copy(s: &str) -> (r: String)
    ensures
        r@ == s@,
{
    from_chars(to_chars(s).as_slice())
}

/// Appends a text to a list.
pub fn push_text(out: &mut Vec<String>, s: &str)
    ensures
        texts(final(out)@) == texts(old(out)@).push(s@),
{
    out.push(copy(s));
    assert(texts(out@) == texts(old(out)@).push(s@));
}

/// Compares two strings.
pub fn equal(a: &str, b: &str) -> (r: bool)
    ensures
        r == (a@ == b@),
{
    let left = to_chars(a);
    let right = to_chars(b);
    same(left.as_slice(), right.as_slice())
}

/// The characters from `from` up to, not including, `to`.
pub fn part(s: &[char], from: usize, to: usize) -> (r: Vec<char>)
    requires
        from <= to <= s@.len(),
    ensures
        r@ == s@.subrange(from as int, to as int),
{
    let mut out: Vec<char> = Vec::new();
    let mut i: usize = from;
    while i < to
        invariant
            from <= i <= to <= s@.len(),
            out@ == s@.subrange(from as int, i as int),
        decreases to - i,
    {
        out.push(s[i]);
        assert(s@.subrange(from as int, i + 1) == s@.subrange(from as int, i as int).push(
            s@[i as int],
        ));
        i = i + 1;
    }
    out
}

/// Appends characters to a sequence under construction.
pub fn extend(out: &mut Vec<char>, s: &[char])
    ensures
        final(out)@ == old(out)@ + s@,
{
    let mut i: usize = 0;
    while i < s.len()
        invariant
            i <= s@.len(),
            out@ == old(out)@ + s@.take(i as int),
        decreases s@.len() - i,
    {
        out.push(s[i]);
        assert(s@.take(i + 1) == s@.take(i as int).push(s@[i as int]));
        i = i + 1;
    }
    assert(s@.take(s@.len() as int) == s@);
}

/// Whether `p` stands at the start of `s`.
pub open spec fn begins(s: Seq<char>, p: Seq<char>) -> bool {
    p.len() <= s.len() && s.take(p.len() as int) == p
}

/// Tests for a prefix.
pub fn begins_with(s: &[char], p: &[char]) -> (r: bool)
    ensures
        r == begins(s@, p@),
{
    if p.len() > s.len() {
        return false;
    }
    let head = part(s, 0, p.len());
    assert(s@.subrange(0, p@.len() as int) == s@.take(p@.len() as int));
    same(head.as_slice(), p)
}

/// Whether `p` stands at the end of `s`.
pub open spec fn ends(s: Seq<char>, p: Seq<char>) -> bool {
    p.len() <= s.len() && s.skip(s.len() - p.len()) == p
}

/// Tests for a suffix.
pub fn ends_with(s: &[char], p: &[char]) -> (r: bool)
    ensures
        r == ends(s@, p@),
{
    if p.len() > s.len() {
        return false;
    }
    let tail = part(s, s.len() - p.len(), s.len());
    assert(s@.subrange(s@.len() - p@.len(), s@.len() as int) == s@.skip(s@.len() - p@.len()));
    same(tail.as_slice(), p)
}

/// `s` without the longest run of `c` at its end.
pub open spec fn trim_end_char(s: Seq<char>, c: char) -> Seq<char>
    decreases s.len(),
{
    if s.len() > 0 && s.last() == c {
        trim_end_char(s.drop_last(), c)
    } else {
        s
    }
}

/// Drops the run of `c` at the end.
pub fn trim_end(s: &[char], c: char) -> (r: Vec<char>)
    ensures
        r@ == trim_end_char(s@, c),
{
    let mut n: usize = s.len();
    assert(s@.take(n as int) == s@);
    while n > 0 && s[n - 1] == c
        invariant
            n <= s@.len(),
            trim_end_char(s@.take(n as int), c) == trim_end_char(s@, c),
        decreases n,
    {
        assert(s@.take(n as int).drop_last() == s@.take(n - 1));
        n = n - 1;
    }
    assert(s@.subrange(0, n as int) == s@.take(n as int));
    part(s, 0, n)
}

/// `s` without the white space at its start.
pub open spec fn trim_start_white(s: Seq<char>) -> Seq<char>
    decreases s.len(),
{
    if s.len() > 0 && is_white(s[0]) {
        trim_start_white(s.skip(1))
    } else {
        s
    }
}

/// `s` without the white space at its end.
pub open spec fn trim_end_white(s: Seq<char>) -> Seq<char>
    decreases s.len(),
{
    if s.len() > 0 && is_white(s.last()) {
        trim_end_white(s.drop_last())
    } else {
        s
    }
}

/// `s` without the white space at both ends.
pub open spec fn trimmed(s: Seq<char>) -> Seq<char> {
    trim_end_white(trim_start_white(s))
}

/// Drops the white space at both ends.
pub fn trim(s: &[char]) -> (r: Vec<char>)
    ensures
        r@ == trimmed(s@),
{
    let mut a: usize = 0;
    assert(s@.skip(0) == s@);
    while a < s.len() && white(s[a])
        invariant
            a <= s@.len(),
            trim_start_white(s@.skip(a as int)) == trim_start_white(s@),
        decreases s@.len() - a,
    {
        assert(s@.skip(a as int).skip(1) == s@.skip(a + 1));
        a = a + 1;
    }
    assert(trim_start_white(s@) == s@.skip(a as int));
    let mut n: usize = s.len();
    assert(s@.subrange(a as int, n as int) == s@.skip(a as int));
    while n > a && white(s[n - 1])
        invariant
            a <= n <= s@.len(),
            trim_end_white(s@.subrange(a as int, n as int)) == trimmed(s@),
        decreases n,
    {
        assert(s@.subrange(a as int, n as int).drop_last() == s@.subrange(a as int, n - 1));
        n = n - 1;
    }
    part(s, a, n)
}

/// The pieces of `s` between the occurrences of `c`.
pub open spec fn split_on(s: Seq<char>, c: char) -> Seq<Seq<char>>
    decreases s.len(),
{
    if s.len() == 0 {
        seq![Seq::empty()]
    } else {
        let before = split_on(s.drop_last(), c);
        if s.last() == c {
            before.push(Seq::empty())
        } else {
            before.drop_last().push(before.last().push(s.last()))
        }
    }
}

/// Splitting never yields nothing.
pub proof fn lemma_split_on_nonempty(s: Seq<char>, c: char)
    ensures
        split_on(s, c).len() > 0,
    decreases s.len(),
{
    if s.len() > 0 {
        lemma_split_on_nonempty(s.drop_last(), c);
    }
}

/// The sequences held by a vector of character vectors.
pub open spec fn rows(v: Seq<Vec<char>>) -> Seq<Seq<char>> {
    v.map_values(|s: Vec<char>| s@)
}

/// Splits at every occurrence of `c`.
pub fn split(s: &[char], c: char) -> (r: Vec<Vec<char>>)
    ensures
        rows(r@) == split_on(s@, c),
{
    let mut out: Vec<Vec<char>> = Vec::new();
    let mut cur: Vec<char> = Vec::new();
    let mut i: usize = 0;
    assert(s@.take(0) == Seq::<char>::empty());
    assert(rows(out@).push(cur@) == split_on(s@.take(0), c));
    while i < s.len()
        invariant
            i <= s@.len(),
            rows(out@).push(cur@) == split_on(s@.take(i as int), c),
        decreases s@.len() - i,
    {
        let ghost before = split_on(s@.take(i as int), c);
        let ghost done = rows(out@);
        let ghost head = cur@;
        assert(s@.take(i + 1).drop_last() == s@.take(i as int));
        assert(before.last() == head && before.drop_last() == done);
        if s[i] == c {
            out.push(cur);
            cur = Vec::new();
            assert(rows(out@) == done.push(head));
            assert(rows(out@).push(cur@) == before.push(Seq::empty()));
        } else {
            cur.push(s[i]);
        }
        i = i + 1;
    }
    assert(s@.take(s@.len() as int) == s@);
    let ghost done = rows(out@);
    let ghost head = cur@;
    out.push(cur);
    assert(rows(out@) == done.push(head));
    out
}

/// The pieces of `s` between white space characters, empty ones included.
pub open spec fn split_on_white(s: Seq<char>) -> Seq<Seq<char>>
    decreases s.len(),
{
    if s.len() == 0 {
        seq![Seq::empty()]
    } else {
        let before = split_on_white(s.drop_last());
        if is_white(s.last()) {
            before.push(Seq::empty())
        } else {
            before.drop_last().push(before.last().push(s.last()))
        }
    }
}

/// The maximal runs of characters that are not white space.
pub open spec fn words(s: Seq<char>) -> Seq<Seq<char>> {
    split_on_white(s).filter(|w: Seq<char>| w.len() > 0)
}

/// Splits around white space.
pub fn split_words(s: &[char]) -> (r: Vec<Vec<char>>)
    ensures
        rows(r@) == words(s@),
{
    let mut out: Vec<Vec<char>> = Vec::new();
    let mut cur: Vec<char> = Vec::new();
    let mut i: usize = 0;
    let ghost keep = |w: Seq<char>| w.len() > 0;
    assert(s@.take(0) == Seq::<char>::empty());
    assert(split_on_white(s@.take(0)).drop_last() == Seq::<Seq<char>>::empty());
    proof {
        reveal(Seq::filter);
    }
    assert(rows(out@) == split_on_white(s@.take(0)).drop_last().filter(keep));
    while i < s.len()
        invariant
            i <= s@.len(),
            keep == (|w: Seq<char>| w.len() > 0),
            split_on_white(s@.take(i as int)).len() > 0,
            rows(out@) == split_on_white(s@.take(i as int)).drop_last().filter(keep),
            cur@ == split_on_white(s@.take(i as int)).last(),
        decreases s@.len() - i,
    {
        let ghost before = split_on_white(s@.take(i as int));
        let ghost done = rows(out@);
        let ghost head = cur@;
        assert(s@.take(i + 1).drop_last() == s@.take(i as int));
        let ghost next = split_on_white(s@.take(i + 1));
        if white(s[i]) {
            assert(next.drop_last() == before);
            assert(before.filter(keep) == if keep(head) {
                done.push(head)
            } else {
                done
            }) by {
                reveal(Seq::filter);
            }
            if cur.len() > 0 {
                out.push(cur);
                assert(rows(out@) == done.push(head));
            }
            cur = Vec::new();
        } else {
            assert(next.drop_last() == before.drop_last());
            cur.push(s[i]);
        }
        i = i + 1;
    }
    assert(s@.take(s@.len() as int) == s@);
    let ghost done = rows(out@);
    let ghost head = cur@;
    assert(split_on_white(s@).filter(keep) == if keep(head) {
        done.push(head)
    } else {
        done
    }) by {
        reveal(Seq::filter);
    }
    if cur.len() > 0 {
        out.push(cur);
        assert(rows(out@) == done.push(head));
    }
    out
}

/// `s` without one carriage return at its end.
pub open spec fn strip_cr(s: Seq<char>) -> Seq<char> {
    if s.len() > 0 && s.last() == '\r' {
        s.drop_last()
    } else {
        s
    }
}

/// The lines of `s`: each ends at a line feed, or a carriage return and a line
/// feed; the last one may lack its ending.
pub open spec fn lines_of(s: Seq<char>) -> Seq<Seq<char>> {
    let pieces = split_on(s, '\n');
    let ended = pieces.drop_last().map_values(|p: Seq<char>| strip_cr(p));
    if pieces.last().len() == 0 {
        ended
    } else {
        ended.push(pieces.last())
    }
}

/// Splits into lines.
pub fn lines(s: &[char]) -> (r: Vec<Vec<char>>)
    ensures
        rows(r@) == lines_of(s@),
{
    let pieces = split(s, '\n');
    let ghost all = split_on(s@, '\n');
    proof {
        lemma_split_on_nonempty(s@, '\n');
        assert(all.len() == pieces@.len());
    }
    let mut out: Vec<Vec<char>> = Vec::new();
    let mut i: usize = 0;
    while i < pieces.len() - 1
        invariant
            all == split_on(s@, '\n'),
            rows(pieces@) == all,
            pieces@.len() > 0,
            i < pieces@.len(),
            out@.len() == i,
            forall|k: int| 0 <= k < i ==> #[trigger] out@[k]@ == strip_cr(all[k]),
        decreases pieces@.len() - i,
    {
        let piece = &pieces[i];
        assert(rows(pieces@)[i as int] == piece@);
        let n: usize = piece.len();
        if n > 0 && piece[n - 1] == '\r' {
            let cut = part(piece.as_slice(), 0, n - 1);
            assert(cut@ == strip_cr(all[i as int]));
            out.push(cut);
        } else {
            let whole = part(piece.as_slice(), 0, n);
            assert(whole@ == piece@);
            out.push(whole);
        }
        i = i + 1;
    }
    let last = &pieces[i];
    assert(rows(pieces@)[i as int] == last@);
    let ghost ended = all.drop_last().map_values(|p: Seq<char>| strip_cr(p));
    assert(rows(out@) == ended);
    if last.len() > 0 {
        let whole = part(last.as_slice(), 0, last.len());
        assert(whole@ == last@);
        out.push(whole);
        assert(rows(out@) == ended.push(all.last()));
    }
    out
}

/// The position of the first `c` in `s`, or the length of `s`.
pub open spec fn find_char(s: Seq<char>, c: char) -> nat
    decreases s.len(),
{
    if s.len() == 0 || s[0] == c {
        0
    } else {
        1 + find_char(s.skip(1), c)
    }
}

/// What `find_char` finds.
pub proof fn lemma_find_char(s: Seq<char>, c: char)
    ensures
        find_char(s, c) <= s.len(),
        find_char(s, c) < s.len() ==> s[find_char(s, c) as int] == c,
        forall|i: int| 0 <= i < find_char(s, c) ==> s[i] != c,
        find_char(s, c) < s.len() <==> s.contains(c),
    decreases s.len(),
{
    if s.len() > 0 && s[0] != c {
        let t = s.skip(1);
        lemma_find_char(t, c);
        assert forall|i: int| 0 <= i < find_char(s, c) implies s[i] != c by {
            if i > 0 {
                assert(t[i - 1] == s[i]);
            }
        }
        if s.contains(c) {
            let k = choose|k: int| 0 <= k < s.len() && s[k] == c;
            assert(t[k - 1] == c);
        }
    }
}

/// Finds the first `c`; the length of `s` when there is none.
pub fn find(s: &[char], c: char) -> (r: usize)
    ensures
        r == find_char(s@, c),
        r <= s@.len(),
{
    let mut i: usize = 0;
    assert(s@.skip(0) == s@);
    while i < s.len() && s[i] != c
        invariant
            i <= s@.len(),
            find_char(s@, c) == i + find_char(s@.skip(i as int), c),
        decreases s@.len() - i,
    {
        assert(s@.skip(i as int).skip(1) == s@.skip(i + 1));
        i = i + 1;
    }
    i
}

/// Whether `c` occurs in `s`.
pub fn has_char(s: &[char], c: char) -> (r: bool)
    ensures
        r == s@.contains(c),
{
    proof {
        lemma_find_char(s@, c);
    }
    find(s, c) < s.len()
}

/// The position of the last `c` in `s`, or -1.
pub open spec fn rfind_char(s: Seq<char>, c: char) -> int
    decreases s.len(),
{
    if s.len() == 0 {
        -1
    } else if s.last() == c {
        s.len() - 1
    } else {
        rfind_char(s.drop_last(), c)
    }
}

/// Finds the last `c`.
pub fn rfind(s: &[char], c: char) -> (r: Option<usize>)
    ensures
        match r {
            Some(i) => rfind_char(s@, c) == i && i < s@.len() && s@[i as int] == c,
            None => rfind_char(s@, c) == -1,
        },
{
    let mut n: usize = s.len();
    assert(s@.take(n as int) == s@);
    while n > 0
        invariant
            n <= s@.len(),
            rfind_char(s@.take(n as int), c) == rfind_char(s@, c),
        decreases n,
    {
        if s[n - 1] == c {
            return Some(n - 1);
        }
        assert(s@.take(n as int).drop_last() == s@.take(n - 1));
        n = n - 1;
    }
    None
}

/// The position of the first occurrence of `p` in `s`.
pub open spec fn find_text(s: Seq<char>, p: Seq<char>) -> Option<nat>
    decreases s.len(),
{
    if begins(s, p) {
        Some(0nat)
    } else if s.len() == 0 {
        None
    } else {
        match find_text(s.skip(1), p) {
            Some(i) => Some(i + 1),
            None => None,
        }
    }
}

/// Finds the first occurrence of `p`.
pub fn search(s: &[char], p: &[char]) -> (r: Option<usize>)
    ensures
        match r {
            Some(i) => find_text(s@, p@) == Some(i as nat) && i + p@.len() <= s@.len()
                && s@.subrange(i as int, i + p@.len()) == p@,
            None => find_text(s@, p@) is None,
        },
{
    let mut i: usize = 0;
    assert(s@.skip(0) == s@);
    loop
        invariant
            i <= s@.len(),
            find_text(s@, p@) == (match find_text(s@.skip(i as int), p@) {
                Some(k) => Some((i + k) as nat),
                None => None::<nat>,
            }),
        decreases s@.len() - i,
    {
        let rest = part(s, i, s.len());
        assert(rest@ == s@.skip(i as int));
        if begins_with(rest.as_slice(), p) {
            assert(rest@.take(p@.len() as int) == s@.subrange(i as int, i + p@.len()));
            return Some(i);
        }
        if i == s.len() {
            return None;
        }
        assert(s@.skip(i as int).skip(1) == s@.skip(i + 1));
        i = i + 1;
    }
}

/// The lower-case form of an ASCII letter; any other character is unchanged.
pub open spec fn lower_char(c: char) -> char {
    if 'A' as int <= c as int <= 'Z' as int {
        (c as int + 32) as char
    } else {
        c
    }
}

/// ASCII lower case of every character.
pub open spec fn lower(s: Seq<char>) -> Seq<char> {
    s.map_values(|c: char| lower_char(c))
}

/// Lowers one character.
pub fn to_lower_char(c: char) -> (r: char)
    ensures
        r == lower_char(c),
{
    let n: u32 = c as u32;
    if 0x41 <= n && n <= 0x5a {
        ((n + 32) as u8) as char
    } else {
        c
    }
}

/// Lowers the ASCII letters.
pub fn to_lower(s: &[char]) -> (r: Vec<char>)
    ensures
        r@ == lower(s@),
{
    let mut out: Vec<char> = Vec::new();
    let mut i: usize = 0;
    while i < s.len()
        invariant
            i <= s@.len(),
            out@.len() == i,
            forall|k: int| 0 <= k < i ==> #[trigger] out@[k] == lower_char(s@[k]),
        decreases s@.len() - i,
    {
        out.push(to_lower_char(s[i]));
        i = i + 1;
    }
    assert(out@ == lower(s@));
    out
}

/// The character of a decimal digit.
pub open spec fn digit_char(d: nat) -> char {
    ('0' as int + d) as char
}

/// The decimal numeral of `n`.
pub open spec fn decimal(n: nat) -> Seq<char>
    decreases n,
{
    if n < 10 {
        seq![digit_char(n)]
    } else {
        decimal(n / 10).push(digit_char(n % 10))
    }
}

/// Writes a number in decimal.
pub fn number(n: u64) -> (r: Vec<char>)
    ensures
        r@ == decimal(n as nat),
    decreases n,
{
    let d: u8 = (n % 10) as u8;
    let c = (0x30 + d) as char;
    let mut out = if n < 10 {
        Vec::new()
    } else {
        number(n / 10)
    };
    out.push(c);
    assert(out@ == decimal(n as nat));
    out
}

/// The value of a string of decimal digits.
pub open spec fn digits_value(s: Seq<char>) -> nat
    decreases s.len(),
{
    if s.len() == 0 {
        0
    } else {
        digits_value(s.drop_last()) * 10 + (s.last() as int - '0' as int) as nat
    }
}

/// Whether every character is a decimal digit.
pub open spec fn all_digits(s: Seq<char>) -> bool {
    forall|i: int| 0 <= i < s.len() ==> is_digit(#[trigger] s[i])
}

/// `s` without one leading plus sign.
pub open spec fn unsigned_part(s: Seq<char>) -> Seq<char> {
    if s.len() > 0 && s[0] == '+' {
        s.skip(1)
    } else {
        s
    }
}

/// The unsigned 64-bit number that `s` denotes: an optional plus sign and at
/// least one digit, in range.
pub open spec fn parsed_u64(s: Seq<char>) -> Option<u64> {
    let t = unsigned_part(s);
    if t.len() == 0 || !all_digits(t) || digits_value(t) > u64::MAX {
        None
    } else {
        Some(digits_value(t) as u64)
    }
}

/// A longer numeral is at least as large.
pub proof fn lemma_digits_value_grows(s: Seq<char>, i: int)
    requires
        0 <= i <= s.len(),
        all_digits(s),
    ensures
        digits_value(s.take(i)) <= digits_value(s),
    decreases s.len() - i,
{
    if i < s.len() {
        lemma_digits_value_grows(s, i + 1);
        assert(s.take(i + 1).drop_last() == s.take(i));
    } else {
        assert(s.take(i) == s);
    }
}

/// Parses an unsigned 64-bit number.
pub fn parse_u64(s: &[char]) -> (r: Option<u64>)
    ensures
        r == parsed_u64(s@),
{
    let start: usize = if s.len() > 0 && s[0] == '+' {
        1
    } else {
        0
    };
    let ghost t = s@.skip(start as int);
    assert(t == unsigned_part(s@));
    if start == s.len() {
        return None;
    }
    let mut value: u64 = 0;
    let mut over = false;
    let mut i: usize = start;
    assert(t.take(0) == Seq::<char>::empty());
    while i < s.len()
        invariant
            start <= i <= s@.len(),
            t == s@.skip(start as int),
            t == unsigned_part(s@),
            all_digits(t.take(i - start)),
            over ==> digits_value(t.take(i - start)) > u64::MAX,
            !over ==> value == digits_value(t.take(i - start)),
        decreases s@.len() - i,
    {
        let c = s[i];
        assert(t[i - start] == c);
        if !digit(c) {
            assert(!all_digits(t));
            return None;
        }
        assert(t.take(i - start + 1).drop_last() == t.take(i - start));
        assert(all_digits(t.take(i - start + 1)));
        let d: u64 = (c as u32 - 0x30) as u64;
        if !over {
            match value.checked_mul(10) {
                Some(scaled) => {
                    match scaled.checked_add(d) {
                        Some(sum) => {
                            value = sum;
                        },
                        None => {
                            over = true;
                        },
                    }
                },
                None => {
                    over = true;
                },
            }
        }
        i = i + 1;
    }
    assert(t.take(t.len() as int) == t);
    if over {
        None
    } else {
        Some(value)
    }
}

/// Reading a written number gives it back.
pub proof fn law_number_round_trip(n: u64)
    ensures
        parsed_u64(decimal(n as nat)) == Some(n),
{
    lemma_decimal_value(n as nat);
}

/// A decimal numeral has only digits, at least one, and denotes its number.
pub proof fn lemma_decimal_value(n: nat)
    ensures
        decimal(n).len() > 0,
        all_digits(decimal(n)),
        digits_value(decimal(n)) == n,
    decreases n,
{
    if n >= 10 {
        lemma_decimal_value(n / 10);
        assert(decimal(n).drop_last() == decimal(n / 10));
        assert(decimal(n).last() as int == '0' as int + n % 10);
    } else {
        assert(decimal(n).last() as int == '0' as int + n);
        assert(digits_value(Seq::empty()) == 0);
        assert(decimal(n).drop_last() == Seq::<char>::empty());
    }
}

/// The parts with `sep` between neighbours.
pub open spec fn joined(parts: Seq<Seq<char>>, sep: Seq<char>) -> Seq<char>
    decreases parts.len(),
{
    if parts.len() == 0 {
        Seq::empty()
    } else if parts.len() == 1 {
        parts[0]
    } else {
        joined(parts.drop_last(), sep) + sep + parts.last()
    }
}

/// Joins with a separator.
pub fn join(parts: &[Vec<char>], sep: &[char]) -> (r: Vec<char>)
    ensures
        r@ == joined(rows(parts@), sep@),
{
    let mut out: Vec<char> = Vec::new();
    let ghost all = rows(parts@);
    let mut i: usize = 0;
    assert(all.take(0) == Seq::<Seq<char>>::empty());
    while i < parts.len()
        invariant
            i <= parts@.len(),
            all == rows(parts@),
            out@ == joined(all.take(i as int), sep@),
        decreases parts@.len() - i,
    {
        assert(all.take(i + 1).drop_last() == all.take(i as int));
        assert(all[i as int] == parts@[i as int]@);
        if i > 0 {
            extend(&mut out, sep);
        }
        extend(&mut out, parts[i].as_slice());
        assert(out@ == joined(all.take(i + 1), sep@));
        i = i + 1;
    }
    assert(all.take(all.len() as int) == all);
    out
}

/// Trimming a character off the end takes all of its run there and nothing else.
pub proof fn law_trimming_takes_the_run(s: Seq<char>, c: char)
    ensures
        ({
            let r = trim_end_char(s, c);
            &&& begins(s, r)
            &&& r.len() > 0 ==> r.last() != c
            &&& forall|i: int| r.len() <= i < s.len() ==> #[trigger] s[i] == c
        }),
    decreases s.len(),
{
    let r = trim_end_char(s, c);
    if s.len() > 0 && s.last() == c {
        let t = s.drop_last();
        law_trimming_takes_the_run(t, c);
        assert(s.take(r.len() as int) == t.take(r.len() as int));
        assert forall|i: int| r.len() <= i < s.len() implies #[trigger] s[i] == c by {
            if i < t.len() {
                assert(t[i] == s[i]);
            }
        }
    } else {
        assert(s.take(s.len() as int) == s);
    }
}

proof fn lemma_trim_end_white(s: Seq<char>)
    ensures
        ({
            let r = trim_end_white(s);
            &&& r.len() <= s.len()
            &&& s.take(r.len() as int) == r
            &&& r.len() > 0 ==> !is_white(r.last())
            &&& forall|i: int| r.len() <= i < s.len() ==> is_white(#[trigger] s[i])
        }),
    decreases s.len(),
{
    let r = trim_end_white(s);
    if s.len() > 0 && is_white(s.last()) {
        let t = s.drop_last();
        lemma_trim_end_white(t);
        assert(s.take(r.len() as int) == t.take(r.len() as int));
        assert forall|i: int| r.len() <= i < s.len() implies is_white(#[trigger] s[i]) by {
            if i < t.len() {
                assert(t[i] == s[i]);
            }
        }
    } else {
        assert(s.take(s.len() as int) == s);
    }
}

proof fn lemma_trim_start_white(s: Seq<char>)
    ensures
        ({
            let r = trim_start_white(s);
            &&& r.len() <= s.len()
            &&& s.skip(s.len() - r.len()) == r
            &&& r.len() > 0 ==> !is_white(r[0])
            &&& forall|i: int| 0 <= i < s.len() - r.len() ==> is_white(#[trigger] s[i])
        }),
    decreases s.len(),
{
    let r = trim_start_white(s);
    if s.len() > 0 && is_white(s[0]) {
        let t = s.skip(1);
        lemma_trim_start_white(t);
        assert(s.skip(s.len() - r.len()) == t.skip(t.len() - r.len()));
        assert forall|i: int| 0 <= i < s.len() - r.len() implies is_white(#[trigger] s[i]) by {
            if i > 0 {
                assert(t[i - 1] == s[i]);
            }
        }
    } else {
        assert(s.skip(0) == s);
    }
}

/// A trimmed text is a part of the text that neither begins nor ends with white space, and
/// what stands before and behind it is white space alone.
pub proof fn law_trimming_takes_white_space(s: Seq<char>) -> (from: int)
    ensures
        ({
            let r = trimmed(s);
            &&& 0 <= from
            &&& from + r.len() <= s.len()
            &&& s.subrange(from, from + r.len()) == r
            &&& r.len() > 0 ==> !is_white(r[0]) && !is_white(r.last())
            &&& forall|i: int| 0 <= i < from ==> is_white(#[trigger] s[i])
            &&& forall|i: int| from + r.len() <= i < s.len() ==> is_white(#[trigger] s[i])
        }),
{
    let t = trim_start_white(s);
    let r = trimmed(s);
    lemma_trim_start_white(s);
    lemma_trim_end_white(t);
    let from = s.len() - t.len();
    assert(s.subrange(from, from + r.len()) == t.take(r.len() as int));
    assert(r.len() > 0 ==> r[0] == t[0]);
    assert forall|i: int| from + r.len() <= i < s.len() implies is_white(#[trigger] s[i]) by {
        assert(t[i - from] == s[i]);
    }
    from
}

/// The pieces of a text, joined by what they were split at, are the text again, and none of
/// them holds it.
pub proof fn law_pieces_join_to_the_text(s: Seq<char>, c: char)
    ensures
        joined(split_on(s, c), seq![c]) == s,
        forall|i: int| 0 <= i < split_on(s, c).len() ==> !(#[trigger] split_on(s, c)[i]).contains(c),
        split_on(s, c).len() > 0,
    decreases s.len(),
{
    let r = split_on(s, c);
    if s.len() > 0 {
        let t = s.drop_last();
        let before = split_on(t, c);
        law_pieces_join_to_the_text(t, c);
        assert(s == t.push(s.last()));
        if s.last() == c {
            assert(r.drop_last() == before);
            assert(r.last() == Seq::<char>::empty());
            assert(joined(r, seq![c]) == joined(before, seq![c]) + seq![c] + r.last());
            assert(joined(r, seq![c]) == s);
            assert forall|i: int| 0 <= i < r.len() implies !(#[trigger] r[i]).contains(c) by {
                if i < before.len() {
                    assert(r[i] == before[i]);
                }
            }
        } else {
            let piece = before.last().push(s.last());
            assert(r.drop_last() == before.drop_last());
            assert(r.last() == piece);
            if before.len() == 1 {
                assert(joined(before, seq![c]) == before[0]);
                assert(joined(r, seq![c]) == r[0]);
            } else {
                assert(joined(before, seq![c]) == joined(before.drop_last(), seq![c]) + seq![c]
                    + before.last());
                assert(joined(r, seq![c]) == joined(r.drop_last(), seq![c]) + seq![c] + r.last());
            }
            assert(joined(r, seq![c]) == s);
            assert forall|i: int| 0 <= i < r.len() implies !(#[trigger] r[i]).contains(c) by {
                if i < before.len() - 1 {
                    assert(r[i] == before[i]);
                } else {
                    assert(!before[before.len() - 1].contains(c));
                    if piece.contains(c) {
                        let k = choose|k: int| 0 <= k < piece.len() && piece[k] == c;
                        assert(before.last()[k] == c);
                    }
                }
            }
        }
    }
}

proof fn lemma_white_pieces(s: Seq<char>, i: int, k: int)
    requires
        0 <= i < split_on_white(s).len(),
        0 <= k < split_on_white(s)[i].len(),
    ensures
        !is_white(split_on_white(s)[i][k]),
    decreases s.len(),
{
    if s.len() > 0 {
        let before = split_on_white(s.drop_last());
        let r = split_on_white(s);
        if is_white(s.last()) {
            assert(i < before.len());
            lemma_white_pieces(s.drop_last(), i, k);
        } else if i < before.len() - 1 {
            lemma_white_pieces(s.drop_last(), i, k);
        } else {
            lemma_split_on_white_nonempty(s.drop_last());
            if k < before.last().len() {
                lemma_white_pieces(s.drop_last(), before.len() - 1, k);
            }
        }
    }
}

proof fn lemma_split_on_white_nonempty(s: Seq<char>)
    ensures
        split_on_white(s).len() > 0,
    decreases s.len(),
{
    if s.len() > 0 {
        lemma_split_on_white_nonempty(s.drop_last());
    }
}

/// A word is not empty and holds no white space.
pub proof fn law_words_hold_no_white_space(s: Seq<char>, i: int, k: int)
    requires
        0 <= i < words(s).len(),
    ensures
        words(s)[i].len() > 0,
        0 <= k < words(s)[i].len() ==> !is_white(words(s)[i][k]),
{
    broadcast use vstd::seq_lib::group_filter_ensures;

    let p = |w: Seq<char>| w.len() > 0;
    let pieces = split_on_white(s);
    let w = words(s)[i];
    pieces.lemma_filter_contains_rev(p, w);
    let j = choose|j: int| 0 <= j < pieces.len() && pieces[j] == w;
    if 0 <= k < w.len() {
        lemma_white_pieces(s, j, k);
    }
}

/// The lines of a text without carriage returns, joined by line feeds, are the text again
/// but for a line feed at its end.
pub proof fn law_lines_join_to_the_text(s: Seq<char>)
    requires
        !s.contains('\r'),
    ensures
        s.len() > 0 && s.last() == '\n' ==> joined(lines_of(s), seq!['\n']) + seq!['\n'] == s,
        s.len() > 0 && s.last() != '\n' ==> joined(lines_of(s), seq!['\n']) == s,
        s.len() == 0 ==> lines_of(s).len() == 0,
{
    let pieces = split_on(s, '\n');
    let front = pieces.drop_last();
    law_pieces_join_to_the_text(s, '\n');
    let ended = front.map_values(|p: Seq<char>| strip_cr(p));
    assert forall|i: int| 0 <= i < front.len() implies ended[i] == front[i] by {
        if front[i].len() > 0 && front[i].last() == '\r' {
            lemma_piece_in_text(s, '\n', i, front[i].len() - 1);
            assert(s.contains('\r'));
        }
    }
    assert(ended == front);
    if pieces.last().len() == 0 {
        if pieces.len() == 1 {
            assert(joined(pieces, seq!['\n']) == pieces[0]);
            assert(s.len() == 0);
            assert(lines_of(s) == front);
        } else {
            assert(joined(pieces, seq!['\n']) == joined(front, seq!['\n']) + seq!['\n']
                + pieces.last());
            assert(s == joined(front, seq!['\n']) + seq!['\n']);
        }
    } else {
        assert(front.push(pieces.last()) == pieces);
        assert(lines_of(s) == pieces);
        let last = pieces.last();
        assert(!pieces[pieces.len() - 1].contains('\n'));
        assert(last[last.len() - 1] != '\n');
        if pieces.len() == 1 {
            assert(s == last);
        } else {
            assert(s == joined(front, seq!['\n']) + seq!['\n'] + last);
        }
        assert(s.last() == last.last());
    }
}

proof fn lemma_piece_in_text(s: Seq<char>, c: char, i: int, k: int)
    requires
        0 <= i < split_on(s, c).len(),
        0 <= k < split_on(s, c)[i].len(),
    ensures
        s.contains(split_on(s, c)[i][k]),
    decreases s.len(),
{
    if s.len() > 0 {
        let t = s.drop_last();
        let before = split_on(t, c);
        let x = split_on(s, c)[i][k];
        lemma_split_on_nonempty(t, c);
        if i < before.len() && k < before[i].len() {
            lemma_piece_in_text(t, c, i, k);
            let j = choose|j: int| 0 <= j < t.len() && t[j] == before[i][k];
            assert(s[j] == x);
        } else {
            assert(s[s.len() - 1] == x);
        }
    }
}

/// The last place of a character: it stands there, and nowhere behind.
pub proof fn law_last_place_of_a_character(s: Seq<char>, c: char)
    ensures
        -1 <= rfind_char(s, c) < s.len(),
        rfind_char(s, c) >= 0 ==> s[rfind_char(s, c)] == c,
        forall|i: int| rfind_char(s, c) < i < s.len() ==> #[trigger] s[i] != c,
    decreases s.len(),
{
    if s.len() > 0 && s.last() != c {
        let t = s.drop_last();
        law_last_place_of_a_character(t, c);
        assert forall|i: int| rfind_char(s, c) < i < s.len() implies #[trigger] s[i] != c by {
            if i < t.len() {
                assert(t[i] == s[i]);
            }
        }
    }
}

/// The place at which a text is found is the first one at which it stands; none is given
/// only if it stands nowhere.
pub proof fn law_the_first_occurrence_is_found(s: Seq<char>, p: Seq<char>, i: int)
    requires
        0 <= i <= s.len(),
    ensures
        find_text(s, p) matches Some(at) ==> {
            &&& begins(s.skip(at as int), p)
            &&& at + p.len() <= s.len()
            &&& i < at ==> !begins(s.skip(i), p)
        },
        find_text(s, p) is None ==> !begins(s.skip(i), p),
    decreases s.len(),
{
    assert(s.skip(0) == s);
    if !begins(s, p) && s.len() > 0 {
        let t = s.skip(1);
        let j = if i > 0 {
            i - 1
        } else {
            0
        };
        law_the_first_occurrence_is_found(t, p, j);
        assert(t.skip(j) == s.skip(j + 1));
        match find_text(t, p) {
            Some(at) => {
                assert(t.skip(at as int) == s.skip(at as int + 1));
            },
            None => {},
        }
    }
}

/// In lower case no capital letter is left, and everything else stays as it is.
pub proof fn law_lower_case_has_no_capitals(s: Seq<char>, i: int)
    requires
        0 <= i < s.len(),
    ensures
        lower(s).len() == s.len(),
        !('A' <= lower(s)[i] && lower(s)[i] <= 'Z'),
        !('A' <= s[i] && s[i] <= 'Z') ==> lower(s)[i] == s[i],
        'A' <= s[i] && s[i] <= 'Z' ==> lower(s)[i] as int - 'a' as int == s[i] as int - 'A' as int,
        lower(lower(s)) == lower(s),
{
    assert forall|k: int| 0 <= k < s.len() implies lower(lower(s))[k] == lower(s)[k] by {
    }
}

} // verus!
