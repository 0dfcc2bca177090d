//! Git status columns of a tree listing.

use crate::text;
use vstd::prelude::*;

verus! {

/// How strongly a status letter prevails when statuses are merged.
pub open spec fn status_rank(ch: char) -> int {
    if ch == 'U' {
        9
    } else if ch == 'A' {
        8
    } else if ch == 'R' {
        7
    } else if ch == 'C' {
        6
    } else if ch == 'D' {
        5
    } else if ch == 'M' {
        4
    } else if ch == 'T' {
        3
    } else if ch == 'N' || ch == '?' {
        2
    } else if ch == 'I' {
        1
    } else {
        0
    }
}

/// The rank of a status letter.
pub fn git_status_rank(ch: char) -> (r: u8)
    ensures
        r == status_rank(ch),
{
    if ch == 'U' {
        9
    } else if ch == 'A' {
        8
    } else if ch == 'R' {
        7
    } else if ch == 'C' {
        6
    } else if ch == 'D' {
        5
    } else if ch == 'M' {
        4
    } else if ch == 'T' {
        3
    } else if ch == 'N' || ch == '?' {
        2
    } else if ch == 'I' {
        1
    } else {
        0
    }
}

/// The letter at a position of a status, or a dash.
pub open spec fn status_at(s: Seq<char>, i: int) -> char {
    if 0 <= i < s.len() {
        s[i]
    } else {
        '-'
    }
}

/// The letter that prevails; the first one where both rank alike.
pub open spec fn prevailing(a: char, b: char) -> char {
    if status_rank(b) > status_rank(a) {
        b
    } else {
        a
    }
}

/// The two letters that stand for two statuses together.
pub open spec fn merged_status(a: Option<Seq<char>>, b: Option<Seq<char>>) -> Seq<char> {
    match (a, b) {
        (None, None) => seq!['-', '-'],
        (Some(x), None) => seq![status_at(x, 0), status_at(x, 1)],
        (None, Some(y)) => seq![status_at(y, 0), status_at(y, 1)],
        (Some(x), Some(y)) => seq![
            prevailing(status_at(x, 0), status_at(y, 0)),
            prevailing(status_at(x, 1), status_at(y, 1)),
        ],
    }
}

fn letters(s: &str) -> (r: (char, char))
    ensures
        r == (status_at(s@, 0), status_at(s@, 1)),
{
    let chars = text::to_chars(s);
    let first = if chars.len() > 0 {
        chars[0]
    } else {
        '-'
    };
    let second = if chars.len() > 1 {
        chars[1]
    } else {
        '-'
    };
    (first, second)
}

fn pick(a: char, b: char) -> (r: char)
    ensures
        r == prevailing(a, b),
{
    if git_status_rank(b) > git_status_rank(a) {
        b
    } else {
        a
    }
}

/// Merges two statuses.
pub fn merge_git_status(a: Option<&str>, b: Option<&str>) -> (r: Option<String>)
    ensures
        r is Some,
        r->0@ == merged_status(
            match a {
                Some(x) => Some(x@),
                None => None,
            },
            match b {
                Some(y) => Some(y@),
                None => None,
            },
        ),
{
    let (x, y) = match (a, b) {
        (None, None) => ('-', '-'),
        (Some(a), None) => letters(a),
        (None, Some(b)) => letters(b),
        (Some(a), Some(b)) => {
            let (ax, ay) = letters(a);
            let (bx, by) = letters(b);
            (pick(ax, bx), pick(ay, by))
        },
    };
    let mut out = String::new();
    out.push(x);
    out.push(y);
    assert(out@ == seq![x, y]);
    Some(out)
}

/// Merging is idempotent on two-letter statuses.
pub proof fn law_merge_is_idempotent(s: Seq<char>)
    requires
        s.len() == 2,
    ensures
        merged_status(Some(s), Some(s)) == s,
{
    assert(merged_status(Some(s), Some(s)) == s);
}

/// A merged status ranks as high as either of the two, letter by letter.
pub proof fn law_merge_keeps_the_strongest(a: Seq<char>, b: Seq<char>, i: int)
    requires
        0 <= i < 2,
    ensures
        status_rank(merged_status(Some(a), Some(b))[i]) >= status_rank(status_at(a, i)),
        status_rank(merged_status(Some(a), Some(b))[i]) >= status_rank(status_at(b, i)),
{
}

/// Merging is associative.
pub proof fn law_merge_is_associative(a: Seq<char>, b: Seq<char>, c: Seq<char>)
    ensures
        merged_status(Some(merged_status(Some(a), Some(b))), Some(c)) == merged_status(
            Some(a),
            Some(merged_status(Some(b), Some(c))),
        ),
{
    assert(merged_status(Some(merged_status(Some(a), Some(b))), Some(c)) == merged_status(
        Some(a),
        Some(merged_status(Some(b), Some(c))),
    ));
}

/// The status column: the status, or two dashes, padded to two characters, and
/// a space.
pub open spec fn status_column(status: Option<Seq<char>>) -> Seq<char> {
    let shown = match status {
        Some(s) => s,
        None => "--"@,
    };
    padded_right(shown, 2).push(' ')
}

/// `s` with spaces behind it up to a width.
pub open spec fn padded_right(s: Seq<char>, width: int) -> Seq<char> {
    if s.len() >= width {
        s
    } else {
        s + Seq::new((width - s.len()) as nat, |i: int| ' ')
    }
}

/// `s` with spaces before it up to a width.
pub open spec fn padded_left(s: Seq<char>, width: int) -> Seq<char> {
    if s.len() >= width {
        s
    } else {
        Seq::new((width - s.len()) as nat, |i: int| ' ') + s
    }
}

/// Appends spaces.
pub fn push_spaces(out: &mut String, n: usize)
    ensures
        final(out)@ == old(out)@ + Seq::new(n as nat, |i: int| ' '),
{
    let ghost start = out@;
    let mut i: usize = 0;
    assert(start + Seq::new(0, |k: int| ' ') == start);
    while i < n
        invariant
            i <= n,
            out@ == start + Seq::new(i as nat, |k: int| ' '),
        decreases n - i,
    {
        out.push(' ');
        assert(start + Seq::new(i as nat + 1, |k: int| ' ') == (start + Seq::new(
            i as nat,
            |k: int| ' ',
        )).push(' '));
        i = i + 1;
    }
}

/// Pads on the right.
pub fn pad_right(s: &str, width: usize) -> (r: String)
    ensures
        r@ == padded_right(s@, width as int),
{
    let chars = text::to_chars(s);
    let mut out = text::from_chars(chars.as_slice());
    if chars.len() < width {
        push_spaces(&mut out, width - chars.len());
    }
    out
}

/// Pads on the left.
pub fn pad_left(s: &str, width: usize) -> (r: String)
    ensures
        r@ == padded_left(s@, width as int),
{
    let chars = text::to_chars(s);
    let mut out = String::new();
    if chars.len() < width {
        push_spaces(&mut out, width - chars.len());
        out.push_str(s);
        assert(out@ == padded_left(s@, width as int));
    } else {
        out.push_str(s);
        assert(out@ == s@);
    }
    out
}

/// Writes the status column.
pub fn write_git_status(status: Option<&str>) -> (r: String)
    ensures
        r@ == status_column(
            match status {
                Some(s) => Some(s@),
                None => None,
            },
        ),
{
    let shown = match status {
        Some(s) => s,
        None => "--",
    };
    let mut out = pad_right(shown, 2);
    out.push(' ');
    out
}

/// The strength of a status letter: what is unmerged is the strongest, then what was added,
/// renamed, copied, deleted, modified, changed in type, new or not tracked, and ignored.
pub proof fn law_letters_by_strength(ch: char)
    ensures
        status_rank('U') > status_rank('A'),
        status_rank('A') > status_rank('R'),
        status_rank('R') > status_rank('C'),
        status_rank('C') > status_rank('D'),
        status_rank('D') > status_rank('M'),
        status_rank('M') > status_rank('T'),
        status_rank('T') > status_rank('N'),
        status_rank('N') == status_rank('?'),
        status_rank('N') > status_rank('I'),
        status_rank('I') > status_rank('-'),
        status_rank(ch) <= status_rank('U'),
        status_rank(ch) >= status_rank('-'),
{
}

/// A merged status has two letters, each of which is one of the two that were merged: the
/// stronger, and the first where they are alike.
pub proof fn law_merged_letters_are_taken_over(a: Seq<char>, b: Seq<char>, i: int)
    requires
        0 <= i < 2,
    ensures
        merged_status(Some(a), Some(b)).len() == 2,
        status_rank(status_at(b, i)) > status_rank(status_at(a, i)) ==> merged_status(
            Some(a),
            Some(b),
        )[i] == status_at(b, i),
        status_rank(status_at(b, i)) <= status_rank(status_at(a, i)) ==> merged_status(
            Some(a),
            Some(b),
        )[i] == status_at(a, i),
        merged_status(Some(a), None)[i] == status_at(a, i),
        merged_status(None, Some(b))[i] == status_at(b, i),
        merged_status(None, None)[i] == '-',
        i < a.len() ==> status_at(a, i) == a[i],
        i >= a.len() ==> status_at(a, i) == '-',
{
}

/// Padding adds spaces only, as many as are missing, on the one side.
pub proof fn law_padding_adds_spaces(s: Seq<char>, width: int, i: int)
    ensures
        padded_right(s, width).len() == (if s.len() >= width {
            s.len() as int
        } else {
            width
        }),
        padded_left(s, width).len() == padded_right(s, width).len(),
        0 <= i < s.len() ==> padded_right(s, width)[i] == s[i],
        s.len() <= i < padded_right(s, width).len() ==> padded_right(s, width)[i] == ' ',
        0 <= i < padded_left(s, width).len() - s.len() ==> padded_left(s, width)[i] == ' ',
        0 <= i < s.len() ==> padded_left(s, width)[padded_left(s, width).len() - s.len() + i]
            == s[i],
{
}

} // verus!
