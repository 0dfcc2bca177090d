//! A rendered tree listing, upside down.

use crate::order;
use crate::telemetry;
use crate::text;
use vstd::prelude::*;

verus! {

/// What follows the sequence that an escape and a bracket open: it ends with a
/// letter.
pub open spec fn after_csi(s: Seq<char>) -> Seq<char>
    decreases s.len(),
{
    if s.len() == 0 {
        s
    } else if is_letter(s[0]) {
        s.skip(1)
    } else {
        after_csi(s.skip(1))
    }
}

/// An ASCII letter.
pub open spec fn is_letter(c: char) -> bool {
    ('a' <= c && c <= 'z') || ('A' <= c && c <= 'Z')
}

/// What follows the sequence that an escape and a closing bracket open: it ends
/// with a bell, or an escape and a backslash.
pub open spec fn after_osc(s: Seq<char>) -> Seq<char>
    decreases s.len(),
{
    if s.len() == 0 {
        s
    } else if s[0] == '\x07' {
        s.skip(1)
    } else if s[0] == '\x1b' && s.len() > 1 && s[1] == '\\' {
        s.skip(2)
    } else {
        after_osc(s.skip(1))
    }
}

pub proof fn lemma_after_shorter(s: Seq<char>)
    ensures
        after_csi(s).len() <= s.len(),
        after_osc(s).len() <= s.len(),
    decreases s.len(),
{
    if s.len() > 0 {
        lemma_after_shorter(s.skip(1));
    }
}

/// A text without its colors and links.
pub open spec fn plain(s: Seq<char>) -> Seq<char>
    decreases s.len(),
{
    if s.len() == 0 {
        s
    } else if s[0] == '\x1b' && s.len() > 1 && s[1] == '[' {
        proof {
            lemma_after_shorter(s.skip(2));
        }
        plain(after_csi(s.skip(2)))
    } else if s[0] == '\x1b' && s.len() > 1 && s[1] == ']' {
        proof {
            lemma_after_shorter(s.skip(2));
        }
        plain(after_osc(s.skip(2)))
    } else {
        seq![s[0]] + plain(s.skip(1))
    }
}

fn skip_csi(s: &[char], from: usize) -> (r: usize)
    requires
        from <= s@.len(),
    ensures
        from <= r <= s@.len(),
        s@.skip(r as int) == after_csi(s@.skip(from as int)),
{
    let mut i: usize = from;
    while i < s.len()
        invariant
            from <= i <= s@.len(),
            after_csi(s@.skip(i as int)) == after_csi(s@.skip(from as int)),
        decreases s@.len() - i,
    {
        let c = s[i];
        assert(s@.skip(i as int).skip(1) == s@.skip(i + 1));
        i = i + 1;
        if ('a' <= c && c <= 'z') || ('A' <= c && c <= 'Z') {
            return i;
        }
    }
    i
}

fn skip_osc(s: &[char], from: usize) -> (r: usize)
    requires
        from <= s@.len(),
    ensures
        from <= r <= s@.len(),
        s@.skip(r as int) == after_osc(s@.skip(from as int)),
{
    let mut i: usize = from;
    while i < s.len()
        invariant
            from <= i <= s@.len(),
            after_osc(s@.skip(i as int)) == after_osc(s@.skip(from as int)),
        decreases s@.len() - i,
    {
        let ghost rest = s@.skip(i as int);
        assert(rest.skip(1) == s@.skip(i + 1));
        if s[i] == '\x07' {
            return i + 1;
        }
        if s[i] == '\x1b' && i + 1 < s.len() && s[i + 1] == '\\' {
            assert(rest.skip(2) == s@.skip(i + 2));
            return i + 2;
        }
        i = i + 1;
    }
    i
}

/// Takes the colors and links out of a text.
pub fn strip_ansi(s: &[char]) -> (r: Vec<char>)
    ensures
        r@ == plain(s@),
{
    let mut out: Vec<char> = Vec::new();
    let mut i: usize = 0;
    assert(s@.skip(0) == s@);
    assert(out@ + plain(s@.skip(0)) == plain(s@));
    while i < s.len()
        invariant
            i <= s@.len(),
            out@ + plain(s@.skip(i as int)) == plain(s@),
        decreases s@.len() - i,
    {
        let ghost rest = s@.skip(i as int);
        if s[i] == '\x1b' && i + 1 < s.len() {
            assert(rest.skip(2) == s@.skip(i + 2));
            if s[i + 1] == '[' {
                i = skip_csi(s, i + 2);
                continue;
            }
            if s[i + 1] == ']' {
                i = skip_osc(s, i + 2);
                continue;
            }
        }
        assert(rest.skip(1) == s@.skip(i + 1));
        let ghost before = out@;
        out.push(s[i]);
        assert(before + (seq![rest[0]] + plain(rest.skip(1))) == out@ + plain(s@.skip(i + 1)));
        i = i + 1;
    }
    assert(s@.skip(s@.len() as int) == Seq::<char>::empty());
    out
}

/// A text without escapes is left as it is.
pub proof fn law_plain_text_is_kept(s: Seq<char>)
    requires
        !s.contains('\x1b'),
    ensures
        plain(s) == s,
    decreases s.len(),
{
    if s.len() > 0 {
        assert(s[0] != '\x1b') by {
            if s[0] == '\x1b' {
                assert(s.contains('\x1b'));
            }
        }
        let rest = s.skip(1);
        assert(!rest.contains('\x1b')) by {
            if rest.contains('\x1b') {
                let i = choose|i: int| 0 <= i < rest.len() && rest[i] == '\x1b';
                assert(s[i + 1] == '\x1b');
            }
        }
        law_plain_text_is_kept(rest);
        assert(seq![s[0]] + rest == s);
    }
}

/// Where the connector of a line stands, if it has one.
pub open spec fn connector_at(line: Seq<char>) -> Option<nat> {
    match text::find_text(line, "├── "@) {
        Some(i) => Some(i),
        None => match text::find_text(line, "└── "@) {
            Some(i) => Some(i),
            None => text::find_text(line, "┌── "@),
        },
    }
}

fn find_connector(line: &[char]) -> (r: Option<usize>)
    ensures
        match connector_at(line@) {
            Some(i) => r == Some(i as usize) && i <= usize::MAX,
            None => r is None,
        },
{
    match text::search(line, text::to_chars("├── ").as_slice()) {
        Some(i) => Some(i),
        None => match text::search(line, text::to_chars("└── ").as_slice()) {
            Some(i) => Some(i),
            None => text::search(line, text::to_chars("┌── ").as_slice()),
        },
    }
}

/// A line with another connector in place of its own.
pub open spec fn with_connector(line: Seq<char>, connector: Seq<char>) -> Seq<char> {
    match connector_at(line) {
        Some(i) => line.take(i as int) + connector + line.skip(i as int + 4),
        None => line,
    }
}

proof fn lemma_find_text_bound(s: Seq<char>, p: Seq<char>)
    ensures
        text::find_text(s, p) is Some ==> text::find_text(s, p)->0 + p.len() <= s.len(),
    decreases s.len(),
{
    reveal_with_fuel(text::find_text, 2);
    if s.len() > 0 {
        lemma_find_text_bound(s.skip(1), p);
    }
}

proof fn lemma_connector_bound(line: Seq<char>)
    ensures
        connector_at(line) is Some ==> connector_at(line)->0 + 4 <= line.len(),
{
    reveal_strlit("├── ");
    reveal_strlit("└── ");
    reveal_strlit("┌── ");
    lemma_find_text_bound(line, "├── "@);
    lemma_find_text_bound(line, "└── "@);
    lemma_find_text_bound(line, "┌── "@);
}

fn set_connector(line: &[char], connector: &str) -> (r: Vec<char>)
    ensures
        r@ == with_connector(line@, connector@),
{
    proof {
        lemma_connector_bound(line@);
    }
    match find_connector(line) {
        Some(i) => {
            assert(i + 4 <= line@.len() && line@.len() == line.len());
            let mut out = text::part(line, 0, i);
            let rest = text::part(line, i + 4, line.len());
            text::extend(&mut out, text::to_chars(connector).as_slice());
            text::extend(&mut out, rest.as_slice());
            assert(out@ == with_connector(line@, connector@));
            out
        },
        None => {
            let out = text::part(line, 0, line.len());
            assert(out@ == line@);
            out
        },
    }
}

/// The first column in which a connector stands, over the plain lines.
pub open spec fn base_column(lines: Seq<Seq<char>>) -> Option<nat>
    decreases lines.len(),
{
    if lines.len() == 0 {
        None
    } else {
        let before = base_column(lines.drop_last());
        match (before, connector_at(lines.last())) {
            (Some(a), Some(b)) => if b < a {
                Some(b)
            } else {
                Some(a)
            },
            (Some(a), None) => Some(a),
            (None, b) => b,
        }
    }
}

/// Whether a plain line stands at the top level.
pub open spec fn is_top(line: Seq<char>, base: nat) -> bool {
    match connector_at(line) {
        Some(i) => i < base + 4,
        None => false,
    }
}

/// A line of the reversed listing before the top level is set: what ended a level
/// begins it.
pub open spec fn turned(line: Seq<char>) -> Seq<char> {
    if text::find_text(line, "└── "@) is Some {
        with_connector(line, "┌── "@)
    } else {
        line
    }
}

/// The first `n` lines of the reversed listing, with how many of them stand at
/// the top level.
pub open spec fn turned_lines(
    lines: Seq<Seq<char>>,
    plain_lines: Seq<Seq<char>>,
    base: nat,
    n: int,
) -> (Seq<Seq<char>>, nat)
    decreases n,
{
    if n <= 0 {
        (Seq::empty(), 0)
    } else {
        let before = turned_lines(lines, plain_lines, base, n - 1);
        let line = turned(lines[n - 1]);
        if is_top(plain_lines[n - 1], base) {
            (
                before.0.push(
                    with_connector(
                        line,
                        if before.1 == 0 {
                            "┌── "@
                        } else {
                            "├── "@
                        },
                    ),
                ),
                before.1 + 1,
            )
        } else {
            (before.0.push(line), before.1)
        }
    }
}

/// The line of the root in a reversed listing: a dot is raised.
pub open spec fn turned_root(line: Seq<char>) -> Seq<char> {
    let p = plain(line);
    let words = text::words(p);
    let dotted = text::trimmed(p) == "."@ || (text::find_text(p, "──"@) is None && words.len() > 0
        && words.last() == "."@);
    let at = text::rfind_char(line, '.');
    if dotted && at >= 0 {
        line.take(at) + "·"@
    } else {
        line
    }
}

/// The lines of a listing, upside down.
pub open spec fn reversed_lines(lines: Seq<Seq<char>>) -> Seq<Seq<char>> {
    let flat = lines.map_values(|l: Seq<char>| plain(l));
    let base = match base_column(flat) {
        Some(b) => b,
        None => 0,
    };
    let out = turned_lines(lines.reverse(), flat.reverse(), base, lines.len() as int).0;
    if out.len() == 0 {
        out
    } else {
        out.drop_last().push(turned_root(out.last()))
    }
}

/// A rendered listing, upside down.
pub open spec fn reversed_text(s: Seq<char>) -> Seq<char> {
    let body = text::joined(reversed_lines(text::lines_of(s)), "\n"@);
    if s.len() > 0 && s.last() == '\n' {
        body.push('\n')
    } else {
        body
    }
}

proof fn lemma_turned_len(lines: Seq<Seq<char>>, plain_lines: Seq<Seq<char>>, base: nat, n: int)
    requires
        0 <= n,
    ensures
        turned_lines(lines, plain_lines, base, n).0.len() == n,
    decreases n,
{
    if n > 0 {
        lemma_turned_len(lines, plain_lines, base, n - 1);
    }
}

/// A reversed listing has as many lines as the listing.
pub proof fn law_reversing_keeps_the_lines(lines: Seq<Seq<char>>)
    ensures
        reversed_lines(lines).len() == lines.len(),
{
    let flat = lines.map_values(|l: Seq<char>| plain(l));
    let base = match base_column(flat) {
        Some(b) => b,
        None => 0,
    };
    lemma_turned_len(lines.reverse(), flat.reverse(), base, lines.len() as int);
}

fn turn_root(line: &[char]) -> (r: Vec<char>)
    ensures
        r@ == turned_root(line@),
{
    let p = strip_ansi(line);
    let words = text::split_words(p.as_slice());
    let ghost w = text::rows(words@);
    let bare = text::trim(p.as_slice());
    let alone = text::is_text(bare.as_slice(), ".");
    let last_dot = if words.len() > 0 {
        assert(w.last() == words@[words@.len() - 1]@);
        text::is_text(words[words.len() - 1].as_slice(), ".")
    } else {
        false
    };
    let dotted = alone || (text::search(p.as_slice(), text::to_chars("──").as_slice()).is_none()
        && last_dot);
    if dotted {
        if let Some(at) = text::rfind(line, '.') {
            proof {
                lemma_rfind_inside(line@);
            }
            let mut out = text::part(line, 0, at);
            assert(out@ == line@.take(at as int));
            text::extend(&mut out, text::to_chars("·").as_slice());
            return out;
        }
    }
    let out = text::part(line, 0, line.len());
    assert(out@ == line@);
    out
}

proof fn lemma_rfind_inside(s: Seq<char>)
    ensures
        text::rfind_char(s, '.') < s.len() || s.len() == 0,
        text::rfind_char(s, '.') >= -1,
    decreases s.len(),
{
    if s.len() > 0 {
        lemma_rfind_inside(s.drop_last());
    }
}

fn plain_of(lines: &Vec<Vec<char>>) -> (r: Vec<Vec<char>>)
    ensures
        text::rows(r@) == text::rows(lines@).map_values(|l: Seq<char>| plain(l)),
{
    let ghost want = text::rows(lines@).map_values(|l: Seq<char>| plain(l));
    let mut out: Vec<Vec<char>> = Vec::new();
    let mut i: usize = 0;
    assert(text::rows(out@) == want.take(0));
    while i < lines.len()
        invariant
            i <= lines@.len(),
            want == text::rows(lines@).map_values(|l: Seq<char>| plain(l)),
            text::rows(out@) == want.take(i as int),
        decreases lines@.len() - i,
    {
        let ghost before = text::rows(out@);
        out.push(strip_ansi(lines[i].as_slice()));
        assert(text::rows(out@) == before.push(want[i as int]));
        assert(want.take(i + 1) == want.take(i as int).push(want[i as int]));
        i = i + 1;
    }
    assert(want.take(want.len() as int) == want);
    out
}

fn find_base(lines: &Vec<Vec<char>>) -> (r: usize)
    ensures
        r == (match base_column(text::rows(lines@)) {
            Some(b) => b,
            None => 0,
        }),
{
    let ghost all = text::rows(lines@);
    let mut base: Option<usize> = None;
    let mut i: usize = 0;
    assert(all.take(0) == Seq::<Seq<char>>::empty());
    while i < lines.len()
        invariant
            i <= lines@.len(),
            all == text::rows(lines@),
            match base_column(all.take(i as int)) {
                Some(b) => base == Some(b as usize) && b <= usize::MAX,
                None => base is None,
            },
        decreases lines@.len() - i,
    {
        let ghost step = all.take(i + 1);
        assert(step.drop_last() == all.take(i as int));
        assert(step.last() == lines@[i as int]@);
        if let Some(c) = find_connector(lines[i].as_slice()) {
            base = match base {
                Some(b) => if c < b {
                    Some(c)
                } else {
                    Some(b)
                },
                None => Some(c),
            };
        }
        i = i + 1;
    }
    assert(all.take(all.len() as int) == all);
    match base {
        Some(b) => b,
        None => 0,
    }
}

fn reverse_lines(lines: Vec<Vec<char>>) -> (r: Vec<Vec<char>>)
    ensures
        text::rows(r@) == reversed_lines(text::rows(lines@)),
{
    let ghost all = text::rows(lines@);
    let mut flat = plain_of(&lines);
    let base: usize = find_base(&flat);
    let ghost flat_rows = text::rows(flat@);
    let mut lines = lines;
    order::reverse(&mut lines);
    order::reverse(&mut flat);
    let ghost up = all.reverse();
    let ghost flat_up = flat_rows.reverse();
    assert(text::rows(lines@) == up);
    assert(text::rows(flat@) == flat_up);
    let n: usize = lines.len();
    let mut out: Vec<Vec<char>> = Vec::new();
    let mut tops: usize = 0;
    let mut i: usize = 0;
    assert(text::rows(out@) == Seq::<Seq<char>>::empty());
    while i < n
        invariant
            i <= n,
            n == lines@.len(),
            n == flat@.len(),
            text::rows(lines@) == up,
            text::rows(flat@) == flat_up,
            tops <= i,
            ({
                let t = turned_lines(up, flat_up, base as nat, i as int);
                text::rows(out@) == t.0 && tops == t.1
            }),
        decreases n - i,
    {
        assert(up[i as int] == lines@[i as int]@);
        assert(flat_up[i as int] == flat@[i as int]@);
        let ended = text::search(lines[i].as_slice(), text::to_chars("└── ").as_slice()).is_some();
        let mut line = if ended {
            set_connector(lines[i].as_slice(), "┌── ")
        } else {
            text::part(lines[i].as_slice(), 0, lines[i].len())
        };
        assert(line@ == turned(up[i as int]));
        let top = match find_connector(flat[i].as_slice()) {
            Some(c) => c < base || c - base < 4,
            None => false,
        };
        assert(top == is_top(flat_up[i as int], base as nat));
        if top {
            line = set_connector(
                line.as_slice(),
                if tops == 0 {
                    "┌── "
                } else {
                    "├── "
                },
            );
            tops = tops + 1;
        }
        let ghost before = text::rows(out@);
        out.push(line);
        assert(text::rows(out@) == before.push(line@));
        i = i + 1;
    }
    assert(n == all.len());
    let m: usize = out.len();
    if m > 0 {
        let ghost done = text::rows(out@);
        assert(done.last() == out@[m - 1]@);
        let root = turn_root(out[m - 1].as_slice());
        out.set(m - 1, root);
        assert(text::rows(out@) == done.drop_last().push(turned_root(done.last())));
    } else {
        assert(text::rows(out@).len() == 0);
    }
    out
}

/// Turns a rendered listing upside down.
pub fn reverse_text(s: &str) -> (r: String)
    ensures
        r@ == reversed_text(s@),
{
    let chars = text::to_chars(s);
    let lines = reverse_lines(text::lines(chars.as_slice()));
    let mut out = text::join(lines.as_slice(), text::to_chars("\n").as_slice());
    if chars.len() > 0 && chars[chars.len() - 1] == '\n' {
        out.push('\n');
    }
    text::from_chars(out.as_slice())
}

/// Turns a rendered listing upside down. Bytes that are no UTF-8 are marked.
pub fn reverse_rendered_output(output: &[u8]) -> (r: Vec<u8>)
    ensures
        r@ == vstd::utf8::encode_utf8(reversed_text(telemetry::lossy_text(output@))),
        vstd::utf8::valid_utf8(output@) ==> r@ == vstd::utf8::encode_utf8(
            reversed_text(vstd::utf8::decode_utf8(output@)),
        ),
{
    let s = telemetry::from_utf8_lossy(output);
    proof {
        vstd::utf8::encode_utf8_decode_utf8(s@);
    }
    let turned = reverse_text(s.as_str());
    let bytes = turned.as_str().as_bytes();
    let mut out: Vec<u8> = Vec::new();
    let mut i: usize = 0;
    while i < bytes.len()
        invariant
            i <= bytes@.len(),
            out@ == bytes@.take(i as int),
        decreases bytes@.len() - i,
    {
        out.push(bytes[i]);
        assert(out@ == bytes@.take(i + 1));
        i = i + 1;
    }
    assert(bytes@.take(bytes@.len() as int) == bytes@);
    out
}

/// The base column is one in which a connector stands, and none stands before it.
pub proof fn law_the_base_column_is_the_first(lines: Seq<Seq<char>>, i: int)
    requires
        0 <= i < lines.len(),
    ensures
        connector_at(lines[i]) matches Some(at) ==> (base_column(lines) matches Some(b) && b <= at),
        base_column(lines) matches Some(b) ==> exists|k: int|
            0 <= k < lines.len() && connector_at(#[trigger] lines[k]) == Some(b),
    decreases lines.len(),
{
    let t = lines.drop_last();
    if t.len() > 0 {
        let j = if i < t.len() {
            i
        } else {
            0
        };
        law_the_base_column_is_the_first(t, j);
        assert(t[j] == lines[j]);
    }
    if base_column(lines) is Some {
        let b = base_column(lines)->0;
        if connector_at(lines.last()) == Some(b) {
            assert(lines[lines.len() - 1] == lines.last());
        } else {
            assert(base_column(t) == Some(b));
            assert(t.len() > 0);
            let k = choose|k: int| 0 <= k < t.len() && connector_at(#[trigger] t[k]) == Some(b);
            assert(lines[k] == t[k]);
        }
    }
}

proof fn lemma_turned_at(
    lines: Seq<Seq<char>>,
    plain_lines: Seq<Seq<char>>,
    base: nat,
    n: int,
    k: int,
)
    requires
        0 <= k < n,
        !is_top(plain_lines[k], base),
    ensures
        turned_lines(lines, plain_lines, base, n).0.len() == n,
        turned_lines(lines, plain_lines, base, n).0[k] == turned(lines[k]),
    decreases n,
{
    lemma_turned_len(lines, plain_lines, base, n);
    lemma_turned_len(lines, plain_lines, base, n - 1);
    if k < n - 1 {
        lemma_turned_at(lines, plain_lines, base, n - 1, k);
    }
}

/// The lines of a listing come in the opposite order. One below the top level that does not
/// end its level is as it was.
pub proof fn law_lines_come_in_opposite_order(lines: Seq<Seq<char>>, i: int)
    requires
        0 < i < lines.len(),
        text::find_text(lines[i], "└── "@) is None,
        match (connector_at(plain(lines[i])), base_column(lines.map_values(|l: Seq<char>| plain(l)))) {
            (Some(at), Some(b)) => at >= b + 4,
            _ => connector_at(plain(lines[i])) is None,
        },
    ensures
        reversed_lines(lines)[lines.len() - 1 - i] == lines[i],
{
    let flat = lines.map_values(|l: Seq<char>| plain(l));
    let base = match base_column(flat) {
        Some(b) => b,
        None => 0,
    };
    let k = lines.len() - 1 - i;
    assert(flat.reverse()[k] == plain(lines[i]));
    assert(lines.reverse()[k] == lines[i]);
    lemma_turned_at(lines.reverse(), flat.reverse(), base, lines.len() as int, k);
}

/// A line below the top level that ended its level begins it in the reversed listing: the
/// corner is turned, and the rest of the line stays.
pub proof fn law_corners_are_turned(lines: Seq<Seq<char>>, i: int)
    requires
        0 < i < lines.len(),
        text::find_text(lines[i], "├── "@) is None,
        text::find_text(lines[i], "└── "@) is Some,
        match (connector_at(plain(lines[i])), base_column(lines.map_values(|l: Seq<char>| plain(l)))) {
            (Some(at), Some(b)) => at >= b + 4,
            _ => connector_at(plain(lines[i])) is None,
        },
    ensures
        ({
            let r = reversed_lines(lines)[lines.len() - 1 - i];
            let at = text::find_text(lines[i], "└── "@)->0 as int;
            &&& r.len() == lines[i].len()
            &&& r[at] == '┌'
            &&& forall|j: int| 0 <= j < r.len() && j != at ==> #[trigger] r[j] == lines[i][j]
        }),
{
    reveal_strlit("└── ");
    reveal_strlit("┌── ");
    let flat = lines.map_values(|l: Seq<char>| plain(l));
    let base = match base_column(flat) {
        Some(b) => b,
        None => 0,
    };
    let k = lines.len() - 1 - i;
    let line = lines[i];
    let at = text::find_text(line, "└── "@)->0 as int;
    assert(flat.reverse()[k] == plain(line));
    assert(lines.reverse()[k] == line);
    lemma_turned_at(lines.reverse(), flat.reverse(), base, lines.len() as int, k);
    text::law_the_first_occurrence_is_found(line, "└── "@, 0);
    let r = reversed_lines(lines)[k];
    assert(r == line.take(at) + "┌── "@ + line.skip(at + 4));
    assert(line.skip(at).take(4) == "└── "@);
    assert forall|j: int| 0 <= j < r.len() && j != at implies #[trigger] r[j] == line[j] by {
        if at < j < at + 4 {
            assert(line.skip(at).take(4)[j - at] == line[j]);
            assert("└── "@[j - at] == "┌── "@[j - at]);
        }
    }
}

/// A text that ends with a line feed still does when it is reversed.
pub proof fn law_the_end_of_the_text_is_kept(s: Seq<char>)
    requires
        s.len() > 0,
        s.last() == '\n',
    ensures
        reversed_text(s).len() > 0,
        reversed_text(s).last() == '\n',
{
}

} // verus!
