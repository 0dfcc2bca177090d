//! Paths as text, without loss and in one line. A name that is UTF-8 is shown as it
//! is. In one that is not, or that holds control characters, these and the bytes
//! beyond ASCII are written in hexadecimal behind a percent sign.

use crate::changes;
use crate::paths;
use crate::telemetry;
use crate::text;
use vstd::prelude::*;

verus! {

/// The hexadecimal digit of a value below sixteen.
pub open spec fn hex_of(v: u8) -> u8 {
    if v < 10 {
        (48 + v) as u8
    } else {
        (55 + v) as u8
    }
}

/// The value of a hexadecimal digit.
pub open spec fn hex_value(d: u8) -> Option<u8> {
    if 48 <= d <= 57 {
        Some((d - 48) as u8)
    } else if 65 <= d <= 70 {
        Some((d - 55) as u8)
    } else {
        None
    }
}

/// Whether a byte is a control character.
pub open spec fn is_control(b: u8) -> bool {
    b < 32 || b == 127
}

/// Whether a byte is written with an escape: a percent sign, a control character, or
/// one beyond ASCII.
pub open spec fn needs_escape(b: u8) -> bool {
    b == 37 || b >= 128 || is_control(b)
}

/// Whether a name holds a control character.
pub open spec fn has_control(name: Seq<u8>) -> bool {
    exists|i: int| 0 <= i < name.len() && is_control(#[trigger] name[i])
}

/// Bytes with escapes.
pub open spec fn escaped(s: Seq<u8>) -> Seq<u8>
    decreases s.len(),
{
    if s.len() == 0 {
        s
    } else {
        escaped(s.drop_last()) + (if needs_escape(s.last()) {
            seq![37u8, hex_of(s.last() / 16), hex_of(s.last() % 16)]
        } else {
            seq![s.last()]
        })
    }
}

/// The byte that the escape at `i` stands for.
pub open spec fn escape_at(s: Seq<u8>, i: int) -> Option<u8> {
    if i + 2 < s.len() && s[i] == 37 && hex_value(s[i + 1]) is Some && hex_value(s[i + 2]) is Some {
        let b = (hex_value(s[i + 1])->0 * 16 + hex_value(s[i + 2])->0) as u8;
        if needs_escape(b) {
            Some(b)
        } else {
            None
        }
    } else {
        None
    }
}

/// Bytes from `i` on with their escapes resolved; nothing, where some byte that is
/// written with an escape is no part of one.
pub open spec fn resolved_from(s: Seq<u8>, i: int) -> Option<Seq<u8>>
    decreases s.len() - i,
{
    if i < 0 || i >= s.len() {
        Some(Seq::empty())
    } else if !needs_escape(s[i]) {
        match resolved_from(s, i + 1) {
            Some(rest) => Some(seq![s[i]] + rest),
            None => None,
        }
    } else {
        match escape_at(s, i) {
            Some(b) => match resolved_from(s, i + 3) {
                Some(rest) => Some(seq![b] + rest),
                None => None,
            },
            None => None,
        }
    }
}

/// Whether bytes read as a name with escapes.
pub open spec fn reads_escaped(s: Seq<u8>) -> bool {
    s.contains(37) && resolved_from(s, 0) is Some
}

/// The UTF-8 bytes of the text of a name.
pub open spec fn shown_bytes(name: Seq<u8>) -> Seq<u8> {
    if vstd::utf8::valid_utf8(name) && !reads_escaped(name) && !has_control(name) {
        name
    } else {
        escaped(name)
    }
}

/// The text of a name.
pub open spec fn name_text_of(name: Seq<u8>) -> Seq<char> {
    vstd::utf8::decode_utf8(shown_bytes(name))
}

/// The name that a text stands for.
pub open spec fn name_bytes_of(shown: Seq<char>) -> Seq<u8> {
    let s = vstd::utf8::encode_utf8(shown);
    if reads_escaped(s) {
        resolved_from(s, 0)->0
    } else {
        s
    }
}

/// The names of a path, around its slashes.
pub open spec fn pieces_of(path: Seq<u8>) -> Seq<Seq<u8>>
    decreases path.len(),
{
    if path.len() == 0 {
        seq![Seq::empty()]
    } else {
        let before = pieces_of(path.drop_last());
        if path.last() == 47 {
            before.push(Seq::empty())
        } else {
            before.drop_last().push(before.last().push(path.last()))
        }
    }
}

/// Names with slashes between them.
pub open spec fn slashed(names: Seq<Seq<u8>>) -> Seq<u8>
    decreases names.len(),
{
    if names.len() == 0 {
        Seq::empty()
    } else if names.len() == 1 {
        names[0]
    } else {
        slashed(names.drop_last()) + seq![47u8] + names.last()
    }
}

/// The text of each name.
pub open spec fn texts_of(names: Seq<Seq<u8>>) -> Seq<Seq<char>> {
    names.map_values(|name: Seq<u8>| name_text_of(name))
}

/// The name that each text stands for.
pub open spec fn names_of(texts: Seq<Seq<char>>) -> Seq<Seq<u8>> {
    texts.map_values(|shown: Seq<char>| name_bytes_of(shown))
}

/// The text of a path.
pub open spec fn path_text_of(path: Seq<u8>) -> Seq<char> {
    text::joined(texts_of(pieces_of(path)), "/"@)
}

/// The path that a text stands for.
pub open spec fn path_bytes_of(shown: Seq<char>) -> Seq<u8> {
    slashed(names_of(text::split_on(shown, '/')))
}

proof fn lemma_hex(b: u8)
    requires
        needs_escape(b),
    ensures
        hex_value(hex_of(b / 16)) == Some((b / 16) as u8),
        hex_value(hex_of(b % 16)) == Some((b % 16) as u8),
        (b / 16) * 16 + b % 16 == b,
        hex_of(b / 16) < 128,
        hex_of(b % 16) < 128,
{
}

/// Resolving reads on where it has read an escape or a plain byte.
proof fn lemma_resolved_append(s: Seq<u8>, t: Seq<u8>, i: int)
    requires
        0 <= i <= s.len(),
        resolved_from(s, i) is Some,
    ensures
        resolved_from(s + t, i) == (match resolved_from(t, 0) {
            Some(rest) => Some(resolved_from(s, i)->0 + rest),
            None => None::<Seq<u8>>,
        }),
    decreases s.len() - i,
{
    let all = s + t;
    if i == s.len() {
        lemma_resolved_shift(s, t, 0);
        if let Some(rest) = resolved_from(t, 0) {
            assert(Seq::<u8>::empty() + rest == rest);
        }
    } else if !needs_escape(s[i]) {
        lemma_resolved_append(s, t, i + 1);
        if let Some(rest) = resolved_from(t, 0) {
            let later = resolved_from(s, i + 1)->0;
            assert(seq![s[i]] + (later + rest) == (seq![s[i]] + later) + rest);
        }
    } else {
        assert(escape_at(s, i) is Some);
        assert(escape_at(all, i) == escape_at(s, i));
        lemma_resolved_append(s, t, i + 3);
        if let Some(rest) = resolved_from(t, 0) {
            let later = resolved_from(s, i + 3)->0;
            let b = escape_at(s, i)->0;
            assert(seq![b] + (later + rest) == (seq![b] + later) + rest);
        }
    }
}

proof fn lemma_resolved_shift(s: Seq<u8>, t: Seq<u8>, i: int)
    requires
        0 <= i <= t.len(),
    ensures
        resolved_from(s + t, s.len() + i) == resolved_from(t, i),
    decreases t.len() - i,
{
    let all = s + t;
    let n = s.len() as int;
    if i < t.len() {
        assert(all[n + i] == t[i]);
        lemma_resolved_shift(s, t, i + 1);
        if i + 2 < t.len() {
            assert(all[n + i + 1] == t[i + 1] && all[n + i + 2] == t[i + 2]);
        }
        assert(escape_at(all, n + i) == escape_at(t, i));
        if i + 3 <= t.len() {
            lemma_resolved_shift(s, t, i + 3);
        }
    }
}

proof fn lemma_one_byte(b: u8)
    ensures
        resolved_from(
            if needs_escape(b) {
                seq![37u8, hex_of(b / 16), hex_of(b % 16)]
            } else {
                seq![b]
            },
            0,
        ) == Some(seq![b]),
{
    if needs_escape(b) {
        lemma_hex(b);
        let t = seq![37u8, hex_of(b / 16), hex_of(b % 16)];
        assert(escape_at(t, 0) == Some(b));
        assert(resolved_from(t, 3) == Some(Seq::<u8>::empty()));
        assert(seq![b] + Seq::<u8>::empty() == seq![b]);
    } else {
        let t = seq![b];
        assert(resolved_from(t, 1) == Some(Seq::<u8>::empty()));
        assert(seq![b] + Seq::<u8>::empty() == seq![b]);
    }
}

/// Escapes are resolved to what was escaped, and are ASCII.
proof fn lemma_escaped(s: Seq<u8>)
    ensures
        resolved_from(escaped(s), 0) == Some(s),
        forall|i: int| 0 <= i < escaped(s).len() ==> #[trigger] escaped(s)[i] < 128,
        (exists|i: int| 0 <= i < s.len() && needs_escape(#[trigger] s[i])) ==> escaped(s).contains(
            37,
        ),
        s.len() > 0 ==> escaped(s).len() > 0,
        !escaped(s).contains(10),
        !s.contains(47) ==> !escaped(s).contains(47),
    decreases s.len(),
{
    if s.len() == 0 {
        assert(resolved_from(s, 0) == Some(Seq::<u8>::empty()));
        assert(s == Seq::<u8>::empty());
    } else {
        let front = s.drop_last();
        let b = s.last();
        let t = if needs_escape(b) {
            seq![37u8, hex_of(b / 16), hex_of(b % 16)]
        } else {
            seq![b]
        };
        let all = escaped(s);
        assert(all == escaped(front) + t);
        lemma_escaped(front);
        lemma_one_byte(b);
        if needs_escape(b) {
            lemma_hex(b);
        }
        lemma_resolved_append(escaped(front), t, 0);
        assert(front + seq![b] == s);
        if exists|i: int| 0 <= i < s.len() && needs_escape(#[trigger] s[i]) {
            let i = choose|i: int| 0 <= i < s.len() && needs_escape(#[trigger] s[i]);
            if i < front.len() {
                assert(needs_escape(front[i]));
                let k = choose|k: int| 0 <= k < escaped(front).len() && escaped(front)[k] == 37;
                assert(all[k] == 37);
            } else {
                assert(all[escaped(front).len() as int] == 37);
            }
        }
        if all.contains(10) {
            let k = choose|k: int| 0 <= k < all.len() && all[k] == 10;
            if k < escaped(front).len() {
                assert(escaped(front)[k] == 10);
            } else {
                assert(t[k - escaped(front).len()] == 10);
            }
        }
        if !s.contains(47) {
            assert(s.contains(s[s.len() - 1]));
            assert(!front.contains(47)) by {
                if front.contains(47) {
                    let k = choose|k: int| 0 <= k < front.len() && front[k] == 47;
                    assert(s[k] == 47);
                }
            }
            if all.contains(47) {
                let k = choose|k: int| 0 <= k < all.len() && all[k] == 47;
                if k < escaped(front).len() {
                    assert(escaped(front)[k] == 47);
                } else {
                    assert(t[k - escaped(front).len()] == 47);
                }
            }
        }
    }
}

/// ASCII is UTF-8.
proof fn lemma_ascii_is_valid(s: Seq<u8>)
    requires
        forall|i: int| 0 <= i < s.len() ==> #[trigger] s[i] < 128,
    ensures
        vstd::utf8::valid_utf8(s),
{
    assert forall|i: int| 0 <= i < s.len() implies #[trigger] vstd::utf8::is_leading_byte_width_1(
        s[i],
    ) by {
        let b = s[i];
        assert(b < 128 ==> b & 0x80 == 0) by (bit_vector);
    }
    assert(s.subrange(0, 0) == Seq::<u8>::empty());
    assert(vstd::utf8::partial_valid_utf8(s, 0));
    vstd::utf8::partial_valid_utf8_extend_ascii_block(s, 0, s.len() as int);
    assert(s.subrange(0, s.len() as int) == s);
}

proof fn lemma_shown_is_valid(name: Seq<u8>)
    ensures
        vstd::utf8::valid_utf8(shown_bytes(name)),
        vstd::utf8::encode_utf8(name_text_of(name)) == shown_bytes(name),
{
    lemma_escaped(name);
    if shown_bytes(name) == escaped(name) {
        lemma_ascii_is_valid(escaped(name));
    }
    vstd::utf8::decode_utf8_encode_utf8(shown_bytes(name));
}

/// The text of a name stands for that name and for no other.
pub proof fn law_names_are_kept(name: Seq<u8>)
    ensures
        name_bytes_of(name_text_of(name)) == name,
{
    lemma_shown_is_valid(name);
    lemma_escaped(name);
    if !(vstd::utf8::valid_utf8(name) && !reads_escaped(name) && !has_control(name)) {
        if !vstd::utf8::valid_utf8(name) {
            assert(exists|i: int| 0 <= i < name.len() && needs_escape(#[trigger] name[i])) by {
                if forall|i: int| 0 <= i < name.len() ==> !needs_escape(#[trigger] name[i]) {
                    lemma_ascii_is_valid(name);
                }
            }
        } else if has_control(name) {
            let k = choose|k: int| 0 <= k < name.len() && is_control(#[trigger] name[k]);
            assert(needs_escape(name[k]));
        } else {
            let k = choose|k: int| 0 <= k < name.len() && name[k] == 37;
            assert(needs_escape(name[k]));
        }
        assert(reads_escaped(escaped(name)));
    }
}

proof fn lemma_char_is_encoded(shown: Seq<char>, c: char)
    requires
        (c as u32) < 128,
    ensures
        shown.contains(c) ==> vstd::utf8::encode_utf8(shown).contains(c as u8),
    decreases shown.len(),
{
    if shown.contains(c) {
        let s = vstd::utf8::encode_utf8(shown);
        let first = vstd::utf8::encode_scalar(shown[0] as u32);
        let rest = shown.drop_first();
        assert(s == first + vstd::utf8::encode_utf8(rest));
        if shown[0] == c {
            let one = seq![c];
            assert(one.drop_first() == Seq::<char>::empty());
            assert(vstd::utf8::encode_utf8(Seq::<char>::empty()) == Seq::<u8>::empty());
            assert(vstd::utf8::encode_utf8(one) == first + Seq::<u8>::empty());
            assert(first + Seq::<u8>::empty() == first);
            vstd::utf8::is_ascii_chars_encode_utf8(one);
            assert(one[0] as u8 == first[0]);
            assert(s[0] == c as u8);
        } else {
            let k = choose|k: int| 0 <= k < shown.len() && shown[k] == c;
            assert(rest[k - 1] == c);
            lemma_char_is_encoded(rest, c);
            let t = vstd::utf8::encode_utf8(rest);
            let m = choose|m: int| 0 <= m < t.len() && t[m] == c as u8;
            assert(s[first.len() + m] == c as u8);
        }
    }
}

proof fn lemma_pieces(path: Seq<u8>)
    ensures
        pieces_of(path).len() > 0,
        slashed(pieces_of(path)) == path,
        forall|i: int| 0 <= i < pieces_of(path).len() ==> !(#[trigger] pieces_of(path)[i]).contains(47),
    decreases path.len(),
{
    let all = pieces_of(path);
    if path.len() > 0 {
        let b = path.last();
        let before = pieces_of(path.drop_last());
        lemma_pieces(path.drop_last());
        let n = before.len() as int;
        if b == 47 {
            assert(all.drop_last() == before);
            assert(slashed(all) == path.drop_last() + seq![47u8] + Seq::<u8>::empty());
            assert(path.drop_last() + seq![47u8] + Seq::<u8>::empty() == path);
        } else {
            assert(all.drop_last() == before.drop_last());
            assert(path.drop_last().push(b) == path);
            if n > 1 {
                assert(slashed(before) == slashed(before.drop_last()) + seq![47u8] + before.last());
                assert(slashed(all) == slashed(before.drop_last()) + seq![47u8]
                    + before.last().push(b));
                assert(slashed(all) == slashed(before).push(b));
            } else {
                assert(all.len() == 1 && all[0] == before[0].push(b));
            }
        }
        assert forall|i: int| 0 <= i < all.len() implies !(#[trigger] all[i]).contains(47) by {
            if i < n - 1 || (b == 47 && i < n) {
                assert(all[i] == before[i]);
            } else if b != 47 {
                assert(!before[n - 1].contains(47));
                if all[i].contains(47) {
                    let k = choose|k: int| 0 <= k < all[i].len() && all[i][k] == 47;
                    if k < before.last().len() {
                        assert(before.last()[k] == 47);
                    }
                }
            }
        }
    } else {
        assert(slashed(all) == path);
    }
}

proof fn lemma_text_has_no_slash(name: Seq<u8>)
    requires
        !name.contains(47),
    ensures
        !name_text_of(name).contains('/'),
{
    lemma_shown_is_valid(name);
    lemma_escaped(name);
    lemma_char_is_encoded(name_text_of(name), '/');
}

/// The text of a path stands for that path and for no other, byte for byte.
pub proof fn law_paths_are_kept(path: Seq<u8>)
    ensures
        path_bytes_of(path_text_of(path)) == path,
{
    let pieces = pieces_of(path);
    let texts = texts_of(pieces);
    lemma_pieces(path);
    assert forall|i: int| 0 <= i < texts.len() implies !(#[trigger] texts[i]).contains('/') by {
        lemma_text_has_no_slash(pieces[i]);
    }
    changes::lemma_split_joined(texts);
    assert(names_of(texts) == pieces) by {
        assert forall|i: int| 0 <= i < pieces.len() implies names_of(texts)[i] == pieces[i] by {
            law_names_are_kept(pieces[i]);
        }
    }
}

proof fn lemma_joined_lines(texts: Seq<Seq<char>>)
    requires
        forall|i: int| 0 <= i < texts.len() ==> !(#[trigger] texts[i]).contains('\n'),
    ensures
        !text::joined(texts, "/"@).contains('\n'),
    decreases texts.len(),
{
    reveal_strlit("/");
    let all = text::joined(texts, "/"@);
    if texts.len() == 1 {
        assert(!texts[0].contains('\n'));
    } else if texts.len() > 1 {
        let front = texts.drop_last();
        assert forall|i: int| 0 <= i < front.len() implies !(#[trigger] front[i]).contains('\n') by {
            assert(front[i] == texts[i]);
        }
        lemma_joined_lines(front);
        let head = text::joined(front, "/"@);
        assert(!texts[texts.len() - 1].contains('\n'));
        if all.contains('\n') {
            let k = choose|k: int| 0 <= k < all.len() && all[k] == '\n';
            if k < head.len() {
                assert(head[k] == '\n');
            } else if k > head.len() {
                assert(texts.last()[k - head.len() - 1] == '\n');
            }
        }
    }
}

/// The text of a path is one line, whatever its names hold.
pub proof fn law_paths_are_one_line(path: Seq<u8>)
    ensures
        !path_text_of(path).contains('\n'),
{
    let pieces = pieces_of(path);
    let texts = texts_of(pieces);
    assert forall|i: int| 0 <= i < texts.len() implies !(#[trigger] texts[i]).contains('\n') by {
        let name = pieces[i];
        lemma_shown_is_valid(name);
        lemma_escaped(name);
        lemma_char_is_encoded(name_text_of(name), '\n');
        assert('\n' as u8 == 10);
        if name.contains(10) {
            let k = choose|k: int| 0 <= k < name.len() && name[k] == 10;
            assert(is_control(name[k]));
        }
    }
    lemma_joined_lines(texts);
}

proof fn lemma_slashed_append(a: Seq<Seq<u8>>, b: Seq<Seq<u8>>)
    requires
        a.len() > 0,
        b.len() > 0,
    ensures
        slashed(a + b) == slashed(a) + seq![47u8] + slashed(b),
    decreases b.len(),
{
    let all = a + b;
    if b.len() == 1 {
        assert(all.drop_last() == a);
    } else {
        lemma_slashed_append(a, b.drop_last());
        assert(all.drop_last() == a + b.drop_last());
        assert(slashed(a) + seq![47u8] + slashed(b.drop_last()) + seq![47u8] + b.last() == slashed(
            a,
        ) + seq![47u8] + (slashed(b.drop_last()) + seq![47u8] + b.last()));
    }
}

proof fn lemma_bytes_at_slash(a: Seq<char>, b: Seq<char>)
    ensures
        path_bytes_of(a.push('/') + b) == path_bytes_of(a) + seq![47u8] + path_bytes_of(b),
{
    let x = text::split_on(a, '/');
    let y = text::split_on(b, '/');
    paths::lemma_split_at_slash(a, b);
    text::lemma_split_on_nonempty(a, '/');
    text::lemma_split_on_nonempty(b, '/');
    assert(names_of(x + y) == names_of(x) + names_of(y));
    lemma_slashed_append(names_of(x), names_of(y));
}


proof fn lemma_nothing_stands_for_nothing()
    ensures
        path_bytes_of(Seq::empty()) == Seq::<u8>::empty(),
{
    let none = Seq::<char>::empty();
    assert(text::split_on(none, '/') == seq![none]);
    assert(names_of(seq![none]) == seq![name_bytes_of(none)]);
    assert(vstd::utf8::encode_utf8(none) == Seq::<u8>::empty());
}

/// Joining a relative name to a path joins the bytes that both stand for: nothing
/// is lost where a name is no UTF-8.
pub proof fn law_joining_keeps_bytes(base: Seq<char>, name: Seq<char>)
    requires
        base.len() > 0,
        !paths::is_absolute(name),
    ensures
        path_bytes_of(paths::joined_path(base, name)) == (if base.last() == '/' {
            path_bytes_of(base) + path_bytes_of(name)
        } else {
            path_bytes_of(base) + seq![47u8] + path_bytes_of(name)
        }),
{
    if base.last() == '/' {
        let stem = base.drop_last();
        assert(stem.push('/') == base);
        assert(base + Seq::<char>::empty() == base);
        lemma_bytes_at_slash(stem, name);
        lemma_bytes_at_slash(stem, Seq::empty());
        lemma_nothing_stands_for_nothing();
        assert(path_bytes_of(base) == path_bytes_of(stem) + seq![47u8]);
    } else {
        lemma_bytes_at_slash(base, name);
    }
}

/// A text ends in a slash, starts with one or is empty only where its path does or
/// is.
pub proof fn lemma_ends_alike(shown: Seq<char>)
    ensures
        shown.len() == 0 ==> path_bytes_of(shown).len() == 0,
        shown.len() > 0 && shown.last() == '/' ==> path_bytes_of(shown).len() > 0 && path_bytes_of(
            shown,
        ).last() == 47,
        paths::is_absolute(shown) ==> path_bytes_of(shown).len() > 0 && path_bytes_of(shown)[0]
            == 47,
{
    lemma_nothing_stands_for_nothing();
    let none = Seq::<char>::empty();
    if shown.len() == 0 {
        assert(shown == none);
    } else {
        if shown.last() == '/' {
            assert(shown.drop_last().push('/') + none == shown);
            lemma_bytes_at_slash(shown.drop_last(), none);
        }
        if shown[0] == '/' {
            assert(none.push('/') + shown.skip(1) == shown);
            lemma_bytes_at_slash(none, shown.skip(1));
        }
    }
}

/// A text without a slash stands for one name.
pub proof fn lemma_one_name(shown: Seq<char>)
    requires
        !shown.contains('/'),
    ensures
        path_bytes_of(shown) == name_bytes_of(shown),
{
    let none = Seq::<char>::empty();
    changes::lemma_split_append(none, shown, '/');
    assert(none + shown == shown);
    assert(text::split_on(none, '/') == seq![none]);
    assert(text::split_on(shown, '/') == seq![shown]);
    assert(names_of(seq![shown]) == seq![name_bytes_of(shown)]);
}

/// The text of a name made of dots is that of no other name.
proof fn lemma_dots_are_kept(name: Seq<u8>)
    ensures
        name_text_of(name) == "."@ ==> name == seq![46u8],
        name_text_of(name) == ".."@ ==> name == seq![46u8, 46u8],
{
    reveal_strlit(".");
    reveal_strlit("..");
    law_names_are_kept(name);
    let one = "."@;
    let two = ".."@;
    vstd::utf8::is_ascii_chars_encode_utf8(one);
    vstd::utf8::is_ascii_chars_encode_utf8(two);
    assert(one[0] as u8 == 46 && two[0] as u8 == 46 && two[1] as u8 == 46);
    assert(vstd::utf8::encode_utf8(one) == seq![46u8]);
    assert(vstd::utf8::encode_utf8(two) == seq![46u8, 46u8]);
}

/// The last name of a path's text is the text of the path's last name.
pub proof fn law_last_name_is_exact(path: Seq<u8>)
    requires
        pieces_of(path).last().len() > 0,
        pieces_of(path).last() != seq![46u8],
        pieces_of(path).last() != seq![46u8, 46u8],
    ensures
        paths::last_name(path_text_of(path)) == Some(name_text_of(pieces_of(path).last())),
{
    let pieces = pieces_of(path);
    let texts = texts_of(pieces);
    let name = pieces.last();
    let own = name_text_of(name);
    lemma_pieces(path);
    assert forall|i: int| 0 <= i < texts.len() implies !(#[trigger] texts[i]).contains('/') by {
        lemma_text_has_no_slash(pieces[i]);
    }
    changes::lemma_split_joined(texts);
    assert(texts.last() == own);
    lemma_dots_are_kept(name);
    lemma_shown_is_valid(name);
    lemma_escaped(name);
    assert(own.len() > 0);
    reveal_strlit("/");
    assert(!texts[texts.len() - 1].contains('/'));
    assert(own != "/"@) by {
        assert("/"@[0] == '/');
    }
    let named = |p: Seq<char>| paths::is_name(p);
    assert(texts.filter(named) == texts.drop_last().filter(named).push(own)) by {
        reveal(Seq::filter);
        assert(named(own));
    }
}

/// A relative text, joined to one whose path does not end in a slash, stands for the
/// bytes of both with a slash between them.
pub proof fn lemma_joined_exactly(base: Seq<char>, name: Seq<char>)
    requires
        path_bytes_of(base).len() > 0,
        path_bytes_of(base).last() != 47,
        path_bytes_of(name).len() > 0 ==> path_bytes_of(name)[0] != 47,
    ensures
        path_bytes_of(paths::joined_path(base, name)) == path_bytes_of(base).push(47)
            + path_bytes_of(name),
{
    lemma_ends_alike(base);
    lemma_ends_alike(name);
    law_joining_keeps_bytes(base, name);
    assert(path_bytes_of(base) + seq![47u8] == path_bytes_of(base).push(47));
}

/// Every entry of a source goes below the destination under its own name, byte for
/// byte, and below the source's own name where that is kept, whether the names are
/// UTF-8 or not.
pub proof fn law_entries_keep_their_exact_names(
    include_root: bool,
    base: Seq<u8>,
    rel: Seq<u8>,
    destination: Seq<u8>,
)
    requires
        destination.len() > 0 && destination.last() != 47,
        base.len() > 0 && !base.contains(47),
        rel.len() > 0 ==> rel[0] != 47,
    ensures
        ({
            let root = if include_root {
                destination.push(47) + base
            } else {
                destination
            };
            path_bytes_of(
                paths::dest_path(
                    include_root,
                    name_text_of(base),
                    path_text_of(rel),
                    path_text_of(destination),
                ),
            ) == (if rel.len() == 0 {
                root
            } else {
                root.push(47) + rel
            })
        }),
{
    let there = path_text_of(destination);
    let own = name_text_of(base);
    law_paths_are_kept(destination);
    law_paths_are_kept(rel);
    law_names_are_kept(base);
    lemma_text_has_no_slash(base);
    lemma_one_name(own);
    assert(base.contains(base[0]) && base.contains(base.last()));
    lemma_joined_exactly(there, own);
    let root = if include_root {
        paths::joined_path(there, own)
    } else {
        there
    };
    lemma_joined_exactly(root, path_text_of(rel));
    lemma_nothing_stands_for_nothing();
    if rel.len() == 0 {
        assert(pieces_of(rel) == seq![rel]);
        assert(texts_of(seq![rel]) == seq![name_text_of(rel)]);
        assert(shown_bytes(rel) == rel);
        assert(path_text_of(rel).len() == 0);
    } else if path_text_of(rel).len() == 0 {
        assert(path_text_of(rel) == Seq::<char>::empty());
    }
}

proof fn lemma_encode_append(a: Seq<char>, b: Seq<char>)
    ensures
        vstd::utf8::encode_utf8(a + b) == vstd::utf8::encode_utf8(a) + vstd::utf8::encode_utf8(b),
    decreases a.len(),
{
    if a.len() == 0 {
        assert(a + b == b);
        assert(vstd::utf8::encode_utf8(a) == Seq::<u8>::empty());
        assert(Seq::<u8>::empty() + vstd::utf8::encode_utf8(b) == vstd::utf8::encode_utf8(b));
    } else {
        let first = vstd::utf8::encode_scalar(a[0] as u32);
        let rest = a.drop_first();
        lemma_encode_append(rest, b);
        assert((a + b).drop_first() == rest + b);
        assert((a + b)[0] == a[0]);
        assert(first + (vstd::utf8::encode_utf8(rest) + vstd::utf8::encode_utf8(b)) == first
            + vstd::utf8::encode_utf8(rest) + vstd::utf8::encode_utf8(b));
    }
}

proof fn lemma_unresolved_append(s: Seq<u8>, t: Seq<u8>, i: int)
    requires
        0 <= i <= s.len(),
        resolved_from(s, i) is None,
        t.len() > 0,
        hex_value(t[0]) is None,
    ensures
        resolved_from(s + t, i) is None,
    decreases s.len() - i,
{
    let all = s + t;
    assert(all[s.len() as int] == t[0]);
    if !needs_escape(s[i]) {
        lemma_unresolved_append(s, t, i + 1);
    } else if escape_at(s, i) is Some {
        assert(escape_at(all, i) == escape_at(s, i));
        lemma_unresolved_append(s, t, i + 3);
    }
}

proof fn lemma_plain_is_resolved(t: Seq<u8>, i: int)
    requires
        0 <= i <= t.len(),
        forall|k: int| 0 <= k < t.len() ==> !needs_escape(#[trigger] t[k]),
    ensures
        resolved_from(t, i) == Some(t.skip(i)),
    decreases t.len() - i,
{
    if i < t.len() {
        lemma_plain_is_resolved(t, i + 1);
        assert(!needs_escape(t[i]));
        assert(seq![t[i]] + t.skip(i + 1) == t.skip(i));
    } else {
        assert(t.skip(i) == Seq::<u8>::empty());
    }
}

/// A plain ending that does not start with a hexadecimal digit is added to a name by
/// adding it to the text of the name.
pub proof fn law_endings_are_added_to_names(shown: Seq<char>, ending: Seq<char>)
    requires
        ending.len() > 0,
        hex_value(vstd::utf8::encode_utf8(ending)[0]) is None,
        forall|k: int|
            0 <= k < vstd::utf8::encode_utf8(ending).len() ==> !needs_escape(
                #[trigger] vstd::utf8::encode_utf8(ending)[k],
            ),
    ensures
        name_bytes_of(shown + ending) == name_bytes_of(shown) + vstd::utf8::encode_utf8(ending),
{
    let s = vstd::utf8::encode_utf8(shown);
    let t = vstd::utf8::encode_utf8(ending);
    let all = s + t;
    lemma_encode_append(shown, ending);
    assert(t.len() > 0) by {
        vstd::utf8::encode_utf8_decode_utf8(ending);
        if t.len() == 0 {
            assert(t == Seq::<u8>::empty());
            assert(vstd::utf8::decode_utf8(t).len() == 0);
        }
    }
    lemma_plain_is_resolved(t, 0);
    assert(t.skip(0) == t);
    if resolved_from(s, 0) is Some {
        lemma_resolved_append(s, t, 0);
    } else {
        lemma_unresolved_append(s, t, 0);
    }
    if s.contains(37) {
        let k = choose|k: int| 0 <= k < s.len() && s[k] == 37;
        assert(all[k] == 37);
    }
    if all.contains(37) {
        let k = choose|k: int| 0 <= k < all.len() && all[k] == 37;
        if k < s.len() {
            assert(s[k] == 37);
        } else {
            assert(needs_escape(t[k - s.len()]));
        }
    }
}

fn hex_digit(v: u8) -> (r: u8)
    requires
        v < 16,
    ensures
        r == hex_of(v),
{
    if v < 10 {
        48 + v
    } else {
        55 + v
    }
}

fn digit_value(d: u8) -> (r: Option<u8>)
    ensures
        r == hex_value(d),
        r is Some ==> r->0 < 16,
{
    if 48 <= d && d <= 57 {
        Some(d - 48)
    } else if 65 <= d && d <= 70 {
        Some(d - 55)
    } else {
        None
    }
}

fn escapes(b: u8) -> (r: bool)
    ensures
        r == needs_escape(b),
{
    b == 37 || b >= 128 || b < 32 || b == 127
}

fn escape(s: &[u8]) -> (r: Vec<u8>)
    ensures
        r@ == escaped(s@),
{
    let mut out: Vec<u8> = Vec::new();
    let mut i: usize = 0;
    assert(s@.take(0) == Seq::<u8>::empty());
    while i < s.len()
        invariant
            i <= s@.len(),
            out@ == escaped(s@.take(i as int)),
        decreases s@.len() - i,
    {
        let b = s[i];
        let ghost before = out@;
        assert(s@.take(i + 1).drop_last() == s@.take(i as int));
        assert(s@.take(i + 1).last() == b);
        if escapes(b) {
            out.push(37);
            out.push(hex_digit(b / 16));
            out.push(hex_digit(b % 16));
            assert(out@ == before + seq![37u8, hex_of(b / 16), hex_of(b % 16)]);
        } else {
            out.push(b);
            assert(out@ == before + seq![b]);
        }
        i = i + 1;
    }
    assert(s@.take(i as int) == s@);
    out
}

fn resolve(s: &[u8]) -> (r: Option<Vec<u8>>)
    ensures
        match r {
            Some(v) => resolved_from(s@, 0) == Some(v@),
            None => resolved_from(s@, 0) is None,
        },
{
    let mut out: Vec<u8> = Vec::new();
    let mut i: usize = 0;
    assert(resolved_from(s@, 0) is Some ==> out@ + resolved_from(s@, 0)->0 == resolved_from(
        s@,
        0,
    )->0);
    while i < s.len()
        invariant
            i <= s@.len(),
            (resolved_from(s@, 0) is Some) == (resolved_from(s@, i as int) is Some),
            resolved_from(s@, 0) is Some ==> resolved_from(s@, 0)->0 == out@ + resolved_from(
                s@,
                i as int,
            )->0,
        decreases s@.len() - i,
    {
        let b = s[i];
        let ghost before = out@;
        if !escapes(b) {
            out.push(b);
            proof {
                if let Some(rest) = resolved_from(s@, i + 1) {
                    assert(before + (seq![b] + rest) == out@ + rest);
                }
            }
            i = i + 1;
        } else {
            if b != 37 || s.len() - i < 3 {
                return None;
            }
            let high = digit_value(s[i + 1]);
            let low = digit_value(s[i + 2]);
            match (high, low) {
                (Some(h), Some(l)) => {
                    let value: u8 = h * 16 + l;
                    if !escapes(value) {
                        return None;
                    }
                    out.push(value);
                    proof {
                        if let Some(rest) = resolved_from(s@, i + 3) {
                            assert(before + (seq![value] + rest) == out@ + rest);
                        }
                    }
                    i = i + 3;
                },
                _ => {
                    return None;
                },
            }
        }
    }
    assert(out@ + Seq::<u8>::empty() == out@);
    Some(out)
}

fn holds(s: &[u8], b: u8) -> (r: bool)
    ensures
        r == s@.contains(b),
{
    let mut i: usize = 0;
    while i < s.len()
        invariant
            i <= s@.len(),
            forall|k: int| 0 <= k < i ==> #[trigger] s@[k] != b,
        decreases s@.len() - i,
    {
        if s[i] == b {
            assert(s@.contains(s@[i as int]));
            return true;
        }
        i = i + 1;
    }
    false
}

fn same_bytes(a: &[u8], b: &[u8]) -> (r: bool)
    ensures
        r == (a@ == b@),
{
    if a.len() != b.len() {
        return false;
    }
    let mut i: usize = 0;
    while i < a.len()
        invariant
            i <= a@.len(),
            a@.len() == b@.len(),
            forall|k: int| 0 <= k < i ==> #[trigger] a@[k] == b@[k],
        decreases a@.len() - i,
    {
        if a[i] != b[i] {
            return false;
        }
        i = i + 1;
    }
    assert(a@ == b@);
    true
}

fn is_escaped_name(s: &[u8]) -> (r: bool)
    ensures
        r == reads_escaped(s@),
{
    holds(s, 37) && resolve(s).is_some()
}

fn holds_control(name: &[u8]) -> (r: bool)
    ensures
        r == has_control(name@),
{
    let mut i: usize = 0;
    while i < name.len()
        invariant
            i <= name@.len(),
            forall|k: int| 0 <= k < i ==> !is_control(#[trigger] name@[k]),
        decreases name@.len() - i,
    {
        if name[i] < 32 || name[i] == 127 {
            assert(is_control(name@[i as int]));
            return true;
        }
        i = i + 1;
    }
    false
}

/// Writes a name as text.
pub fn name_text(name: &[u8]) -> (r: String)
    ensures
        r@ == name_text_of(name@),
{
    let read = telemetry::from_utf8_lossy(name);
    let valid = same_bytes(read.as_str().as_bytes(), name);
    proof {
        vstd::utf8::encode_utf8_valid_utf8(read@);
        vstd::utf8::encode_utf8_decode_utf8(read@);
        assert(valid == vstd::utf8::valid_utf8(name@));
    }
    if valid && !is_escaped_name(name) && !holds_control(name) {
        return read;
    }
    let shown = escape(name);
    let r = telemetry::from_utf8_lossy(shown.as_slice());
    proof {
        lemma_escaped(name@);
        lemma_ascii_is_valid(escaped(name@));
        vstd::utf8::encode_utf8_decode_utf8(r@);
    }
    r
}

/// Reads a name back from its text.
pub fn name_bytes(shown: &str) -> (r: Vec<u8>)
    ensures
        r@ == name_bytes_of(shown@),
{
    let s = shown.as_bytes();
    if holds(s, 37) {
        if let Some(name) = resolve(s) {
            return name;
        }
    }
    let mut out: Vec<u8> = Vec::new();
    append(&mut out, s);
    assert(out@ == s@);
    out
}

fn append(out: &mut Vec<u8>, s: &[u8])
    ensures
        final(out)@ == old(out)@ + s@,
{
    let ghost start = out@;
    let mut i: usize = 0;
    assert(start + s@.take(0) == start);
    while i < s.len()
        invariant
            i <= s@.len(),
            out@ == start + s@.take(i as int),
        decreases s@.len() - i,
    {
        out.push(s[i]);
        assert(start + s@.take(i + 1) == (start + s@.take(i as int)).push(s@[i as int]));
        i = i + 1;
    }
    assert(s@.take(i as int) == s@);
}

spec fn byte_rows(v: Seq<Vec<u8>>) -> Seq<Seq<u8>> {
    v.map_values(|s: Vec<u8>| s@)
}

fn split_path(path: &[u8]) -> (r: Vec<Vec<u8>>)
    ensures
        byte_rows(r@) == pieces_of(path@),
{
    let mut out: Vec<Vec<u8>> = Vec::new();
    let mut last: Vec<u8> = Vec::new();
    let mut i: usize = 0;
    assert(path@.take(0) == Seq::<u8>::empty());
    assert(byte_rows(out@).push(last@) == pieces_of(path@.take(0)));
    while i < path.len()
        invariant
            i <= path@.len(),
            byte_rows(out@).push(last@) == pieces_of(path@.take(i as int)),
        decreases path@.len() - i,
    {
        let b = path[i];
        let ghost step = path@.take(i + 1);
        let ghost before = byte_rows(out@);
        let ghost piece = last@;
        assert(step.drop_last() == path@.take(i as int));
        assert(step.last() == b);
        assert(before.push(piece).drop_last() == before);
        if b == 47 {
            out.push(last);
            last = Vec::new();
            assert(byte_rows(out@) == before.push(piece));
            assert(last@ == Seq::<u8>::empty());
        } else {
            last.push(b);
        }
        i = i + 1;
    }
    assert(path@.take(i as int) == path@);
    let ghost before = byte_rows(out@);
    let ghost piece = last@;
    out.push(last);
    assert(byte_rows(out@) == before.push(piece));
    out
}

/// Writes a path as text.
pub fn path_text(path: &[u8]) -> (r: String)
    ensures
        r@ == path_text_of(path@),
{
    let pieces = split_path(path);
    let ghost all = pieces_of(path@);
    let mut parts: Vec<Vec<char>> = Vec::new();
    let mut i: usize = 0;
    assert(text::rows(parts@) == texts_of(all.take(0)));
    while i < pieces.len()
        invariant
            i <= pieces@.len(),
            all == byte_rows(pieces@),
            text::rows(parts@) == texts_of(all.take(i as int)),
        decreases pieces@.len() - i,
    {
        let ghost before = text::rows(parts@);
        let part = text::to_chars(name_text(pieces[i].as_slice()).as_str());
        assert(part@ == name_text_of(all[i as int]));
        assert(texts_of(all.take(i + 1)) == texts_of(all.take(i as int)).push(part@));
        parts.push(part);
        assert(text::rows(parts@) == before.push(part@));
        i = i + 1;
    }
    assert(all.take(i as int) == all);
    text::from_chars(text::join(parts.as_slice(), text::to_chars("/").as_slice()).as_slice())
}

/// Reads a path back from its text.
pub fn path_bytes(shown: &str) -> (r: Vec<u8>)
    ensures
        r@ == path_bytes_of(shown@),
{
    let parts = text::split(text::to_chars(shown).as_slice(), '/');
    let ghost all = text::split_on(shown@, '/');
    let mut out: Vec<u8> = Vec::new();
    let mut i: usize = 0;
    assert(names_of(all.take(0)) == Seq::<Seq<u8>>::empty());
    while i < parts.len()
        invariant
            i <= parts@.len(),
            all == text::rows(parts@),
            out@ == slashed(names_of(all.take(i as int))),
        decreases parts@.len() - i,
    {
        let ghost before = out@;
        let name = name_bytes(text::from_chars(parts[i].as_slice()).as_str());
        let ghost step = names_of(all.take(i + 1));
        assert(parts@[i as int]@ == all[i as int]);
        assert(step.drop_last() == names_of(all.take(i as int)));
        assert(step.last() == name@);
        if i > 0 {
            out.push(47);
        }
        append(&mut out, name.as_slice());
        assert(i > 0 ==> out@ == before + seq![47u8] + name@);
        assert(i == 0 ==> out@ == name@);
        i = i + 1;
    }
    assert(all.take(i as int) == all);
    out
}

} // verus!
