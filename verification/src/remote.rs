//! Remote endpoints and the part of the SSH configuration that names users.

use crate::domain::{Endpoint, RemoteModel, RemoteSpec, SrcObjKind};
use crate::text;
use vstd::prelude::*;

verus! {

/// Whether some character is white space.
pub open spec fn has_white(s: Seq<char>) -> bool {
    exists|i: int| 0 <= i < s.len() && text::is_white(#[trigger] s[i])
}

/// Tests for white space anywhere.
pub fn contains_white(s: &[char]) -> (r: bool)
    ensures
        r == has_white(s@),
{
    let mut i: usize = 0;
    while i < s.len()
        invariant
            i <= s@.len(),
            forall|k: int| 0 <= k < i ==> !text::is_white(#[trigger] s@[k]),
        decreases s@.len() - i,
    {
        if text::white(s[i]) {
            return true;
        }
        i = i + 1;
    }
    false
}

/// The endpoint that `value` names, if it is written `[user@]host:path`.
pub open spec fn remote_of(value: Seq<char>) -> Option<RemoteModel> {
    let colon = text::find_char(value, ':') as int;
    let left = value.take(colon);
    let path = value.skip(colon + 1);
    let at = text::rfind_char(left, '@');
    let user = text::trimmed(left.take(at));
    let host = text::trimmed(left.skip(at + 1));
    if text::find_text(value, "://"@) is Some || colon == value.len() || left.len() == 0
        || path.len() == 0 || left.contains('/') || left.contains('\\') || has_white(left) {
        None
    } else if at < 0 {
        Some(RemoteModel { user: None, host: left, path })
    } else if user.len() == 0 || host.len() == 0 {
        None
    } else {
        Some(RemoteModel { user: Some(user), host, path })
    }
}

/// The model of an optional endpoint.
pub open spec fn remote_model(r: Option<RemoteSpec>) -> Option<RemoteModel> {
    match r {
        Some(spec) => Some(spec@),
        None => None,
    }
}

/// Reads a remote endpoint.
pub fn parse_remote_spec(value: &str) -> (r: Option<RemoteSpec>)
    ensures
        remote_model(r) == remote_of(value@),
{
    let chars = text::to_chars(value);
    let scheme = text::to_chars("://");
    if text::search(chars.as_slice(), scheme.as_slice()).is_some() {
        return None;
    }
    let colon: usize = text::find(chars.as_slice(), ':');
    if colon == chars.len() {
        return None;
    }
    let left = text::part(chars.as_slice(), 0, colon);
    let path = text::part(chars.as_slice(), colon + 1, chars.len());
    assert(left@ == value@.take(colon as int));
    assert(path@ == value@.skip(colon + 1));
    if left.len() == 0 || path.len() == 0 {
        return None;
    }
    if text::has_char(left.as_slice(), '/') || text::has_char(left.as_slice(), '\\')
        || contains_white(left.as_slice()) {
        return None;
    }
    match text::rfind(left.as_slice(), '@') {
        Some(at) => {
            let head = text::part(left.as_slice(), 0, at);
            let tail = text::part(left.as_slice(), at + 1, left.len());
            assert(head@ == left@.take(at as int));
            assert(tail@ == left@.skip(at + 1));
            let user = text::trim(head.as_slice());
            let host = text::trim(tail.as_slice());
            if user.len() == 0 || host.len() == 0 {
                return None;
            }
            let r = RemoteSpec {
                user: Some(text::from_chars(user.as_slice())),
                host: text::from_chars(host.as_slice()),
                path: text::from_chars(path.as_slice()),
            };
            Some(r)
        },
        None => {
            let r = RemoteSpec {
                user: None,
                host: text::from_chars(left.as_slice()),
                path: text::from_chars(path.as_slice()),
            };
            Some(r)
        },
    }
}

/// Whether `text` matches the pattern, in which `?` stands for one character
/// and `*` for any run of characters.
pub open spec fn glob(pat: Seq<char>, text: Seq<char>) -> bool
    decreases pat.len(), text.len(),
{
    if pat.len() == 0 {
        text.len() == 0
    } else if pat[0] == '*' {
        glob(pat.skip(1), text) || (text.len() > 0 && glob(pat, text.skip(1)))
    } else {
        text.len() > 0 && (pat[0] == '?' || pat[0] == text[0]) && glob(pat.skip(1), text.skip(1))
    }
}

/// A star followed by `pat` matches exactly what has a suffix that `pat`
/// matches.
proof fn lemma_star(pat: Seq<char>, text: Seq<char>)
    requires
        pat.len() > 0,
        pat[0] == '*',
    ensures
        glob(pat, text) <==> exists|k: int|
            0 <= k <= text.len() && #[trigger] glob(pat.skip(1), text.skip(k)),
    decreases text.len(),
{
    assert(text.skip(0) == text);
    if glob(pat.skip(1), text) {
        assert(glob(pat.skip(1), text.skip(0)));
    }
    if text.len() > 0 {
        let rest = text.skip(1);
        lemma_star(pat, rest);
        if glob(pat, rest) {
            let k = choose|k: int| 0 <= k <= rest.len() && #[trigger] glob(
                pat.skip(1),
                rest.skip(k),
            );
            assert(rest.skip(k) == text.skip(k + 1));
            assert(glob(pat.skip(1), text.skip(k + 1)));
        }
        if exists|k: int| 0 <= k <= text.len() && #[trigger] glob(pat.skip(1), text.skip(k)) {
            let k = choose|k: int| 0 <= k <= text.len() && #[trigger] glob(
                pat.skip(1),
                text.skip(k),
            );
            if k > 0 {
                assert(rest.skip(k - 1) == text.skip(k));
                assert(glob(pat.skip(1), rest.skip(k - 1)));
            }
        }
    } else {
        if exists|k: int| 0 <= k <= text.len() && #[trigger] glob(pat.skip(1), text.skip(k)) {
            let k = choose|k: int| 0 <= k <= text.len() && #[trigger] glob(
                pat.skip(1),
                text.skip(k),
            );
            assert(k == 0);
        }
    }
}

/// A pattern that starts with a star matches every text that has a suffix the
/// pattern matches.
proof fn lemma_star_extends(pat: Seq<char>, text: Seq<char>, k: int)
    requires
        pat.len() > 0,
        pat[0] == '*',
        0 <= k <= text.len(),
        glob(pat, text.skip(k)),
    ensures
        glob(pat, text),
{
    lemma_star(pat, text.skip(k));
    let j = choose|j: int| 0 <= j <= text.skip(k).len() && #[trigger] glob(
        pat.skip(1),
        text.skip(k).skip(j),
    );
    assert(text.skip(k).skip(j) == text.skip(k + j));
    assert(glob(pat.skip(1), text.skip(k + j)));
    lemma_star(pat, text);
}

/// Only stars match nothing.
proof fn lemma_glob_empty(pat: Seq<char>)
    ensures
        glob(pat, Seq::empty()) <==> forall|i: int| 0 <= i < pat.len() ==> pat[i] == '*',
    decreases pat.len(),
{
    if pat.len() > 0 {
        let rest = pat.skip(1);
        lemma_glob_empty(rest);
        assert(forall|i: int| 0 <= i < rest.len() ==> rest[i] == pat[i + 1]);
        if forall|i: int| 0 <= i < rest.len() ==> rest[i] == '*' {
            assert forall|i: int| 1 <= i < pat.len() implies pat[i] == '*' by {
                assert(rest[i - 1] == pat[i]);
            }
        }
    }
}

/// Past a stretch of the pattern without stars, a match goes on at the same
/// distance in the text.
proof fn lemma_stretch(p: Seq<char>, t: Seq<char>, a: int, b: int, x: int)
    requires
        0 <= a <= b <= p.len(),
        0 <= x <= t.len(),
        forall|i: int| a <= i < b ==> p[i] != '*',
        glob(p.skip(a), t.skip(x)),
    ensures
        x + (b - a) <= t.len(),
        glob(p.skip(b), t.skip(x + (b - a))),
    decreases b - a,
{
    if a < b {
        assert(p.skip(a)[0] == p[a]);
        assert(p.skip(a).skip(1) == p.skip(a + 1));
        assert(t.skip(x).skip(1) == t.skip(x + 1));
        lemma_stretch(p, t, a + 1, b, x + 1);
    }
}

/// Where the scan stands: it matches the pattern from `pi` on against the text
/// from `ti` on; `star`, if any, is the last star passed, which so far covers
/// the text up to `from`.
pub struct GlobScan {
    pub pi: int,
    pub ti: int,
    pub star: Option<int>,
    pub from: int,
}

/// The verdict of a scan that remembers only the last star. A star of the
/// pattern that meets a star in the text is taken for that character.
pub open spec fn scanned(p: Seq<char>, t: Seq<char>, at: GlobScan) -> bool
    decreases t.len() - at.from, t.len() - at.ti, p.len() - at.pi,
    when 0 <= at.from <= at.ti <= t.len() && 0 <= at.pi <= p.len()
{
    if at.ti == t.len() {
        forall|i: int| at.pi <= i < p.len() ==> p[i] == '*'
    } else if at.pi < p.len() && (p[at.pi] == '?' || p[at.pi] == t[at.ti]) {
        scanned(p, t, GlobScan { pi: at.pi + 1, ti: at.ti + 1, ..at })
    } else if at.pi < p.len() && p[at.pi] == '*' {
        scanned(
            p,
            t,
            GlobScan { pi: at.pi + 1, ti: at.ti, star: Some(at.pi), from: at.ti },
        )
    } else {
        match at.star {
            Some(s) => 0 <= s < p.len() && scanned(
                p,
                t,
                GlobScan { pi: s + 1, ti: at.from + 1, star: Some(s), from: at.from + 1 },
            ),
            None => false,
        }
    }
}

/// A scan from the start.
pub open spec fn glob_start() -> GlobScan {
    GlobScan { pi: 0, ti: 0, star: None, from: 0 }
}

proof fn lemma_scanned(p: Seq<char>, t: Seq<char>, at: GlobScan)
    requires
        0 <= at.from <= at.ti <= t.len(),
        0 <= at.pi <= p.len(),
        !t.contains('*'),
        at.star matches Some(s) ==> {
            &&& 0 <= s < at.pi
            &&& p[s] == '*'
            &&& at.pi - (s + 1) == at.ti - at.from
            &&& forall|i: int| s < i < at.pi ==> p[i] != '*'
            &&& glob(p.skip(s + 1), t.skip(at.from)) == glob(p.skip(at.pi), t.skip(at.ti))
        },
    ensures
        scanned(p, t, at) == (match at.star {
            None => glob(p.skip(at.pi), t.skip(at.ti)),
            Some(s) => glob(p.skip(s), t.skip(at.from)),
        }),
    decreases t.len() - at.from, t.len() - at.ti, p.len() - at.pi,
{
    let ps = p.skip(at.pi);
    let ts = t.skip(at.ti);
    if let Some(s) = at.star {
        assert(p.skip(s).skip(1) == p.skip(s + 1));
        assert(p.skip(s)[0] == '*');
    }
    if at.ti == t.len() {
        assert(ts == Seq::<char>::empty());
        lemma_glob_empty(ps);
        assert((forall|i: int| at.pi <= i < p.len() ==> p[i] == '*') <==> (forall|i: int|
            0 <= i < ps.len() ==> ps[i] == '*')) by {
            if forall|i: int| 0 <= i < ps.len() ==> ps[i] == '*' {
                assert forall|i: int| at.pi <= i < p.len() implies p[i] == '*' by {
                    assert(ps[i - at.pi] == p[i]);
                }
            }
        }
        if let Some(s) = at.star {
            lemma_star(p.skip(s), t.skip(at.from));
            if glob(p.skip(s), t.skip(at.from)) {
                let k = choose|k: int| 0 <= k <= t.skip(at.from).len() && #[trigger] glob(
                    p.skip(s).skip(1),
                    t.skip(at.from).skip(k),
                );
                assert(t.skip(at.from).skip(k) == t.skip(at.from + k));
                lemma_stretch(p, t, s + 1, at.pi, at.from + k);
                assert(k == 0);
            } else {
                assert(t.skip(at.from).skip(0) == t.skip(at.from));
            }
        }
    } else {
        assert(t[at.ti] != '*');
        assert(ts.skip(1) == t.skip(at.ti + 1));
        assert(ps.len() > 0 ==> ps.skip(1) == p.skip(at.pi + 1) && ps[0] == p[at.pi]);
        if at.pi < p.len() && (p[at.pi] == '?' || p[at.pi] == t[at.ti]) {
            assert(ts[0] == t[at.ti]);
            lemma_scanned(p, t, GlobScan { pi: at.pi + 1, ti: at.ti + 1, ..at });
        } else if at.pi < p.len() && p[at.pi] == '*' {
            lemma_scanned(
                p,
                t,
                GlobScan { pi: at.pi + 1, ti: at.ti, star: Some(at.pi), from: at.ti },
            );
            if let Some(s) = at.star {
                lemma_star(p.skip(s), t.skip(at.from));
                if glob(p.skip(s), t.skip(at.from)) {
                    let k = choose|k: int| 0 <= k <= t.skip(at.from).len() && #[trigger] glob(
                        p.skip(s).skip(1),
                        t.skip(at.from).skip(k),
                    );
                    assert(t.skip(at.from).skip(k) == t.skip(at.from + k));
                    lemma_stretch(p, t, s + 1, at.pi, at.from + k);
                    assert(ts.skip(k) == t.skip(at.ti + k));
                    lemma_star_extends(ps, ts, k);
                } else {
                    assert(t.skip(at.from).skip(0) == t.skip(at.from));
                }
            }
        } else {
            assert(!glob(ps, ts)) by {
                if ps.len() > 0 {
                    assert(ts[0] == t[at.ti]);
                }
            }
            if let Some(s) = at.star {
                assert(t.skip(at.from).skip(1) == t.skip(at.from + 1));
                lemma_scanned(
                    p,
                    t,
                    GlobScan { pi: s + 1, ti: at.from + 1, star: Some(s), from: at.from + 1 },
                );
            }
        }
    }
}

/// In a text without stars, the scan finds out whether the text matches.
pub proof fn law_scan_is_glob(p: Seq<char>, t: Seq<char>)
    requires
        !t.contains('*'),
    ensures
        scanned(p, t, glob_start()) == glob(p, t),
{
    assert(p.skip(0) == p);
    assert(t.skip(0) == t);
    lemma_scanned(p, t, glob_start());
}

/// A lone star matches every text without stars.
pub proof fn law_star_matches_everything(t: Seq<char>)
    requires
        !t.contains('*'),
    ensures
        scanned(seq!['*'], t, glob_start()),
{
    let p = seq!['*'];
    law_scan_is_glob(p, t);
    lemma_star(p, t);
    assert(p.skip(1) == Seq::<char>::empty());
    assert(t.skip(t.len() as int) == Seq::<char>::empty());
    assert(glob(p.skip(1), t.skip(t.len() as int)));
}

/// Matches a host name against a pattern.
pub fn wildcard_match(pat: &str, text: &str) -> (r: bool)
    ensures
        r == scanned(pat@, text@, glob_start()),
        !text@.contains('*') ==> r == glob(pat@, text@),
{
    let p = text::to_chars(pat);
    let t = text::to_chars(text);
    proof {
        if !text@.contains('*') {
            law_scan_is_glob(pat@, text@);
        }
    }
    wildcard(p.as_slice(), t.as_slice())
}

/// Matches character sequences.
fn wildcard(p: &[char], t: &[char]) -> (r: bool)
    ensures
        r == scanned(p@, t@, glob_start()),
{
    let mut pi: usize = 0;
    let mut ti: usize = 0;
    let mut star: Option<usize> = None;
    let mut from: usize = 0;
    while ti < t.len()
        invariant
            pi <= p@.len(),
            from <= ti <= t@.len(),
            star matches Some(s) ==> s < p@.len(),
            scanned(p@, t@, glob_start()) == scanned(
                p@,
                t@,
                GlobScan {
                    pi: pi as int,
                    ti: ti as int,
                    star: match star {
                        Some(s) => Some(s as int),
                        None => None,
                    },
                    from: from as int,
                },
            ),
        decreases t@.len() - from, t@.len() - ti, p@.len() - pi,
    {
        if pi < p.len() && (p[pi] == '?' || p[pi] == t[ti]) {
            pi = pi + 1;
            ti = ti + 1;
        } else if pi < p.len() && p[pi] == '*' {
            star = Some(pi);
            pi = pi + 1;
            from = ti;
        } else {
            match star {
                Some(s) => {
                    pi = s + 1;
                    from = from + 1;
                    ti = from;
                },
                None => {
                    return false;
                },
            }
        }
    }
    let ghost start = pi;
    while pi < p.len() && p[pi] == '*'
        invariant
            start <= pi <= p@.len(),
            forall|i: int| start <= i < pi ==> p@[i] == '*',
        decreases p@.len() - pi,
    {
        pi = pi + 1;
    }
    pi == p.len()
}

/// How a `Host` line's patterns stand to a host: a positive pattern must match
/// and no negated one may.
pub open spec fn host_line_matches(patterns: Seq<Seq<char>>, host: Seq<char>) -> bool {
    &&& exists|i: int|
        0 <= i < patterns.len() && !negated(#[trigger] patterns[i]) && scanned(
            patterns[i],
            host,
            glob_start(),
        )
    &&& forall|i: int|
        0 <= i < patterns.len() && negated(#[trigger] patterns[i]) && patterns[i].len() > 1
            ==> !scanned(patterns[i].skip(1), host, glob_start())
}

/// A pattern that starts with an exclamation mark.
pub open spec fn negated(pattern: Seq<char>) -> bool {
    pattern.len() > 0 && pattern[0] == '!'
}

/// Evaluates the patterns of a `Host` line.
fn host_matches(patterns: &[Vec<char>], host: &[char]) -> (r: bool)
    ensures
        r == host_line_matches(text::rows(patterns@), host@),
{
    let ghost all = text::rows(patterns@);
    let mut positive = false;
    let mut negative = false;
    let mut i: usize = 0;
    while i < patterns.len()
        invariant
            i <= patterns@.len(),
            all == text::rows(patterns@),
            positive <==> exists|k: int|
                0 <= k < i && !negated(#[trigger] all[k]) && scanned(all[k], host@, glob_start()),
            negative <==> exists|k: int|
                0 <= k < i && negated(#[trigger] all[k]) && all[k].len() > 1 && scanned(
                    all[k].skip(1),
                    host@,
                    glob_start(),
                ),
        decreases patterns@.len() - i,
    {
        let pattern = &patterns[i];
        assert(all[i as int] == pattern@);
        if pattern.len() > 0 && pattern[0] == '!' {
            if pattern.len() > 1 {
                let rest = text::part(pattern.as_slice(), 1, pattern.len());
                assert(rest@ == pattern@.skip(1));
                if wildcard(rest.as_slice(), host) {
                    negative = true;
                }
            }
        } else if wildcard(pattern.as_slice(), host) {
            positive = true;
        }
        i = i + 1;
    }
    positive && !negative
}

/// The value of a configuration line: its words after the first, with single
/// spaces between them.
pub open spec fn line_value(line: Seq<char>) -> Seq<char> {
    text::joined(text::words(line).skip(1), " "@)
}

/// The user that the lines from `i` on give a host, when the lines before have
/// left it inside (`active`) or outside a matching section.
pub open spec fn config_user(
    lines: Seq<Seq<char>>,
    i: int,
    host: Seq<char>,
    active: bool,
) -> Option<Seq<char>>
    decreases lines.len() - i,
{
    if i < 0 || i >= lines.len() {
        None
    } else {
        let line = text::trimmed(lines[i]);
        let words = text::words(line);
        let value = line_value(line);
        if line.len() == 0 || line[0] == '#' || words.len() == 0 || value.len() == 0 {
            config_user(lines, i + 1, host, active)
        } else if text::lower(words[0]) == "host"@ {
            config_user(lines, i + 1, host, host_line_matches(text::words(value), host))
        } else if active && text::lower(words[0]) == "user"@ {
            Some(value)
        } else {
            config_user(lines, i + 1, host, active)
        }
    }
}

/// The user that an SSH configuration gives a host: the first `User` line that
/// stands before any `Host` line or in a section that matches.
pub fn ssh_config_user_for_host_from_text(host: &str, txt: &str) -> (r: Option<String>)
    ensures
        match r {
            Some(user) => config_user(text::lines_of(txt@), 0, host@, true) == Some(user@),
            None => config_user(text::lines_of(txt@), 0, host@, true) is None,
        },
{
    let chars = text::to_chars(txt);
    let name = text::to_chars(host);
    let lines = text::lines(chars.as_slice());
    let ghost all = text::rows(lines@);
    let space = text::to_chars(" ");
    let mut active = true;
    let mut i: usize = 0;
    while i < lines.len()
        invariant
            i <= lines@.len(),
            all == text::rows(lines@),
            all == text::lines_of(txt@),
            name@ == host@,
            space@ == " "@,
            config_user(all, 0, host@, true) == config_user(all, i as int, host@, active),
        decreases lines@.len() - i,
    {
        assert(all[i as int] == lines@[i as int]@);
        let line = text::trim(lines[i].as_slice());
        i = i + 1;
        if line.len() == 0 || line[0] == '#' {
            continue;
        }
        let words = text::split_words(line.as_slice());
        let ghost word_texts = text::rows(words@);
        if words.len() == 0 {
            continue;
        }
        assert(word_texts[0] == words@[0]@);
        let key = text::to_lower(words[0].as_slice());
        let mut rest: Vec<Vec<char>> = Vec::new();
        let mut k: usize = 1;
        while k < words.len()
            invariant
                1 <= k <= words@.len(),
                word_texts == text::rows(words@),
                text::rows(rest@) == word_texts.subrange(1, k as int),
            decreases words@.len() - k,
        {
            let ghost before = text::rows(rest@);
            let word = text::part(words[k].as_slice(), 0, words[k].len());
            assert(word@ == words@[k as int]@);
            assert(word_texts[k as int] == words@[k as int]@);
            rest.push(word);
            assert(text::rows(rest@) == before.push(word@));
            assert(word_texts.subrange(1, k + 1) == word_texts.subrange(1, k as int).push(
                word_texts[k as int],
            ));
            k = k + 1;
        }
        assert(text::rows(rest@) == word_texts.skip(1));
        let value = text::join(rest.as_slice(), space.as_slice());
        assert(value@ == line_value(line@));
        if value.len() == 0 {
            continue;
        }
        if text::is_text(key.as_slice(), "host") {
            let patterns = text::split_words(value.as_slice());
            active = host_matches(patterns.as_slice(), name.as_slice());
        } else if active && text::is_text(key.as_slice(), "user") {
            return Some(text::from_chars(value.as_slice()));
        }
    }
    None
}

/// Fills in the user that the SSH configuration gives, where the endpoint
/// names none. `configured` is what the configuration says of the host.
pub fn enrich_remote_spec(r: RemoteSpec, configured: Option<String>) -> (out: RemoteSpec)
    ensures
        out@ == (RemoteModel {
            user: match r@.user {
                Some(user) => Some(user),
                None => match configured {
                    Some(user) => Some(user@),
                    None => None,
                },
            },
            ..r@
        }),
{
    match r.user {
        Some(user) => RemoteSpec { user: Some(user), host: r.host, path: r.path },
        None => RemoteSpec { user: configured, host: r.host, path: r.path },
    }
}

/// `s` with a slash at its end.
pub open spec fn with_slash(s: Seq<char>) -> Seq<char> {
    if s.len() > 0 && s.last() == '/' {
        s
    } else {
        s.push('/')
    }
}

/// The rsync argument for an endpoint.
pub open spec fn rsync_argument(
    endpoint: Endpoint,
    as_source: bool,
    contents_mode: bool,
    local_src_kind: Option<SrcObjKind>,
    local_is_dir: bool,
) -> Seq<char> {
    match endpoint {
        Endpoint::Local(path) => if (as_source && contents_mode && local_src_kind == Some(
            SrcObjKind::Dir,
        )) || (!as_source && local_is_dir) {
            with_slash(path@)
        } else {
            path@
        },
        Endpoint::Remote(remote) => (match remote@.user {
            Some(user) => user + "@"@ + remote@.host,
            None => remote@.host,
        }) + ":"@ + (if as_source && contents_mode {
            with_slash(remote@.path)
        } else {
            remote@.path
        }),
    }
}

/// Writes the rsync argument for an endpoint. `local_is_dir` tells whether a
/// local path names a directory at the moment.
pub fn endpoint_to_rsync(
    endpoint: &Endpoint,
    as_source: bool,
    contents_mode: bool,
    local_src_kind: Option<SrcObjKind>,
    local_is_dir: bool,
) -> (r: String)
    ensures
        r@ == rsync_argument(*endpoint, as_source, contents_mode, local_src_kind, local_is_dir),
{
    match endpoint {
        Endpoint::Local(path) => {
            let chars = text::to_chars(path.as_str());
            let mut out = text::from_chars(chars.as_slice());
            let from_dir = match local_src_kind {
                Some(SrcObjKind::Dir) => true,
                _ => false,
            };
            let slash = (as_source && contents_mode && from_dir) || (!as_source && local_is_dir);
            if slash && !(chars.len() > 0 && chars[chars.len() - 1] == '/') {
                out.push('/');
            }
            out
        },
        Endpoint::Remote(remote) => {
            let mut out = String::new();
            if let Some(user) = &remote.user {
                out.push_str(user.as_str());
                out.push_str("@");
            }
            out.push_str(remote.host.as_str());
            out.push_str(":");
            let path = text::to_chars(remote.path.as_str());
            let ghost head = out@;
            out.push_str(remote.path.as_str());
            if as_source && contents_mode && !(path.len() > 0 && path[path.len() - 1] == '/') {
                out.push('/');
                assert(out@ == head + remote@.path.push('/'));
            }
            out
        },
    }
}

/// A remote endpoint is read back from how it is written: the host stands before the first
/// colon, behind a user and an at sign where one is given, and the path behind it.
pub proof fn law_endpoints_are_read_back(user: Seq<char>, host: Seq<char>, path: Seq<char>)
    requires
        host.len() > 0 && user.len() > 0 && path.len() > 0,
        is_plain_word(user) && is_plain_word(host),
        text::find_text(host.push(':') + path, "://"@) is None,
        text::find_text(user.push('@') + host + seq![':'] + path, "://"@) is None,
    ensures
        remote_of(host.push(':') + path) == Some(RemoteModel { user: None, host, path }),
        remote_of(user.push('@') + host + seq![':'] + path) == Some(
            RemoteModel { user: Some(user), host, path },
        ),
{
    let plain = host.push(':') + path;
    assert(plain.take(host.len() as int) == host);
    lemma_first_colon(host, plain);
    assert(plain.skip(host.len() as int + 1) == path);
    lemma_plain_word(host);
    lemma_plain_word(user);
    lemma_no_at(host);
    assert(host.take(host.len() as int) == host);
    let left = user.push('@') + host;
    let whole = left + seq![':'] + path;
    assert(user.push('@') + host + seq![':'] + path == whole);
    assert forall|i: int| 0 <= i < left.len() implies (#[trigger] left[i]) != ':' && left[i] != '/'
        && left[i] != '\\' && !text::is_white(left[i]) by {
        if i < user.len() {
            assert(left[i] == user[i]);
        } else if i > user.len() {
            assert(left[i] == host[i - user.len() - 1]);
        }
    }
    assert(whole =~= left.push(':') + path);
    assert(whole.take(left.len() as int) == left);
    lemma_first_colon(left, whole);
    assert(whole.skip(left.len() as int + 1) == path);
    assert(left[user.len() as int] == '@');
    assert forall|j: int| user.len() < j < left.len() implies (#[trigger] left[j]) != '@' by {
        assert(left[j] == host[j - user.len() - 1]);
    }
    lemma_last_at(left, user.len() as int);
    assert(left.take(user.len() as int) == user);
    assert(left.skip(user.len() as int + 1) == host);
}

/// Whether a text has only characters that users and hosts are written with.
pub open spec fn is_plain_word(s: Seq<char>) -> bool {
    forall|i: int|
        0 <= i < s.len() ==> (#[trigger] s[i]) != ':' && s[i] != '/' && s[i] != '\\' && s[i] != '@'
            && !text::is_white(s[i])
}

proof fn lemma_plain_word(s: Seq<char>)
    requires
        is_plain_word(s),
    ensures
        text::trimmed(s) == s,
        !has_white(s),
        !s.contains('/'),
        !s.contains('\\'),
{
    if s.len() > 0 {
        assert(!text::is_white(s[0]));
        assert(!text::is_white(s[s.len() - 1]));
    }
}

proof fn lemma_first_colon(head: Seq<char>, s: Seq<char>)
    requires
        head.len() < s.len(),
        s.take(head.len() as int) == head,
        s[head.len() as int] == ':',
        forall|i: int| 0 <= i < head.len() ==> (#[trigger] head[i]) != ':',
    ensures
        text::find_char(s, ':') == head.len(),
    decreases head.len(),
{
    if head.len() > 0 {
        assert(s.take(head.len() as int)[0] == s[0]);
        assert(head[0] != ':');
        let rest = head.skip(1);
        let t = s.skip(1);
        assert(t.take(rest.len() as int) == s.take(head.len() as int).skip(1));
        assert forall|i: int| 0 <= i < rest.len() implies (#[trigger] rest[i]) != ':' by {
            assert(rest[i] == head[i + 1]);
        }
        lemma_first_colon(rest, t);
    }
}

proof fn lemma_no_at(s: Seq<char>)
    requires
        is_plain_word(s),
    ensures
        text::rfind_char(s, '@') == -1,
    decreases s.len(),
{
    if s.len() > 0 {
        assert(s[s.len() - 1] != '@');
        assert forall|i: int| 0 <= i < s.len() - 1 implies (#[trigger] s.drop_last()[i]) != ':'
            && s.drop_last()[i] != '/' && s.drop_last()[i] != '\\' && s.drop_last()[i] != '@'
            && !text::is_white(s.drop_last()[i]) by {
            assert(s.drop_last()[i] == s[i]);
        }
        lemma_no_at(s.drop_last());
    }
}

proof fn lemma_last_at(s: Seq<char>, at: int)
    requires
        0 <= at < s.len(),
        s[at] == '@',
        forall|j: int| at < j < s.len() ==> (#[trigger] s[j]) != '@',
    ensures
        text::rfind_char(s, '@') == at,
    decreases s.len(),
{
    if at < s.len() - 1 {
        assert(s[s.len() - 1] != '@');
        let t = s.drop_last();
        assert forall|j: int| at < j < t.len() implies (#[trigger] t[j]) != '@' by {
            assert(t[j] == s[j]);
        }
        lemma_last_at(t, at);
    }
}

/// A path with a slash before its first colon, or without a colon, is local.
pub proof fn law_paths_are_local(value: Seq<char>, k: int)
    ensures
        !value.contains(':') ==> remote_of(value) is None,
        0 <= k < value.len() && value[k] == '/' && (forall|i: int|
            0 <= i <= k ==> (#[trigger] value[i]) != ':') ==> remote_of(value) is None,
        value.len() > 0 && value[0] == ':' ==> remote_of(value) is None,
{
    text::lemma_find_char(value, ':');
    let colon = text::find_char(value, ':') as int;
    if colon < value.len() {
        assert(value[colon] == ':');
        assert(value.contains(':'));
        if 0 <= k < value.len() && value[k] == '/' && (forall|i: int|
            0 <= i <= k ==> (#[trigger] value[i]) != ':') {
            assert(k < colon);
            assert(value.take(colon)[k] == '/');
        }
    }
}

/// A section holds for a host exactly when one of its patterns does and none of those with
/// an exclamation mark.
pub proof fn law_negated_patterns_exclude(patterns: Seq<Seq<char>>, host: Seq<char>, k: int)
    requires
        0 <= k < patterns.len(),
        patterns[k].len() > 1,
        patterns[k][0] == '!',
        !host.contains('*'),
        glob(patterns[k].skip(1), host),
    ensures
        !host_line_matches(patterns, host),
{
    law_scan_is_glob(patterns[k].skip(1), host);
    assert(negated(patterns[k]));
}

/// A section without a pattern that fits a host does not hold for it, and one with such a
/// pattern and none with an exclamation mark does.
pub proof fn law_a_fitting_pattern_is_needed(patterns: Seq<Seq<char>>, host: Seq<char>)
    requires
        !host.contains('*'),
        forall|i: int| 0 <= i < patterns.len() ==> !((#[trigger] patterns[i]).len() > 0
            && patterns[i][0] == '!'),
    ensures
        host_line_matches(patterns, host) <==> exists|i: int|
            0 <= i < patterns.len() && glob(#[trigger] patterns[i], host),
{
    assert forall|i: int| 0 <= i < patterns.len() implies scanned(
        #[trigger] patterns[i],
        host,
        glob_start(),
    ) == glob(patterns[i], host) by {
        law_scan_is_glob(patterns[i], host);
    }
    if host_line_matches(patterns, host) {
        let i = choose|i: int|
            0 <= i < patterns.len() && !negated(#[trigger] patterns[i]) && scanned(
                patterns[i],
                host,
                glob_start(),
            );
        assert(glob(patterns[i], host));
    }
    if exists|i: int| 0 <= i < patterns.len() && glob(#[trigger] patterns[i], host) {
        let i = choose|i: int| 0 <= i < patterns.len() && glob(#[trigger] patterns[i], host);
        assert(!negated(patterns[i]) && scanned(patterns[i], host, glob_start()));
    }
}

/// A directory whose contents count gets one slash at its end, for either kind of endpoint;
/// a remote one is written with its user, its host and its path.
pub proof fn law_contents_are_marked_by_a_slash(
    endpoint: Endpoint,
    as_source: bool,
    contents_mode: bool,
    kind: Option<SrcObjKind>,
    is_dir: bool,
)
    ensures
        ({
            let r = rsync_argument(endpoint, as_source, contents_mode, kind, is_dir);
            &&& endpoint matches Endpoint::Local(path) ==> {
                &&& as_source && !contents_mode ==> r == path@
                &&& as_source && contents_mode && kind == Some(SrcObjKind::Dir) ==> r.last() == '/'
                    && (r == path@ || r == path@.push('/'))
                &&& as_source && kind != Some(SrcObjKind::Dir) ==> r == path@
                &&& !as_source && !is_dir ==> r == path@
                &&& !as_source && is_dir ==> r.last() == '/' && (r == path@ || r == path@.push('/'))
            }
            &&& endpoint matches Endpoint::Remote(remote) ==> {
                &&& !as_source || !contents_mode ==> text::ends(r, remote@.path)
                &&& as_source && contents_mode ==> r.last() == '/'
                &&& remote@.user is None ==> text::begins(r, remote@.host)
                &&& remote@.user matches Some(user) ==> text::begins(r, user + "@"@ + remote@.host)
            }
        }),
{
    let r = rsync_argument(endpoint, as_source, contents_mode, kind, is_dir);
    if let Endpoint::Remote(remote) = endpoint {
        let path = remote@.path;
        let shown = if as_source && contents_mode {
            with_slash(path)
        } else {
            path
        };
        assert(r.skip(r.len() - shown.len()) == shown);
        match remote@.user {
            Some(user) => {
                let head = user + "@"@ + remote@.host;
                assert(r.take(head.len() as int) == head);
            },
            None => {
                assert(r.take(remote@.host.len() as int) == remote@.host);
            },
        }
        if as_source && contents_mode {
            assert(shown.last() == '/');
            assert(r.last() == shown.last());
        }
    }
}

/// The first line that names a user for a host counts: what follows it does not matter, and
/// lines that are blank or comments are passed over.
pub proof fn law_the_first_user_counts(
    lines: Seq<Seq<char>>,
    i: int,
    host: Seq<char>,
    active: bool,
)
    requires
        0 <= i < lines.len(),
    ensures
        ({
            let line = text::trimmed(lines[i]);
            let words = text::words(line);
            &&& line.len() == 0 || line[0] == '#' ==> config_user(lines, i, host, active)
                == config_user(lines, i + 1, host, active)
            &&& (line.len() > 0 && line[0] != '#' && words.len() > 1 && text::lower(words[0])
                == "user"@ && line_value(line).len() > 0 && active) ==> config_user(
                lines,
                i,
                host,
                active,
            ) == Some(line_value(line))
            &&& (line.len() > 0 && line[0] != '#' && words.len() > 1 && text::lower(words[0])
                == "user"@ && !active) ==> config_user(lines, i, host, active) == config_user(
                lines,
                i + 1,
                host,
                false,
            )
        }),
{
    reveal_strlit("user");
    reveal_strlit("host");
    assert("user"@[0] != "host"@[0]);
}

/// What names an endpoint on another host has a host before its first colon and a path
/// behind it, and nothing in the host that is no part of a name.
pub proof fn law_endpoints_have_a_host_and_a_path(value: Seq<char>, k: int)
    requires
        0 <= k < value.len(),
        value[k] == ':',
        forall|i: int| 0 <= i < k ==> (#[trigger] value[i]) != ':',
        remote_of(value) is Some,
    ensures
        k > 0,
        k + 1 < value.len(),
        forall|i: int|
            0 <= i < k ==> (#[trigger] value[i]) != '/' && value[i] != '\\' && !text::is_white(
                value[i],
            ),
        (remote_of(value)->0).path == value.skip(k + 1),
        (remote_of(value)->0).host.len() > 0,
        (remote_of(value)->0).user matches Some(u) ==> u.len() > 0,
        (remote_of(value)->0).user is Some <==> exists|i: int| 0 <= i < k && #[trigger] value[i] == '@',
{
    text::lemma_find_char(value, ':');
    let colon = text::find_char(value, ':') as int;
    assert(value.contains(':'));
    if colon > k {
        assert(value[k] != ':');
    }
    assert(colon == k);
    let left = value.take(colon);
    assert forall|i: int| 0 <= i < k implies (#[trigger] value[i]) != '/' && value[i] != '\\'
        && !text::is_white(value[i]) by {
        assert(left[i] == value[i]);
        assert(left.contains(left[i]));
    }
    text::law_last_place_of_a_character(left, '@');
    let at = text::rfind_char(left, '@');
    if at >= 0 {
        assert(value[at] == '@');
    } else if exists|i: int| 0 <= i < k && #[trigger] value[i] == '@' {
        let i = choose|i: int| 0 <= i < k && #[trigger] value[i] == '@';
        assert(left[i] == '@');
    }
}

} // verus!
