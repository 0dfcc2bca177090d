//! Command lines of rsync and what its output says.

use crate::domain;
use crate::text;
use regex::Regex;
use vstd::prelude::*;

verus! {

/// What `regex` captures of a text: for each group of the pattern what it
/// matched, if it took part. Nothing, where the pattern does not match or
/// cannot be compiled.
pub uninterp spec fn captured(pattern: Seq<char>, line: Seq<char>) -> Option<
    Seq<Option<Seq<char>>>,
>;

/// The groups of a match as texts.
pub open spec fn group_texts(groups: Seq<Option<String>>) -> Seq<Option<Seq<char>>> {
    groups.map_values(
        |g: Option<String>|
            match g {
                Some(s) => Some(s@),
                None => None,
            },
    )
}

/// `Regex::new` compiles a pattern and `Regex::captures` matches it against a
/// text. The result is what `captured` names for the two; what the pattern
/// language means is not said here.
#[verifier::external_body]
fn capture_groups(pattern: &str, line: &str) -> (r: Option<Vec<Option<String>>>)
    ensures
        match r {
            Some(groups) => captured(pattern@, line@) == Some(group_texts(groups@)),
            None => captured(pattern@, line@) is None,
        },
{
    let caps = Regex::new(pattern).ok()?.captures(line)?;
    Some(caps.iter().map(|m| m.map(|g| g.as_str().to_string())).collect())
}

/// The pattern of a progress line: a number with an optional unit, and a
/// percentage.
pub open spec fn progress_pattern() -> Seq<char> {
    "^\\s*([0-9][0-9,]*(?:\\.[0-9]+)?)([kKmMgGtTpPeE]?)\\s+[0-9]{1,3}%"@
}

/// What group `i` matched.
pub open spec fn group(groups: Seq<Option<Seq<char>>>, i: int) -> Option<Seq<char>> {
    if 0 <= i < groups.len() {
        groups[i]
    } else {
        None
    }
}

/// `s` without its commas.
pub open spec fn without_commas(s: Seq<char>) -> Seq<char>
    decreases s.len(),
{
    if s.len() == 0 {
        s
    } else if s.last() == ',' {
        without_commas(s.drop_last())
    } else {
        without_commas(s.drop_last()).push(s.last())
    }
}

/// The power of 1024 that a unit stands for.
pub open spec fn unit_power(unit: Seq<char>) -> u32 {
    let u = text::lower(unit);
    if u == "k"@ {
        1
    } else if u == "m"@ {
        2
    } else if u == "g"@ {
        3
    } else if u == "t"@ {
        4
    } else if u == "p"@ {
        5
    } else if u == "e"@ {
        6
    } else {
        0
    }
}

/// A number of bytes as rsync writes it: a decimal number times a power of
/// 1024.
#[derive(Debug)]
pub struct ProgressNumber {
    pub number: String,
    pub power: u32,
}

/// What the groups of a progress line say.
pub open spec fn progress_number(groups: Option<Seq<Option<Seq<char>>>>) -> Option<
    (Seq<char>, u32),
> {
    match groups {
        Some(groups) => match group(groups, 1) {
            Some(number) => Some(
                (
                    without_commas(number),
                    match group(groups, 2) {
                        Some(unit) => unit_power(unit),
                        None => 0,
                    },
                ),
            ),
            None => None,
        },
        None => None,
    }
}

/// The model of an optional number.
pub open spec fn number_model(n: Option<ProgressNumber>) -> Option<(Seq<char>, u32)> {
    match n {
        Some(n) => Some((n.number@, n.power)),
        None => None,
    }
}

fn strip_commas(s: &str) -> (r: String)
    ensures
        r@ == without_commas(s@),
{
    let chars = text::to_chars(s);
    let mut out: Vec<char> = Vec::new();
    let mut i: usize = 0;
    assert(chars@.take(0) == Seq::<char>::empty());
    while i < chars.len()
        invariant
            i <= chars@.len(),
            out@ == without_commas(chars@.take(i as int)),
        decreases chars@.len() - i,
    {
        assert(chars@.take(i + 1).drop_last() == chars@.take(i as int));
        if chars[i] != ',' {
            out.push(chars[i]);
        }
        i = i + 1;
    }
    assert(chars@.take(chars@.len() as int) == chars@);
    text::from_chars(out.as_slice())
}

fn power_of(unit: &str) -> (r: u32)
    ensures
        r == unit_power(unit@),
{
    let u = text::to_lower(text::to_chars(unit).as_slice());
    if text::is_text(u.as_slice(), "k") {
        1
    } else if text::is_text(u.as_slice(), "m") {
        2
    } else if text::is_text(u.as_slice(), "g") {
        3
    } else if text::is_text(u.as_slice(), "t") {
        4
    } else if text::is_text(u.as_slice(), "p") {
        5
    } else if text::is_text(u.as_slice(), "e") {
        6
    } else {
        0
    }
}

/// Reads the groups of a progress line.
pub fn read_progress_groups(groups: &Option<Vec<Option<String>>>) -> (r: Option<ProgressNumber>)
    ensures
        number_model(r) == progress_number(
            match groups {
                Some(g) => Some(group_texts(g@)),
                None => None,
            },
        ),
{
    match groups {
        Some(groups) => {
            let ghost all = group_texts(groups@);
            assert(all.len() == groups@.len());
            if groups.len() < 2 {
                return None;
            }
            assert(group(all, 1) == (match groups@[1] {
                Some(s) => Some(s@),
                None => None,
            }));
            match &groups[1] {
                Some(number) => {
                    let power: u32 = if groups.len() > 2 {
                        assert(group(all, 2) == (match groups@[2] {
                            Some(s) => Some(s@),
                            None => None,
                        }));
                        match &groups[2] {
                            Some(unit) => power_of(unit.as_str()),
                            None => 0,
                        }
                    } else {
                        0
                    };
                    Some(ProgressNumber { number: strip_commas(number.as_str()), power })
                },
                None => None,
            }
        },
        None => None,
    }
}

/// Reads the number of bytes in a progress line.
pub fn parse_progress2_bytes(line: &str) -> (r: Option<ProgressNumber>)
    ensures
        number_model(r) == progress_number(captured(progress_pattern(), line@)),
{
    let groups = capture_groups(
        "^\\s*([0-9][0-9,]*(?:\\.[0-9]+)?)([kKmMgGtTpPeE]?)\\s+[0-9]{1,3}%",
        line,
    );
    read_progress_groups(&groups)
}

/// What a line of rsync's output says.
#[derive(Debug)]
pub enum RsyncStreamEvent {
    Progress(ProgressNumber),
    Text(String),
}

/// The model of an event.
pub enum EventModel {
    Progress { number: Seq<char>, power: u32 },
    Text { line: Seq<char> },
}

pub open spec fn event_model(e: Option<RsyncStreamEvent>) -> Option<EventModel> {
    match e {
        Some(RsyncStreamEvent::Progress(n)) => Some(
            EventModel::Progress { number: n.number@, power: n.power },
        ),
        Some(RsyncStreamEvent::Text(s)) => Some(EventModel::Text { line: s@ }),
        None => None,
    }
}

/// What a trimmed line says, given the number in it, if any.
pub open spec fn event_of(line: Seq<char>, number: Option<(Seq<char>, u32)>) -> Option<EventModel> {
    if line.len() == 0 {
        None
    } else {
        match number {
            Some(n) => Some(EventModel::Progress { number: n.0, power: n.1 }),
            None => Some(EventModel::Text { line }),
        }
    }
}

/// Turns a trimmed line into an event, given the number in it, if any.
pub fn stream_event(line: String, number: Option<ProgressNumber>) -> (r: Option<RsyncStreamEvent>)
    ensures
        event_model(r) == event_of(line@, number_model(number)),
{
    if line.as_str().is_empty() {
        None
    } else {
        match number {
            Some(n) => Some(RsyncStreamEvent::Progress(n)),
            None => Some(RsyncStreamEvent::Text(line)),
        }
    }
}

/// Reads a line of rsync's output; a blank one says nothing.
pub fn handle_rsync_stream_line(line: &str) -> (r: Option<RsyncStreamEvent>)
    ensures
        event_model(r) == event_of(
            text::trimmed(line@),
            progress_number(captured(progress_pattern(), text::trimmed(line@))),
        ),
{
    let trimmed = text::from_chars(text::trim(text::to_chars(line).as_slice()).as_slice());
    let number = parse_progress2_bytes(trimmed.as_str());
    stream_event(trimmed, number)
}

/// Lines cut from a stream of bytes: those that are complete and not empty,
/// and what is left over.
#[verifier::ext_equal]
pub struct Cut {
    pub lines: Seq<Seq<u8>>,
    pub rest: Seq<u8>,
}

/// `s` with `data` behind it. A line feed or carriage return ends a line.
pub open spec fn cut_more(s: Cut, data: Seq<u8>) -> Cut
    decreases data.len(),
{
    if data.len() == 0 {
        s
    } else {
        let before = cut_more(s, data.drop_last());
        let b = data.last();
        if b != 10 && b != 13 {
            Cut { lines: before.lines, rest: before.rest.push(b) }
        } else if before.rest.len() == 0 {
            before
        } else {
            Cut { lines: before.lines.push(before.rest), rest: Seq::empty() }
        }
    }
}

/// It makes no difference in which pieces a stream arrives.
pub proof fn law_pieces_make_no_difference(s: Cut, a: Seq<u8>, b: Seq<u8>)
    ensures
        cut_more(cut_more(s, a), b) == cut_more(s, a + b),
    decreases b.len(),
{
    if b.len() == 0 {
        assert(a + b == a);
    } else {
        law_pieces_make_no_difference(s, a, b.drop_last());
        assert((a + b).drop_last() == a + b.drop_last());
    }
}

/// The rows of bytes that a vector holds.
pub open spec fn byte_rows(v: Seq<Vec<u8>>) -> Seq<Seq<u8>> {
    v.map_values(|s: Vec<u8>| s@)
}

/// Takes in more of a stream: returns the lines that it completes, and keeps
/// what is left over in `pending`.
pub fn cut_lines(pending: &mut Vec<u8>, data: &[u8]) -> (r: Vec<Vec<u8>>)
    ensures
        (Cut { lines: byte_rows(r@), rest: final(pending)@ }) == cut_more(
            Cut { lines: Seq::empty(), rest: old(pending)@ },
            data@,
        ),
{
    let ghost start = Cut { lines: Seq::empty(), rest: pending@ };
    let mut rest: Vec<u8> = Vec::new();
    rest.append(pending);
    assert(rest@ == old(pending)@);
    let mut lines: Vec<Vec<u8>> = Vec::new();
    let mut i: usize = 0;
    assert(data@.take(0) == Seq::<u8>::empty());
    assert(byte_rows(lines@) == Seq::<Seq<u8>>::empty());
    while i < data.len()
        invariant
            i <= data@.len(),
            (Cut { lines: byte_rows(lines@), rest: rest@ }) == cut_more(
                start,
                data@.take(i as int),
            ),
        decreases data@.len() - i,
    {
        assert(data@.take(i + 1).drop_last() == data@.take(i as int));
        let b: u8 = data[i];
        if b != 10 && b != 13 {
            rest.push(b);
        } else if rest.len() > 0 {
            let ghost before = lines@;
            let ghost line = rest@;
            let mut done: Vec<u8> = Vec::new();
            done.append(&mut rest);
            assert(done@ == line);
            lines.push(done);
            assert(byte_rows(lines@) == byte_rows(before).push(line));
        }
        i = i + 1;
    }
    assert(data@.take(data@.len() as int) == data@);
    *pending = rest;
    lines
}

/// How rsync is to transfer.
#[derive(Clone, Copy, Debug)]
pub struct RsyncOptions {
    pub elevated: bool,
    pub remove_source: bool,
    pub delete_extras: bool,
    pub size_only: bool,
}

/// The words that stand where a condition holds.
pub open spec fn word_if(cond: bool, word: Seq<char>) -> Seq<Seq<char>> {
    if cond {
        seq![word]
    } else {
        Seq::empty()
    }
}

/// The command line of a transfer with rsync.
pub open spec fn command_of(source: Seq<char>, destination: Seq<char>, o: RsyncOptions) -> Seq<
    Seq<char>,
> {
    word_if(o.elevated, "pkexec"@) + seq!["rsync"@, "-aH"@, "--partial"@, "--protect-args"@]
        + word_if(o.size_only, "--size-only"@) + word_if(o.delete_extras, "--delete"@) + word_if(
        o.remove_source,
        "--remove-source-files"@,
    ) + seq!["--info=progress2,stats2,name0"@, "--"@, source, destination]
}

fn push_word_if(out: &mut Vec<String>, cond: bool, word: &str)
    ensures
        text::texts(final(out)@) == text::texts(old(out)@) + word_if(cond, word@),
{
    if cond {
        text::push_text(out, word);
    }
    assert(text::texts(out@) == text::texts(old(out)@) + word_if(cond, word@));
}

/// Writes the command line of a transfer with rsync.
pub fn rsync_command(source: &str, destination: &str, o: RsyncOptions) -> (r: Vec<String>)
    ensures
        text::texts(r@) == command_of(source@, destination@, o),
{
    let mut out: Vec<String> = Vec::new();
    push_word_if(&mut out, o.elevated, "pkexec");
    text::push_text(&mut out, "rsync");
    text::push_text(&mut out, "-aH");
    text::push_text(&mut out, "--partial");
    text::push_text(&mut out, "--protect-args");
    push_word_if(&mut out, o.size_only, "--size-only");
    push_word_if(&mut out, o.delete_extras, "--delete");
    push_word_if(&mut out, o.remove_source, "--remove-source-files");
    text::push_text(&mut out, "--info=progress2,stats2,name0");
    text::push_text(&mut out, "--");
    text::push_text(&mut out, source);
    text::push_text(&mut out, destination);
    assert(text::texts(out@) == command_of(source@, destination@, o));
    out
}

/// Whatever the options, source and destination stand behind the end of the
/// options: a path that begins with a dash is still a path.
pub proof fn law_paths_follow_the_options(source: Seq<char>, destination: Seq<char>, o: RsyncOptions)
    ensures
        ({
            let cmd = command_of(source, destination, o);
            let n = cmd.len() as int;
            n >= 3 && cmd[n - 3] == "--"@ && cmd[n - 2] == source && cmd[n - 1] == destination
        }),
{
}

/// The bytes that a transfer counts as done when it ends.
pub open spec fn final_bytes_of(planned: u64, seen: u64, status: i32) -> u64 {
    if planned > seen && status == 0 {
        planned
    } else {
        seen
    }
}

/// The bytes that a transfer counts as done when it ends: all that was
/// planned, where it succeeded and anything was.
pub fn final_bytes(planned: u64, seen: u64, status: i32) -> (r: u64)
    ensures
        r == final_bytes_of(planned, seen, status),
{
    if planned > seen && status == 0 {
        planned
    } else {
        seen
    }
}

/// What several transfers in a row have come to.
#[derive(Clone, Copy, Debug, PartialEq, Eq, Structural)]
pub struct RsyncAggregate {
    pub status: i32,
    pub bytes_done: u64,
}

/// The planned bytes that a transfer goes by, and whether it deletes extras.
pub open spec fn share_of(
    index: usize,
    count: usize,
    planned: u64,
    so_far: RsyncAggregate,
    delete_extras: bool,
) -> (u64, bool) {
    if count == 1 {
        (planned, delete_extras)
    } else if index == count - 1 {
        (domain::sat_sub(planned, so_far.bytes_done), delete_extras)
    } else {
        (0, false)
    }
}

/// The planned bytes that transfer `index` of `count` goes by, and whether it
/// deletes extras: only the last one does, and has what is left to plan with.
pub fn source_share(
    index: usize,
    count: usize,
    planned: u64,
    so_far: RsyncAggregate,
    delete_extras: bool,
) -> (r: (u64, bool))
    requires
        index < count,
    ensures
        r == share_of(index, count, planned, so_far, delete_extras),
{
    if count == 1 {
        (planned, delete_extras)
    } else if index == count - 1 {
        (planned.saturating_sub(so_far.bytes_done), delete_extras)
    } else {
        (0, false)
    }
}

impl RsyncAggregate {
    /// Adds a transfer that has ended; tells whether the next may start.
    pub fn absorb(&mut self, status: i32, bytes: u64) -> (r: bool)
        ensures
            *final(self) == (RsyncAggregate {
                status,
                bytes_done: domain::sat_add(old(self).bytes_done, bytes),
            }),
            r == (status == 0),
    {
        self.status = status;
        self.bytes_done = self.bytes_done.saturating_add(bytes);
        status == 0
    }
}

/// A transfer that succeeded counts all that was planned, and one that failed only what was
/// seen; never less than was seen.
pub proof fn law_successes_count_in_full(planned: u64, seen: u64, status: i32)
    ensures
        final_bytes_of(planned, seen, status) >= seen,
        status == 0 ==> final_bytes_of(planned, seen, status) >= planned,
        status != 0 ==> final_bytes_of(planned, seen, status) == seen,
        planned <= seen ==> final_bytes_of(planned, seen, status) == seen,
{
}

/// Extras are deleted by the last of several transfers only, and the planned bytes that
/// are not done yet are the share of that one.
pub proof fn law_only_the_last_transfer_deletes(
    index: usize,
    count: usize,
    planned: u64,
    so_far: RsyncAggregate,
    delete_extras: bool,
)
    requires
        index < count,
    ensures
        ({
            let r = share_of(index, count, planned, so_far, delete_extras);
            &&& r.1 <==> delete_extras && index + 1 == count
            &&& count == 1 ==> r.0 == planned
            &&& count > 1 && index + 1 == count && so_far.bytes_done <= planned ==> r.0 == planned
                - so_far.bytes_done
            &&& index + 1 < count ==> r.0 == 0
        }),
{
}

/// A command line deletes extras, removes sources, compares sizes alone or asks for
/// elevated rights exactly where its options say so.
pub proof fn law_commands_say_what_was_asked_for(
    source: Seq<char>,
    destination: Seq<char>,
    o: RsyncOptions,
)
    ensures
        ({
            let c = command_of(source, destination, o);
            let e: int = if o.elevated {
                1
            } else {
                0
            };
            let s: int = if o.size_only {
                1
            } else {
                0
            };
            let d: int = if o.delete_extras {
                1
            } else {
                0
            };
            let m: int = if o.remove_source {
                1
            } else {
                0
            };
            &&& c.len() == 8 + e + s + d + m
            &&& o.elevated ==> c[0] == "pkexec"@
            &&& c[e] == "rsync"@ && c[e + 1] == "-aH"@ && c[e + 2] == "--partial"@ && c[e + 3]
                == "--protect-args"@
            &&& o.size_only ==> c[e + 4] == "--size-only"@
            &&& o.delete_extras ==> c[e + 4 + s] == "--delete"@
            &&& o.remove_source ==> c[e + 4 + s + d] == "--remove-source-files"@
            &&& c[e + 4 + s + d + m] == "--info=progress2,stats2,name0"@
            &&& c[e + 5 + s + d + m] == "--"@
        }),
{
}

/// Commas in a number are dropped, and nothing else is.
pub proof fn law_only_commas_are_dropped(s: Seq<char>, c: char)
    ensures
        without_commas(Seq::empty()).len() == 0,
        c == ',' ==> without_commas(s.push(c)) == without_commas(s),
        c != ',' ==> without_commas(s.push(c)) == without_commas(s).push(c),
{
    assert(s.push(c).drop_last() == s);
}

/// The units are powers of 1024, one after the other, in either case; anything else stands
/// for bytes.
pub proof fn law_units_are_powers(c: char)
    ensures
        c == 'k' || c == 'K' <==> unit_power(seq![c]) == 1,
        c == 'm' || c == 'M' <==> unit_power(seq![c]) == 2,
        c == 'g' || c == 'G' <==> unit_power(seq![c]) == 3,
        c == 't' || c == 'T' <==> unit_power(seq![c]) == 4,
        c == 'p' || c == 'P' <==> unit_power(seq![c]) == 5,
        c == 'e' || c == 'E' <==> unit_power(seq![c]) == 6,
        unit_power(Seq::empty()) == 0,
{
    reveal_strlit("k");
    reveal_strlit("m");
    reveal_strlit("g");
    reveal_strlit("t");
    reveal_strlit("p");
    reveal_strlit("e");
    let u = text::lower(seq![c]);
    let l = text::lower_char(c);
    assert(u.len() == 1 && u[0] == l);
    assert(u == seq![l]);
    assert("k"@.len() == 1 && "k"@[0] == 'k');
    assert("m"@.len() == 1 && "m"@[0] == 'm');
    assert("g"@.len() == 1 && "g"@[0] == 'g');
    assert("t"@.len() == 1 && "t"@[0] == 't');
    assert("p"@.len() == 1 && "p"@[0] == 'p');
    assert("e"@.len() == 1 && "e"@[0] == 'e');
    assert(l == 'k' ==> u =~= "k"@);
    assert(l == 'm' ==> u =~= "m"@);
    assert(l == 'g' ==> u =~= "g"@);
    assert(l == 't' ==> u =~= "t"@);
    assert(l == 'p' ==> u =~= "p"@);
    assert(l == 'e' ==> u =~= "e"@);
    assert(text::lower(Seq::<char>::empty()).len() == 0);
}

/// A line is progress exactly where it holds a number, else it is text as it stands, and an
/// empty one says nothing.
pub proof fn law_lines_with_numbers_are_progress(line: Seq<char>, number: Option<(Seq<char>, u32)>)
    ensures
        line.len() == 0 <==> event_of(line, number) is None,
        line.len() > 0 && number is None ==> event_of(line, number) == Some(
            EventModel::Text { line },
        ),
        line.len() > 0 && number is Some ==> event_of(line, number) == Some(
            EventModel::Progress { number: (number->0).0, power: (number->0).1 },
        ),
{
}

/// A line ends at a line feed or a carriage return and holds all the bytes before it;
/// empty lines are passed over.
pub proof fn law_lines_end_at_feeds_and_returns(s: Cut, line: Seq<u8>, end: u8)
    requires
        s.rest.len() == 0,
        forall|i: int| 0 <= i < line.len() ==> (#[trigger] line[i]) != 10 && line[i] != 13,
        end == 10 || end == 13,
    ensures
        line.len() > 0 ==> cut_more(s, line.push(end)) == (Cut {
            lines: s.lines.push(line),
            rest: Seq::empty(),
        }),
        line.len() == 0 ==> cut_more(s, line.push(end)) == s,
{
    lemma_unbroken(s, line);
    assert(line.push(end).drop_last() == line);
    assert(s.rest + line == line);
    if line.len() == 0 {
        assert(s.rest == line);
    }
}

proof fn lemma_unbroken(s: Cut, line: Seq<u8>)
    requires
        forall|i: int| 0 <= i < line.len() ==> (#[trigger] line[i]) != 10 && line[i] != 13,
    ensures
        cut_more(s, line) == (Cut { lines: s.lines, rest: s.rest + line }),
    decreases line.len(),
{
    if line.len() == 0 {
        assert(s.rest + line == s.rest);
    } else {
        let front = line.drop_last();
        assert forall|i: int| 0 <= i < front.len() implies (#[trigger] front[i]) != 10 && front[i]
            != 13 by {
            assert(front[i] == line[i]);
        }
        lemma_unbroken(s, front);
        assert(line[line.len() - 1] != 10);
        assert((s.rest + front).push(line.last()) == s.rest + line);
    }
}

/// A progress line tells a number if and only if its first group matched: the number without
/// its commas, with the power of the unit behind it, if there is one.
pub proof fn law_progress_lines_tell_a_number(groups: Seq<Option<Seq<char>>>)
    requires
        groups.len() >= 3,
    ensures
        progress_number(Some(groups)) is Some <==> groups[1] is Some,
        progress_number(Some(groups)) matches Some(r) ==> {
            &&& !r.0.contains(',')
            &&& r.0 == (groups[1]->0).filter(|c: char| c != ',')
            &&& groups[2] is None ==> r.1 == 0
            &&& groups[2] matches Some(unit) ==> r.1 == unit_power(unit)
        },
        progress_number(None) is None,
{
    match groups[1] {
        Some(s) => {
            lemma_commas_are_dropped(s);
        },
        None => {},
    }
}

proof fn lemma_commas_are_dropped(s: Seq<char>)
    ensures
        without_commas(s) == s.filter(|c: char| c != ','),
        !without_commas(s).contains(','),
    decreases s.len(),
{
    reveal(Seq::filter);
    if s.len() > 0 {
        lemma_commas_are_dropped(s.drop_last());
        let r = without_commas(s);
        let rest = without_commas(s.drop_last());
        if r.contains(',') {
            let i = choose|i: int| 0 <= i < r.len() && r[i] == ',';
            if i < rest.len() {
                assert(rest[i] == ',');
            }
        }
    }
}

} // verus!
