//! The journal of a local operation: what is written, and what an old one
//! tells.

use crate::changes;
use crate::domain::TransferMode;
use crate::order;
use crate::order::Ranked;
use crate::paths;
use crate::text;
use vstd::prelude::*;

verus! {

/// The status of an operation that touched nothing because its sources could
/// not be read.
pub const NONMUTATING_PREFLIGHT_FAILURE: i32 = 2;

/// How many journals are kept.
pub const MAX_RETAINED_JOURNALS: usize = 128;

/// A line of the form `key=value`.
pub open spec fn entry(key: Seq<char>, value: Seq<char>) -> Seq<char> {
    key.push('=') + value.push('\n')
}

/// The lines that name the sources.
pub open spec fn source_lines(sources: Seq<Seq<char>>) -> Seq<char>
    decreases sources.len(),
{
    if sources.len() == 0 {
        Seq::empty()
    } else {
        source_lines(sources.drop_last()) + entry("source"@, sources.last())
    }
}

/// How a journal begins.
pub open spec fn header(
    id: Seq<char>,
    build: Seq<char>,
    started_ms: nat,
    mode: TransferMode,
    sources: Seq<Seq<char>>,
    destination: Seq<char>,
) -> Seq<char> {
    entry("version"@, "2"@) + entry("operation_id"@, id) + entry("build_git_sha"@, build) + entry(
        "started_unix_ms"@,
        text::decimal(started_ms),
    ) + entry("mode"@, mode.word_text()) + source_lines(sources) + entry("destination"@, destination)
        + entry("state"@, "planned"@)
}

fn put(out: &mut Vec<char>, key: &str, value: &[char])
    ensures
        final(out)@ == old(out)@ + entry(key@, value@),
{
    text::extend(out, text::to_chars(key).as_slice());
    out.push('=');
    text::extend(out, value);
    out.push('\n');
    assert(out@ == old(out)@ + entry(key@, value@));
}

/// Writes a number.
fn digits(n: u128) -> (r: Vec<char>)
    ensures
        r@ == text::decimal(n as nat),
    decreases n,
{
    let mut out = if n < 10 {
        Vec::new()
    } else {
        digits(n / 10)
    };
    let d: u8 = (n % 10) as u8;
    out.push((0x30 + d) as char);
    assert(out@ == text::decimal(n as nat));
    out
}

/// The name of an operation: the process and the time, in nanoseconds.
pub fn operation_id(pid: u32, nanos: u128) -> (r: String)
    ensures
        r@ == text::decimal(pid as nat).push('-') + text::decimal(nanos as nat),
{
    let mut out = text::number(pid as u64);
    out.push('-');
    text::extend(&mut out, digits(nanos).as_slice());
    text::from_chars(out.as_slice())
}

/// Writes how a journal begins.
pub fn begin_text(
    id: &str,
    build: &str,
    nanos: u128,
    mode: TransferMode,
    sources: &Vec<String>,
    destination: &str,
) -> (r: String)
    ensures
        r@ == header(
            id@,
            build@,
            nanos as nat / 1_000_000,
            mode,
            text::texts(sources@),
            destination@,
        ),
{
    let mut out: Vec<char> = Vec::new();
    put(&mut out, "version", text::to_chars("2").as_slice());
    put(&mut out, "operation_id", text::to_chars(id).as_slice());
    put(&mut out, "build_git_sha", text::to_chars(build).as_slice());
    put(&mut out, "started_unix_ms", digits(nanos / 1_000_000).as_slice());
    put(&mut out, "mode", text::to_chars(mode.word()).as_slice());
    let ghost lead = out@;
    let ghost all = text::texts(sources@);
    let mut i: usize = 0;
    assert(all.take(0) == Seq::<Seq<char>>::empty());
    assert(lead == lead + source_lines(all.take(0)));
    while i < sources.len()
        invariant
            i <= sources@.len(),
            all == text::texts(sources@),
            out@ == lead + source_lines(all.take(i as int)),
        decreases sources@.len() - i,
    {
        assert(all.take(i + 1).drop_last() == all.take(i as int));
        put(&mut out, "source", text::to_chars(sources[i].as_str()).as_slice());
        assert(out@ == lead + source_lines(all.take(i + 1)));
        i = i + 1;
    }
    assert(all.take(all.len() as int) == all);
    put(&mut out, "destination", text::to_chars(destination).as_slice());
    put(&mut out, "state", text::to_chars("planned").as_slice());
    assert(out@ == header(id@, build@, nanos as nat / 1_000_000, mode, all, destination@));
    text::from_chars(out.as_slice())
}

/// What is written when an operation comes to a state.
pub open spec fn transition(state: Seq<char>, sequence: u64, ms: nat) -> Seq<char> {
    entry("state"@, state) + entry("transition_sequence"@, text::decimal(sequence as nat)) + entry(
        "transition_unix_ms"@,
        text::decimal(ms),
    )
}

/// Counts transitions.
#[derive(Clone, Copy, Debug)]
pub struct JournalState {
    pub sequence: u64,
}

impl JournalState {
    /// No transition yet.
    pub fn new() -> (r: Self)
        ensures
            r.sequence == 0,
    {
        JournalState { sequence: 0 }
    }

    /// Writes that an operation has come to a state.
    pub fn mark(&mut self, state: &str, ms: u128) -> (r: String)
        ensures
            final(self).sequence == crate::domain::sat_add(old(self).sequence, 1),
            r@ == transition(state@, final(self).sequence, ms as nat),
    {
        self.sequence = self.sequence.saturating_add(1);
        let mut out: Vec<char> = Vec::new();
        put(&mut out, "state", text::to_chars(state).as_slice());
        put(&mut out, "transition_sequence", text::number(self.sequence).as_slice());
        put(&mut out, "transition_unix_ms", digits(ms).as_slice());
        assert(out@ == transition(state@, self.sequence, ms as nat));
        text::from_chars(out.as_slice())
    }
}

/// The state that the last line of its kind gives.
pub open spec fn state_in(lines: Seq<Seq<char>>) -> Option<Seq<char>>
    decreases lines.len(),
{
    if lines.len() == 0 {
        None
    } else if text::begins(lines.last(), "state="@) {
        Some(lines.last().skip(6))
    } else {
        state_in(lines.drop_last())
    }
}

/// Reads the last state of a journal.
pub fn last_state(contents: &str) -> (r: Option<String>)
    ensures
        paths::opt_text(r) == state_in(text::lines_of(contents@)),
{
    let lines = text::lines(text::to_chars(contents).as_slice());
    let prefix = text::to_chars("state=");
    let ghost all = text::rows(lines@);
    let mut n: usize = lines.len();
    proof {
        reveal_strlit("state=");
        assert(all.take(n as int) == all);
    }
    while n > 0
        invariant
            n <= lines@.len(),
            all == text::rows(lines@),
            all == text::lines_of(contents@),
            prefix@ == "state="@,
            prefix@.len() == 6,
            state_in(all.take(n as int)) == state_in(all),
        decreases n,
    {
        let line = &lines[n - 1];
        assert(all.take(n as int).last() == line@);
        assert(all.take(n as int).drop_last() == all.take(n - 1));
        if text::begins_with(line.as_slice(), prefix.as_slice()) {
            let rest = text::part(line.as_slice(), 6, line.len());
            assert(rest@ == line@.skip(6));
            return Some(text::from_chars(rest.as_slice()));
        }
        n = n - 1;
    }
    None
}

/// Whether a text is whole lines, and a value stays on its line.
pub open spec fn is_whole(t: Seq<char>) -> bool {
    t.len() == 0 || t.last() == '\n'
}

pub open spec fn is_single_line(s: Seq<char>) -> bool {
    !s.contains('\n') && !(s.len() > 0 && s.last() == '\r')
}

proof fn lemma_whole_split(t: Seq<char>)
    requires
        is_whole(t),
    ensures
        text::split_on(t, '\n').last() == Seq::<char>::empty(),
        text::split_on(t, '\n').len() > 0,
{
    text::lemma_split_on_nonempty(t, '\n');
}

/// A line behind whole lines is one line more.
proof fn lemma_line_added(t: Seq<char>, line: Seq<char>)
    requires
        is_whole(t),
        is_single_line(line),
    ensures
        text::lines_of(t + line.push('\n')) == text::lines_of(t).push(line),
{
    let before = text::split_on(t, '\n');
    lemma_whole_split(t);
    changes::lemma_split_append(t, line, '\n');
    let mid = text::split_on(t + line, '\n');
    assert(before.last() + line == line);
    assert(mid == before.drop_last().push(line));
    let all = t + line.push('\n');
    assert(all.drop_last() == t + line);
    assert(all.last() == '\n');
    let after = text::split_on(all, '\n');
    assert(after == mid.push(Seq::empty()));
    assert(after.drop_last() == mid);
    assert(text::strip_cr(line) == line);
    let f = |p: Seq<char>| text::strip_cr(p);
    assert(mid.map_values(f) == before.drop_last().map_values(f).push(line));
    assert(text::lines_of(all) == mid.map_values(f));
    assert(text::lines_of(t) == before.drop_last().map_values(f));
}

proof fn lemma_decimal_is_single_line(n: nat)
    ensures
        is_single_line(text::decimal(n)),
{
    text::lemma_decimal_value(n);
    let d = text::decimal(n);
    assert(forall|i: int| 0 <= i < d.len() ==> text::is_digit(#[trigger] d[i]));
    if d.contains('\n') {
        let i = choose|i: int| 0 <= i < d.len() && d[i] == '\n';
        assert(text::is_digit(d[i]));
    }
    if d.last() == '\r' {
        assert(text::is_digit(d[d.len() - 1]));
    }
}

proof fn lemma_entry_line(key: Seq<char>, value: Seq<char>)
    requires
        !key.contains('\n'),
        is_single_line(value),
    ensures
        is_single_line(key.push('=') + value),
        entry(key, value) == (key.push('=') + value).push('\n'),
{
    let line = key.push('=') + value;
    if line.contains('\n') {
        let i = choose|i: int| 0 <= i < line.len() && line[i] == '\n';
        if i < key.len() {
            assert(key[i] == '\n');
        } else if i > key.len() {
            assert(value[i - key.len() - 1] == '\n');
        }
    }
    assert(entry(key, value) == line.push('\n'));
}

/// A journal tells the state that was marked last: whole lines, with a
/// transition behind them, are read back as its state.
pub proof fn law_journal_tells_the_last_state(
    before: Seq<char>,
    state: Seq<char>,
    sequence: u64,
    ms: nat,
)
    requires
        is_whole(before),
        is_single_line(state),
    ensures
        state_in(text::lines_of(before + transition(state, sequence, ms))) == Some(state),
        is_whole(before + transition(state, sequence, ms)),
{
    reveal_strlit("state");
    reveal_strlit("state=");
    reveal_strlit("transition_sequence");
    reveal_strlit("transition_unix_ms");
    let a = "state"@.push('=') + state;
    let b = "transition_sequence"@.push('=') + text::decimal(sequence as nat);
    let c = "transition_unix_ms"@.push('=') + text::decimal(ms);
    lemma_decimal_is_single_line(sequence as nat);
    lemma_decimal_is_single_line(ms);
    assert(!"state"@.contains('\n'));
    assert(!"transition_sequence"@.contains('\n'));
    assert(!"transition_unix_ms"@.contains('\n'));
    lemma_entry_line("state"@, state);
    lemma_entry_line("transition_sequence"@, text::decimal(sequence as nat));
    lemma_entry_line("transition_unix_ms"@, text::decimal(ms));
    let t1 = before + a.push('\n');
    let t2 = t1 + b.push('\n');
    let t3 = t2 + c.push('\n');
    lemma_line_added(before, a);
    lemma_line_added(t1, b);
    lemma_line_added(t2, c);
    assert(t3 == before + transition(state, sequence, ms));
    let lines = text::lines_of(t3);
    assert(lines.last() == c);
    assert(lines.drop_last() == text::lines_of(t2));
    assert(lines.drop_last().last() == b);
    assert(lines.drop_last().drop_last() == text::lines_of(t1));
    assert(text::lines_of(t1).last() == a);
    assert("state="@ == "state"@.push('='));
    assert(a.take(6) == "state="@);
    assert(a.skip(6) == state);
    assert(b[0] == 't' && c[0] == 't');
    assert(b.take(6)[0] == b[0] && c.take(6)[0] == c[0]);
    assert("state="@[0] == 's');
    assert(!text::begins(b, "state="@));
    assert(!text::begins(c, "state="@));
    assert(state_in(text::lines_of(t1)) == Some(state));
    assert(state_in(text::lines_of(t2)) == Some(state));
}

/// Whether a state means that an operation was cut short.
pub open spec fn is_incomplete_state(state: Seq<char>) -> bool {
    state == "transferring"@ || state == "published"@ || state == "failed"@ || state
        == "aborted:source-read-preflight-failed"@
}

/// Tests whether a journal is of an operation that was cut short.
pub fn is_incomplete(contents: &str) -> (r: bool)
    ensures
        r == (match state_in(text::lines_of(contents@)) {
            Some(s) => is_incomplete_state(s),
            None => false,
        }),
{
    match last_state(contents) {
        Some(s) => text::equal(s.as_str(), "transferring") || text::equal(s.as_str(), "published")
            || text::equal(s.as_str(), "failed") || text::equal(
            s.as_str(),
            "aborted:source-read-preflight-failed",
        ),
        None => false,
    }
}

/// A journal file and when it was written last.
#[derive(Debug)]
pub struct JournalFile {
    pub modified: i128,
    pub path: String,
}

impl Ranked for JournalFile {
    open spec fn before(self, other: Self) -> bool {
        self.modified < other.modified
    }

    proof fn asymmetric(a: Self, b: Self) {
    }

    proof fn not_before_transitive(a: Self, b: Self, c: Self) {
    }

    fn is_before(&self, other: &Self) -> (r: bool) {
        self.modified < other.modified
    }
}

/// Chooses the journals to remove: the oldest beyond the number kept.
pub fn journals_to_remove(files: Vec<JournalFile>) -> (r: Vec<JournalFile>)
    ensures
        r@ == order::ranked(files@).take(
            if files@.len() > MAX_RETAINED_JOURNALS {
                files@.len() - MAX_RETAINED_JOURNALS
            } else {
                0
            },
        ),
{
    let count: usize = files.len();
    proof {
        order::law_ranked(files@);
    }
    let mut sorted = order::sort(files);
    let excess: usize = if count > MAX_RETAINED_JOURNALS {
        count - MAX_RETAINED_JOURNALS
    } else {
        0
    };
    let ghost all = sorted@;
    assert(all.take(all.len() as int) == all);
    while sorted.len() > excess
        invariant
            excess <= sorted@.len() <= all.len(),
            sorted@ == all.take(sorted@.len() as int),
        decreases sorted@.len(),
    {
        sorted.pop();
        assert(sorted@ == all.take(sorted@.len() as int));
    }
    sorted
}

/// Where journals are kept.
pub open spec fn directory_of(
    state_home: Option<Seq<char>>,
    home: Option<Seq<char>>,
    temp: Seq<char>,
) -> Seq<char> {
    let base = match (state_home, home) {
        (Some(s), _) => s,
        (None, Some(h)) => paths::joined_path(h, ".local/state"@),
        (None, None) => paths::joined_path(temp, "copy-rs-state"@),
    };
    paths::joined_path(base, "copy-rs"@)
}

/// Finds where journals are kept.
pub fn journal_directory(state_home: Option<&str>, home: Option<&str>, temp: &str) -> (r: String)
    ensures
        r@ == directory_of(
            match state_home {
                Some(s) => Some(s@),
                None => None,
            },
            match home {
                Some(s) => Some(s@),
                None => None,
            },
            temp@,
        ),
{
    let base = match (state_home, home) {
        (Some(s), _) => text::copy(s),
        (None, Some(h)) => paths::join_path(h, ".local/state"),
        (None, None) => paths::join_path(temp, "copy-rs-state"),
    };
    paths::join_path(base.as_str(), "copy-rs")
}

/// What becomes of the journal when an operation ends.
#[derive(Clone, Copy, Debug, PartialEq, Eq, Structural)]
pub enum JournalEnd {
    /// Nothing was touched: the journal goes, and the operation has failed.
    Abandon,
    /// Mark the operation as published, and remove the journal.
    Publish,
    /// Mark the operation as failed, and keep the journal.
    Fail,
}

/// What becomes of the journal when an operation ends with a status.
pub open spec fn journal_end_of(code: i32) -> JournalEnd {
    if code == NONMUTATING_PREFLIGHT_FAILURE {
        JournalEnd::Abandon
    } else if code == 0 {
        JournalEnd::Publish
    } else {
        JournalEnd::Fail
    }
}

/// Decides what becomes of the journal.
pub fn journal_end(code: i32) -> (r: JournalEnd)
    ensures
        r == journal_end_of(code),
{
    if code == 2 {
        JournalEnd::Abandon
    } else if code == 0 {
        JournalEnd::Publish
    } else {
        JournalEnd::Fail
    }
}

/// The status that an operation exits with.
pub open spec fn exit_status_of(code: i32, closed: bool) -> i32 {
    if code == NONMUTATING_PREFLIGHT_FAILURE {
        1
    } else if code == 0 && !closed {
        1
    } else {
        code
    }
}

/// The status that an operation exits with. A journal that could not be closed
/// spoils a success; `closed` tells whether it could.
pub fn exit_status(code: i32, closed: bool) -> (r: i32)
    ensures
        r == exit_status_of(code, closed),
{
    if code == 2 || (code == 0 && !closed) {
        1
    } else {
        code
    }
}

/// A journal is published exactly by a success, goes without a trace exactly where nothing
/// was touched, and is kept in any other case; what failed never exits as a success.
pub proof fn law_only_successes_are_published(code: i32, closed: bool)
    ensures
        journal_end_of(code) is Publish <==> code == 0,
        journal_end_of(code) is Abandon <==> code == 2,
        exit_status_of(code, closed) == 0 <==> code == 0 && closed,
        code != 0 && code != 2 ==> exit_status_of(code, closed) == code,
        code == 2 ==> exit_status_of(code, closed) == 1,
{
}

/// The journals that are removed are the oldest: none that stays is older than one that
/// goes, as many stay as are kept, and all stay where there are no more.
pub proof fn law_the_oldest_journals_go(files: Seq<JournalFile>, i: int, j: int)
    requires
        files.len() > 128,
        0 <= i < files.len() - 128 <= j < files.len(),
    ensures
        order::ranked(files)[i].modified <= order::ranked(files)[j].modified,
        order::ranked(files).to_multiset() == files.to_multiset(),
        MAX_RETAINED_JOURNALS == 128,
{
    order::law_ranked(files);
    assert(!order::ranked(files)[j].before(order::ranked(files)[i]));
}

/// The directory of the journals lies below the one for states where that is set, else
/// below the home directory, and else below the one for temporary files.
pub proof fn law_where_journals_are_kept(state_home: Seq<char>, home: Seq<char>, temp: Seq<char>)
    ensures
        directory_of(Some(state_home), Some(home), temp) == paths::joined_path(
            state_home,
            "copy-rs"@,
        ),
        directory_of(Some(state_home), None, temp) == paths::joined_path(state_home, "copy-rs"@),
        directory_of(None, Some(home), temp) == paths::joined_path(
            paths::joined_path(home, ".local/state"@),
            "copy-rs"@,
        ),
        directory_of(None, None, temp) == paths::joined_path(
            paths::joined_path(temp, "copy-rs-state"@),
            "copy-rs"@,
        ),
{
}

/// A journal that was only begun is of an operation that was not cut short, and one that
/// was marked as transferring or failed is of one that was.
pub proof fn law_transfers_that_stopped_are_incomplete(state: Seq<char>)
    ensures
        is_incomplete_state("transferring"@),
        is_incomplete_state("published"@),
        is_incomplete_state("failed"@),
        !is_incomplete_state("planned"@),
        state.len() == 0 ==> !is_incomplete_state(state),
{
    reveal_strlit("planned");
    reveal_strlit("transferring");
    reveal_strlit("published");
    reveal_strlit("failed");
    reveal_strlit("aborted:source-read-preflight-failed");
    assert("planned"@.len() == 7);
    assert("transferring"@.len() == 12);
    assert("published"@.len() == 9);
    assert("failed"@.len() == 6);
}

/// Every source has a line of its own, in order.
pub proof fn law_every_source_has_its_line(sources: Seq<Seq<char>>, source: Seq<char>)
    ensures
        source_lines(sources.push(source)) == source_lines(sources) + (("source"@).push('=') + source
            + seq!['\n']),
        source_lines(Seq::empty()).len() == 0,
{
    assert(sources.push(source).drop_last() == sources);
    assert(entry("source"@, source) == ("source"@).push('=') + source + seq!['\n']);
}

} // verus!
