//! Progress display: bars, lines, and the frames that redraw them.

use crate::summary;
use crate::text;
use crate::tree_git;
use vstd::prelude::*;

verus! {

/// A number with zeros before it up to a width.
pub open spec fn zero_padded(n: nat, width: int) -> Seq<char> {
    let d = text::decimal(n);
    if d.len() >= width {
        d
    } else {
        Seq::new((width - d.len()) as nat, |i: int| '0') + d
    }
}

fn zero_pad(n: u64, width: usize) -> (r: String)
    ensures
        r@ == zero_padded(n as nat, width as int),
{
    let d = text::number(n);
    let mut out = String::new();
    let mut i: usize = d.len();
    while i < width
        invariant
            d@ == text::decimal(n as nat),
            d@.len() <= i,
            i <= width || i == d@.len(),
            out@ == Seq::new((i - d@.len()) as nat, |k: int| '0'),
        decreases width - i,
    {
        out.push('0');
        assert(out@ == Seq::new((i + 1 - d@.len()) as nat, |k: int| '0'));
        i = i + 1;
    }
    let t = text::from_chars(d.as_slice());
    out.push_str(t.as_str());
    assert(out@ == zero_padded(n as nat, width as int));
    out
}

/// A duration in hours, minutes, seconds and milliseconds.
pub open spec fn hms_ms(ms: u64) -> Seq<char> {
    zero_padded((ms / 3_600_000) as nat, 2) + ":"@ + zero_padded(
        ((ms % 3_600_000) / 60_000) as nat,
        2,
    ) + ":"@ + zero_padded(((ms % 60_000) / 1000) as nat, 2) + "."@ + zero_padded(
        (ms % 1000) as nat,
        3,
    )
}

/// Writes a duration that is given in milliseconds.
pub fn fmt_hms_ms(ms_total: u64) -> (r: String)
    ensures
        r@ == hms_ms(ms_total),
{
    let mut out = zero_pad(ms_total / 3_600_000, 2);
    out.push_str(":");
    out.push_str(zero_pad((ms_total % 3_600_000) / 60_000, 2).as_str());
    out.push_str(":");
    out.push_str(zero_pad((ms_total % 60_000) / 1000, 2).as_str());
    out.push_str(".");
    out.push_str(zero_pad(ms_total % 1000, 3).as_str());
    out
}

/// A duration in hours, minutes, seconds and tenths.
pub open spec fn hms_tenths(tenths: u64) -> Seq<char> {
    zero_padded((tenths / 36_000) as nat, 2) + ":"@ + zero_padded(
        ((tenths % 36_000) / 600) as nat,
        2,
    ) + ":"@ + zero_padded(((tenths % 600) / 10) as nat, 2) + "."@ + text::decimal(
        (tenths % 10) as nat,
    )
}

/// Writes a duration that is given in tenths of a second.
pub fn fmt_hms_tenths(tenth_total: u64) -> (r: String)
    ensures
        r@ == hms_tenths(tenth_total),
{
    let mut out = zero_pad(tenth_total / 36_000, 2);
    out.push_str(":");
    out.push_str(zero_pad((tenth_total % 36_000) / 600, 2).as_str());
    out.push_str(":");
    out.push_str(zero_pad((tenth_total % 600) / 10, 2).as_str());
    out.push_str(".");
    let last = text::from_chars(text::number(tenth_total % 10).as_slice());
    out.push_str(last.as_str());
    out
}

/// The same character several times.
pub open spec fn repeated(c: char, n: int) -> Seq<char> {
    Seq::new(
        (if n > 0 {
            n
        } else {
            0
        }) as nat,
        |i: int| c,
    )
}

fn push_repeated(out: &mut String, c: char, n: usize)
    ensures
        final(out)@ == old(out)@ + repeated(c, n as int),
{
    let ghost start = out@;
    let mut i: usize = 0;
    assert(start + repeated(c, 0) == start);
    while i < n
        invariant
            i <= n,
            out@ == start + repeated(c, i as int),
        decreases n - i,
    {
        out.push(c);
        assert(start + repeated(c, i + 1) == (start + repeated(c, i as int)).push(c));
        i = i + 1;
    }
}

/// The width of a bar: at least 8.
pub open spec fn bar_columns(width: int) -> int {
    if width < 8 {
        8
    } else {
        width
    }
}

/// A bar with so many columns filled. Blank, where it is not known.
pub open spec fn bar_text(filled: Option<usize>, width: int) -> Seq<char> {
    let w = bar_columns(width);
    match filled {
        None => repeated(' ', w),
        Some(n) => if n >= w {
            repeated('=', w)
        } else {
            repeated('=', n as int) + ">"@ + repeated(' ', w - n - 1)
        },
    }
}

/// Draws a bar.
pub fn build_progress_bar(filled: Option<usize>, width: usize) -> (r: String)
    ensures
        r@ == bar_text(filled, width as int),
{
    let w: usize = if width < 8 {
        8
    } else {
        width
    };
    let mut out = String::new();
    match filled {
        None => {
            push_repeated(&mut out, ' ', w);
        },
        Some(n) => {
            if n >= w {
                push_repeated(&mut out, '=', w);
            } else {
                push_repeated(&mut out, '=', n);
                out.push_str(">");
                push_repeated(&mut out, ' ', w - n - 1);
            }
        },
    }
    assert(out@ == bar_text(filled, width as int));
    out
}

/// A bar has its width, however much of it is filled.
pub proof fn law_bar_has_its_width(filled: Option<usize>, width: int)
    ensures
        bar_text(filled, width).len() == bar_columns(width),
{
    reveal_strlit(">");
}

/// The most columns that a line takes in a terminal.
pub open spec fn line_columns(terminal_width: int) -> int {
    if terminal_width - 1 < 40 {
        40
    } else {
        terminal_width - 1
    }
}

fn max_columns(terminal_width: usize) -> (r: usize)
    ensures
        r == line_columns(terminal_width as int),
{
    if terminal_width < 41 {
        40
    } else {
        terminal_width - 1
    }
}

/// A line cut to what a terminal takes.
pub open spec fn clamped_line(line: Seq<char>, terminal_width: int) -> Seq<char> {
    if line.len() > line_columns(terminal_width) {
        line.take(line_columns(terminal_width))
    } else {
        line
    }
}

/// Cuts a line to what a terminal takes.
pub fn clamp_line_for_columns(line: String, terminal_width: usize) -> (r: String)
    ensures
        r@ == clamped_line(line@, terminal_width as int),
{
    let max: usize = max_columns(terminal_width);
    let chars = text::to_chars(line.as_str());
    if chars.len() > max {
        let cut = text::part(chars.as_slice(), 0, max);
        assert(cut@ == line@.take(max as int));
        text::from_chars(cut.as_slice())
    } else {
        line
    }
}

/// The smaller of two counts.
pub open spec fn lesser(a: u64, b: u64) -> u64 {
    if a <= b {
        a
    } else {
        b
    }
}

/// A line on objects: label, percentage, bar and counts.
pub open spec fn object_line(
    label: Seq<char>,
    pct: Seq<char>,
    bar: Seq<char>,
    completed: u64,
    total: u64,
) -> Seq<char> {
    tree_git::padded_right(label, 8) + " "@ + pct + " ["@ + bar + "] "@ + summary::number_text(
        lesser(completed, total),
    ) + " / "@ + summary::number_text(total)
}

/// How far along a number of objects is. The percentage is given as text, and
/// how much of the bar is filled, in columns.
pub struct ObjectProgress<'a> {
    pub label: &'a str,
    pub completed: u64,
    pub total: u64,
    pub pct: &'a str,
}

fn object_text(o: &ObjectProgress, bar: &str) -> (r: String)
    ensures
        r@ == object_line(o.label@, o.pct@, bar@, o.completed, o.total),
{
    let completed: u64 = if o.completed <= o.total {
        o.completed
    } else {
        o.total
    };
    let mut out = tree_git::pad_right(o.label, 8);
    out.push_str(" ");
    out.push_str(o.pct);
    out.push_str(" [");
    out.push_str(bar);
    out.push_str("] ");
    out.push_str(summary::format_number(completed).as_str());
    out.push_str(" / ");
    out.push_str(summary::format_number(o.total).as_str());
    out
}

/// Writes a line on objects.
pub fn format_object_progress_line(o: &ObjectProgress, filled: usize, bar_width: usize) -> (r: String)
    ensures
        r@ == object_line(
            o.label@,
            o.pct@,
            bar_text(Some(filled), bar_width as int),
            o.completed,
            o.total,
        ),
{
    let bar = build_progress_bar(Some(filled), bar_width);
    object_text(o, bar.as_str())
}

/// A row of the table below the bars: how many bytes, and how fast.
pub struct RateRow {
    pub bytes: String,
    pub rate: String,
}

/// What a frame shows, as text.
pub struct ProgressTexts {
    pub phase_label: String,
    pub pct: String,
    pub done: String,
    pub planned: String,
    pub eta: String,
    pub eta_debug: String,
    /// All bytes are transferred.
    pub complete: bool,
    pub transfer: RateRow,
    pub write_disk: RateRow,
    pub write_complete: RateRow,
    pub read_cache: RateRow,
    pub read_disk: RateRow,
    pub read_complete: RateRow,
    pub flushing: bool,
}

/// The line on the bytes.
pub open spec fn transfer_line(t: ProgressTexts, bar: Seq<char>) -> Seq<char> {
    tree_git::padded_right(t.phase_label@, 8) + " "@ + t.pct@ + " ["@ + bar + "] "@ + t.done@
        + " / "@ + t.planned@ + "  "@ + t.eta@ + " eta"@ + t.eta_debug@
}

fn transfer_text(t: &ProgressTexts, bar: &str) -> (r: String)
    ensures
        r@ == transfer_line(*t, bar@),
{
    let mut out = tree_git::pad_right(t.phase_label.as_str(), 8);
    out.push_str(" ");
    out.push_str(t.pct.as_str());
    out.push_str(" [");
    out.push_str(bar);
    out.push_str("] ");
    out.push_str(t.done.as_str());
    out.push_str(" / ");
    out.push_str(t.planned.as_str());
    out.push_str("  ");
    out.push_str(t.eta.as_str());
    out.push_str(" eta");
    out.push_str(t.eta_debug.as_str());
    out
}

/// The columns that the longer of the two lines takes without its bar.
pub open spec fn fixed_columns(t: ProgressTexts, files: Option<ObjectProgress>) -> int {
    let a = transfer_line(t, Seq::empty()).len() as int;
    match files {
        Some(o) => summary::larger(
            a,
            object_line(o.label@, o.pct@, Seq::empty(), o.completed, o.total).len() as int,
        ),
        None => a,
    }
}

/// The width of the bars: 34 columns, or as many fewer as the lines are too
/// long, but at least 8.
pub open spec fn fitted_bar(fixed: int, terminal_width: int) -> int {
    let over = fixed + 34 - line_columns(terminal_width);
    if over <= 0 {
        34
    } else {
        summary::larger(34 - over, 8)
    }
}

/// Finds the width of the bars.
pub fn fit_bar_width(t: &ProgressTexts, files: &Option<ObjectProgress>, terminal_width: usize) -> (r:
    usize)
    ensures
        r == fitted_bar(fixed_columns(*t, *files), terminal_width as int),
{
    let line = transfer_text(t, "");
    proof {
        reveal_strlit("");
        assert(""@ == Seq::<char>::empty());
    }
    let mut fixed: usize = text::to_chars(line.as_str()).len();
    if let Some(o) = files {
        let other = object_text(o, "");
        let n: usize = text::to_chars(other.as_str()).len();
        if n > fixed {
            fixed = n;
        }
    }
    let max: usize = max_columns(terminal_width);
    if fixed <= max && max - fixed >= 34 {
        return 34;
    }
    if fixed <= max && max - fixed > 8 {
        return max - fixed;
    }
    8
}

/// At the width that is found, no line is longer than a terminal takes, unless
/// the bars are as short as they get.
pub proof fn law_bars_fit(fixed: int, terminal_width: int)
    ensures
        8 <= fitted_bar(fixed, terminal_width) <= 34,
        fitted_bar(fixed, terminal_width) > 8 ==> fixed + fitted_bar(fixed, terminal_width)
            <= line_columns(terminal_width),
{
}

/// A row of the table.
pub open spec fn table_line(label: Seq<char>, bytes: Seq<char>, rate: Seq<char>) -> Seq<char> {
    tree_git::padded_right(label, 13) + "  "@ + tree_git::padded_left(bytes, 11) + "   "@
        + tree_git::padded_left(rate, 14)
}

fn table_text(label: &str, bytes: &str, rate: &str) -> (r: String)
    ensures
        r@ == table_line(label@, bytes@, rate@),
{
    let mut out = tree_git::pad_right(label, 13);
    out.push_str("  ");
    out.push_str(tree_git::pad_left(bytes, 11).as_str());
    out.push_str("   ");
    out.push_str(tree_git::pad_left(rate, 14).as_str());
    out
}

/// The rows of the table.
pub open spec fn table_lines(t: ProgressTexts) -> Seq<Seq<char>> {
    seq![
        table_line(
            t.phase_label@,
            t.transfer.bytes@,
            if t.complete {
                "Complete"@
            } else {
                t.transfer.rate@
            },
        ),
        table_line("WriteDisk"@, t.write_disk.bytes@, t.write_disk.rate@),
        table_line("WriteComplete"@, t.write_complete.bytes@, t.write_complete.rate@) + (
        if t.flushing {
            " flushing"@
        } else {
            ""@
        }),
        table_line("ReadCache"@, t.read_cache.bytes@, t.read_cache.rate@),
        table_line("ReadDisk"@, t.read_disk.bytes@, t.read_disk.rate@),
        table_line("ReadComplete"@, t.read_complete.bytes@, t.read_complete.rate@),
    ]
}

/// How much of the bars is filled.
#[derive(Clone, Copy, Debug, PartialEq, Eq, Structural)]
pub struct BarFill {
    pub transfer: Option<usize>,
    pub files: usize,
}

/// The lines of a frame before they are cut.
pub open spec fn frame_lines(
    t: ProgressTexts,
    files: Option<ObjectProgress>,
    fill: BarFill,
    bar_width: int,
) -> Seq<Seq<char>> {
    seq![transfer_line(t, bar_text(fill.transfer, bar_width))] + (match files {
        Some(o) => seq![
            object_line(
                o.label@,
                o.pct@,
                bar_text(Some(fill.files), bar_width),
                o.completed,
                o.total,
            ),
        ],
        None => Seq::empty(),
    }) + seq![Seq::empty()] + table_lines(t)
}

fn push_clamped(out: &mut Vec<String>, line: String, terminal_width: usize)
    ensures
        text::texts(final(out)@) == text::texts(old(out)@).push(
            clamped_line(line@, terminal_width as int),
        ),
{
    let cut = clamp_line_for_columns(line, terminal_width);
    let ghost before = text::texts(out@);
    out.push(cut);
    assert(text::texts(out@) == before.push(cut@));
}

/// Lays out the lines of a frame, each cut to what the terminal takes.
#[verifier::spinoff_prover]
#[verifier::rlimit(40)]
pub fn progress_lines(
    t: &ProgressTexts,
    files: &Option<ObjectProgress>,
    fill: BarFill,
    bar_width: usize,
    terminal_width: usize,
) -> (r: Vec<String>)
    ensures
        text::texts(r@) == frame_lines(*t, *files, fill, bar_width as int).map_values(
            |l: Seq<char>| clamped_line(l, terminal_width as int),
        ),
{
    let ghost plain = frame_lines(*t, *files, fill, bar_width as int);
    let mut out: Vec<String> = Vec::new();
    assert(text::texts(out@) == Seq::<Seq<char>>::empty());
    let bar = build_progress_bar(fill.transfer, bar_width);
    push_clamped(&mut out, transfer_text(t, bar.as_str()), terminal_width);
    if let Some(o) = files {
        push_clamped(
            &mut out,
            format_object_progress_line(o, fill.files, bar_width),
            terminal_width,
        );
    }
    push_clamped(&mut out, String::new(), terminal_width);
    let rate = if t.complete {
        "Complete"
    } else {
        t.transfer.rate.as_str()
    };
    push_clamped(
        &mut out,
        table_text(t.phase_label.as_str(), t.transfer.bytes.as_str(), rate),
        terminal_width,
    );
    push_clamped(
        &mut out,
        table_text("WriteDisk", t.write_disk.bytes.as_str(), t.write_disk.rate.as_str()),
        terminal_width,
    );
    let mut complete = table_text(
        "WriteComplete",
        t.write_complete.bytes.as_str(),
        t.write_complete.rate.as_str(),
    );
    complete.push_str(
        if t.flushing {
            " flushing"
        } else {
            ""
        },
    );
    push_clamped(&mut out, complete, terminal_width);
    push_clamped(
        &mut out,
        table_text("ReadCache", t.read_cache.bytes.as_str(), t.read_cache.rate.as_str()),
        terminal_width,
    );
    push_clamped(
        &mut out,
        table_text("ReadDisk", t.read_disk.bytes.as_str(), t.read_disk.rate.as_str()),
        terminal_width,
    );
    push_clamped(
        &mut out,
        table_text(
            "ReadComplete",
            t.read_complete.bytes.as_str(),
            t.read_complete.rate.as_str(),
        ),
        terminal_width,
    );
    assert(text::texts(out@) == plain.map_values(
        |l: Seq<char>| clamped_line(l, terminal_width as int),
    ));
    out
}

/// How many rows some columns take in a terminal: one at least.
pub open spec fn rows_for(columns: int, width: int) -> int {
    let c = if columns < 1 {
        1
    } else {
        columns
    };
    c / width + (if c % width == 0 {
        0int
    } else {
        1int
    })
}

/// The rows that some lines take.
pub open spec fn rows_of(lines: Seq<Seq<char>>, width: int) -> int
    decreases lines.len(),
{
    if lines.len() == 0 {
        0
    } else {
        rows_of(lines.drop_last(), width) + rows_for(lines.last().len() as int, width)
    }
}

/// The rows that a frame takes in a terminal of a width.
pub open spec fn frame_rows(frame: Seq<char>, terminal_width: int) -> int {
    rows_of(
        text::split_on(frame, '\n'),
        if terminal_width < 1 {
            1
        } else {
            terminal_width
        },
    )
}

proof fn lemma_rows_for(columns: int, width: int)
    requires
        width >= 1,
        columns >= 0,
    ensures
        0 <= rows_for(columns, width) <= summary::larger(columns, 1),
{
    let c = if columns < 1 {
        1
    } else {
        columns
    };
    vstd::arithmetic::div_mod::lemma_fundamental_div_mod(c, width);
    let q = c / width;
    let r = c % width;
    assert(0 <= q && 0 <= r) by (nonlinear_arith)
        requires
            c >= 1,
            width >= 1,
            q == c / width,
            r == c % width,
    ;
    assert(q <= width * q) by (nonlinear_arith)
        requires
            width >= 1,
            q >= 0,
    ;
}

/// The columns of some lines, each taken as one at least.
spec fn columns_of(lines: Seq<Seq<char>>) -> int
    decreases lines.len(),
{
    if lines.len() == 0 {
        0
    } else {
        columns_of(lines.drop_last()) + summary::larger(lines.last().len() as int, 1)
    }
}

proof fn lemma_split_columns(s: Seq<char>)
    ensures
        columns_of(text::split_on(s, '\n')) <= s.len() + 1,
    decreases s.len(),
{
    text::lemma_split_on_nonempty(s, '\n');
    let t = text::split_on(s, '\n');
    if s.len() == 0 {
        assert(t.drop_last() == Seq::<Seq<char>>::empty());
        assert(columns_of(t.drop_last()) == 0);
    } else {
        let before = text::split_on(s.drop_last(), '\n');
        lemma_split_columns(s.drop_last());
        text::lemma_split_on_nonempty(s.drop_last(), '\n');
        if s.last() == '\n' {
            assert(t.drop_last() == before);
        } else {
            assert(t.drop_last() == before.drop_last());
        }
    }
}

proof fn lemma_rows_bound(lines: Seq<Seq<char>>, width: int, n: int)
    requires
        width >= 1,
        0 <= n <= lines.len(),
    ensures
        0 <= rows_of(lines.take(n), width) <= columns_of(lines.take(n)) <= columns_of(lines),
    decreases lines.len(), n,
{
    let head = lines.take(n);
    if n < lines.len() {
        assert(lines.drop_last().take(n) == head);
        lemma_rows_bound(lines.drop_last(), width, n);
    } else {
        assert(head == lines);
        if n > 0 {
            assert(lines.drop_last().take(n - 1) == lines.drop_last());
            lemma_rows_bound(lines.drop_last(), width, n - 1);
            lemma_rows_for(lines.last().len() as int, width);
        }
    }
}

/// Counts the rows that a frame takes in a terminal of a width.
pub fn visual_rows_for_frame(frame: &str, terminal_width: usize) -> (r: usize)
    requires
        frame@.len() < usize::MAX,
    ensures
        r == frame_rows(frame@, terminal_width as int),
{
    let width: usize = if terminal_width < 1 {
        1
    } else {
        terminal_width
    };
    let lines = text::split(text::to_chars(frame).as_slice(), '\n');
    let ghost all = text::rows(lines@);
    proof {
        lemma_split_columns(frame@);
    }
    let mut total: usize = 0;
    let mut i: usize = 0;
    assert(all.take(0) == Seq::<Seq<char>>::empty());
    while i < lines.len()
        invariant
            i <= lines@.len(),
            width >= 1,
            all == text::rows(lines@),
            columns_of(all) <= usize::MAX,
            total == rows_of(all.take(i as int), width as int),
        decreases lines@.len() - i,
    {
        let ghost step = all.take(i + 1);
        assert(step.drop_last() == all.take(i as int));
        assert(step.last() == lines@[i as int]@);
        proof {
            lemma_rows_bound(all, width as int, i + 1);
            lemma_rows_for(step.last().len() as int, width as int);
        }
        let len: usize = lines[i].len();
        let columns: usize = if len < 1 {
            1
        } else {
            len
        };
        let whole: usize = columns / width;
        let rows: usize = if columns % width == 0 {
            whole
        } else {
            assert(rows_for(len as int, width as int) == whole + 1);
            whole + 1
        };
        assert(rows == rows_for(len as int, width as int));
        total = total + rows;
        i = i + 1;
    }
    assert(all.take(all.len() as int) == all);
    total
}

/// What is known of the frame on the screen.
pub struct FrameModel {
    pub active: bool,
    pub lines: int,
    pub finalized_lines: int,
    pub terminal_width: int,
    pub last_frame: Seq<char>,
}

/// The rows above the cursor that the last frame takes.
pub open spec fn previous_rows(s: FrameModel, terminal_width: int) -> int {
    if s.terminal_width != 0 && s.terminal_width != terminal_width {
        frame_rows(s.last_frame, s.terminal_width)
    } else if s.active {
        s.lines
    } else {
        s.finalized_lines
    }
}

/// How far the cursor goes up to redraw.
pub open spec fn rows_up(s: FrameModel, terminal_width: int) -> int {
    let n = previous_rows(s, terminal_width);
    if s.active && n > 0 {
        n - 1
    } else {
        n
    }
}

/// Moves the cursor up.
pub open spec fn cursor_up(n: int) -> Seq<char> {
    if n > 0 {
        "\x1b["@ + text::decimal(n as nat) + "A\r"@
    } else {
        Seq::empty()
    }
}

/// Draws the first `n` lines, each over what stands there. Where there is room
/// below, the cursor is moved, and else the screen goes up.
pub open spec fn drawn(lines: Seq<Seq<char>>, n: int, fresh: bool) -> Seq<char>
    decreases n,
{
    if n <= 0 {
        Seq::empty()
    } else {
        drawn(lines, n - 1, fresh) + "\r\x1b[2K"@ + lines[n - 1] + (if n < lines.len() {
            if fresh {
                "\n"@
            } else {
                "\x1b[1B\r"@
            }
        } else {
            Seq::empty()
        })
    }
}

/// Clears rows below.
pub open spec fn cleared(n: int) -> Seq<char>
    decreases n,
{
    if n <= 0 {
        Seq::empty()
    } else {
        cleared(n - 1) + "\x1b[1B\r\x1b[2K"@
    }
}

/// Draws a frame over the last one.
pub open spec fn redraw(
    s: FrameModel,
    lines: Seq<Seq<char>>,
    terminal_width: int,
    finalize: bool,
) -> Seq<char> {
    let up = rows_up(s, terminal_width);
    let below = previous_rows(s, terminal_width) - lines.len();
    cursor_up(up) + "\x1b[?7l"@ + drawn(lines, lines.len() as int, up == 0) + "\x1b[?7h"@ + cleared(
        below,
    ) + cursor_up(below) + (if finalize {
        "\n"@
    } else {
        Seq::empty()
    })
}

/// What is known once a frame is drawn.
pub open spec fn after_frame(
    lines: Seq<Seq<char>>,
    terminal_width: int,
    finalize: bool,
) -> FrameModel {
    FrameModel {
        active: !finalize,
        lines: if finalize {
            0
        } else {
            lines.len() as int
        },
        finalized_lines: if finalize {
            lines.len() as int
        } else {
            0
        },
        terminal_width,
        last_frame: text::joined(lines, "\n"@),
    }
}

/// What is known of an empty screen.
pub open spec fn no_frame() -> FrameModel {
    FrameModel {
        active: false,
        lines: 0,
        finalized_lines: 0,
        terminal_width: 0,
        last_frame: Seq::empty(),
    }
}

/// Clears the frame on the screen and goes below it.
pub open spec fn wiped(s: FrameModel) -> Seq<char> {
    cursor_up(s.lines - 1) + wiped_rows(s.lines, s.lines) + "\n"@
}

/// Clears the first `n` of some rows.
pub open spec fn wiped_rows(rows: int, n: int) -> Seq<char>
    decreases n,
{
    if n <= 0 {
        Seq::empty()
    } else {
        wiped_rows(rows, n - 1) + "\r\x1b[2K"@ + (if n < rows {
            "\x1b[1B\r"@
        } else {
            Seq::empty()
        })
    }
}

/// What is known of the frame on the screen.
pub struct ProgressRenderState {
    active: bool,
    lines: usize,
    finalized_lines: usize,
    terminal_width: usize,
    last_frame: String,
}

impl View for ProgressRenderState {
    type V = FrameModel;

    closed spec fn view(&self) -> FrameModel {
        FrameModel {
            active: self.active,
            lines: self.lines as int,
            finalized_lines: self.finalized_lines as int,
            terminal_width: self.terminal_width as int,
            last_frame: self.last_frame@,
        }
    }
}

fn push_up(out: &mut String, n: usize)
    ensures
        final(out)@ == old(out)@ + cursor_up(n as int),
{
    let ghost start = out@;
    if n > 0 {
        out.push_str("\x1b[");
        let d = text::from_chars(text::number(n as u64).as_slice());
        out.push_str(d.as_str());
        out.push_str("A\r");
    }
    assert(out@ == start + cursor_up(n as int));
}

fn push_lines(out: &mut String, lines: &Vec<String>, fresh: bool)
    ensures
        final(out)@ == old(out)@ + drawn(
            text::texts(lines@),
            lines@.len() as int,
            fresh,
        ),
{
    let ghost start = out@;
    let ghost all = text::texts(lines@);
    let mut i: usize = 0;
    assert(start + drawn(all, 0, fresh) == start);
    while i < lines.len()
        invariant
            i <= lines@.len(),
            all == text::texts(lines@),
            out@ == start + drawn(all, i as int, fresh),
        decreases lines@.len() - i,
    {
        out.push_str("\r\x1b[2K");
        out.push_str(lines[i].as_str());
        assert(all[i as int] == lines@[i as int]@);
        if i + 1 < lines.len() {
            out.push_str(
                if fresh {
                    "\n"
                } else {
                    "\x1b[1B\r"
                },
            );
        }
        assert(out@ == start + drawn(all, i + 1, fresh));
        i = i + 1;
    }
}

fn push_cleared(out: &mut String, n: usize)
    ensures
        final(out)@ == old(out)@ + cleared(n as int),
{
    let ghost start = out@;
    let mut i: usize = 0;
    assert(start + cleared(0) == start);
    while i < n
        invariant
            i <= n,
            out@ == start + cleared(i as int),
        decreases n - i,
    {
        out.push_str("\x1b[1B\r\x1b[2K");
        assert(out@ == start + cleared(i + 1));
        i = i + 1;
    }
}

fn join_lines(lines: &Vec<String>) -> (r: String)
    ensures
        r@ == text::joined(text::texts(lines@), "\n"@),
{
    let ghost all = text::texts(lines@);
    let mut out = String::new();
    let mut i: usize = 0;
    assert(all.take(0) == Seq::<Seq<char>>::empty());
    while i < lines.len()
        invariant
            i <= lines@.len(),
            all == text::texts(lines@),
            out@ == text::joined(all.take(i as int), "\n"@),
        decreases lines@.len() - i,
    {
        assert(all.take(i + 1).drop_last() == all.take(i as int));
        assert(all[i as int] == lines@[i as int]@);
        if i > 0 {
            out.push_str("\n");
        }
        out.push_str(lines[i].as_str());
        assert(out@ == text::joined(all.take(i + 1), "\n"@));
        i = i + 1;
    }
    assert(all.take(all.len() as int) == all);
    out
}

impl ProgressRenderState {
    /// The last frame is not longer than its rows can be counted.
    pub closed spec fn wf(&self) -> bool {
        self.last_frame@.len() < usize::MAX
    }

    /// Nothing on the screen.
    pub fn new() -> (r: ProgressRenderState)
        ensures
            r.wf(),
            r@ == no_frame(),
    {
        ProgressRenderState {
            active: false,
            lines: 0,
            finalized_lines: 0,
            terminal_width: 0,
            last_frame: String::new(),
        }
    }

    /// Draws a frame; tells what to write. Nothing, where it is on the screen
    /// already.
    pub fn render(&mut self, lines: &Vec<String>, terminal_width: usize, finalize_line: bool) -> (r:
        Option<String>)
        requires
            old(self).wf(),
            text::joined(text::texts(lines@), "\n"@).len() < usize::MAX,
        ensures
            final(self).wf(),
            ({
                let all = text::texts(lines@);
                let s = old(self)@;
                if s.active && !finalize_line && s.last_frame == text::joined(all, "\n"@) {
                    r is None && final(self)@ == s
                } else {
                    &&& r is Some
                    &&& r->0@ == redraw(s, all, terminal_width as int, finalize_line)
                    &&& final(self)@ == after_frame(all, terminal_width as int, finalize_line)
                }
            }),
    {
        let frame = join_lines(lines);
        if self.active && !finalize_line && text::equal(self.last_frame.as_str(), frame.as_str()) {
            return None;
        }
        let previous_row_count: usize = if self.terminal_width != 0 && self.terminal_width
            != terminal_width {
            visual_rows_for_frame(self.last_frame.as_str(), self.terminal_width)
        } else if self.active {
            self.lines
        } else {
            self.finalized_lines
        };
        let previous_lines: usize = if self.active && previous_row_count > 0 {
            previous_row_count - 1
        } else {
            previous_row_count
        };
        let mut out = String::new();
        push_up(&mut out, previous_lines);
        out.push_str("\x1b[?7l");
        push_lines(&mut out, lines, previous_lines == 0);
        out.push_str("\x1b[?7h");
        let below: usize = if previous_row_count > lines.len() {
            previous_row_count - lines.len()
        } else {
            0
        };
        push_cleared(&mut out, below);
        push_up(&mut out, below);
        if finalize_line {
            out.push_str("\n");
        }
        let ghost all = text::texts(lines@);
        assert(cleared(below as int) == cleared(
            previous_rows(old(self)@, terminal_width as int) - all.len(),
        ));
        assert(out@ == redraw(old(self)@, all, terminal_width as int, finalize_line));
        self.active = !finalize_line;
        self.lines = if finalize_line {
            0
        } else {
            lines.len()
        };
        self.finalized_lines = if finalize_line {
            lines.len()
        } else {
            0
        };
        self.terminal_width = terminal_width;
        self.last_frame = frame;
        Some(out)
    }

    /// Clears the frame, if one is being drawn; tells what to write.
    pub fn finish(&mut self) -> (r: Option<String>)
        requires
            old(self).wf(),
        ensures
            final(self).wf(),
            final(self)@ == no_frame(),
            r is Some <==> old(self)@.active,
            r is Some ==> r->0@ == wiped(old(self)@),
    {
        let rows: usize = self.lines;
        let mut out = String::new();
        let active = self.active;
        if active {
            if rows > 0 {
                push_up(&mut out, rows - 1);
            }
            assert(out@ == cursor_up(rows - 1));
            let ghost start = out@;
            let mut i: usize = 0;
            assert(start + wiped_rows(rows as int, 0) == start);
            while i < rows
                invariant
                    i <= rows,
                    out@ == start + wiped_rows(rows as int, i as int),
                decreases rows - i,
            {
                out.push_str("\r\x1b[2K");
                if i + 1 < rows {
                    out.push_str("\x1b[1B\r");
                }
                assert(out@ == start + wiped_rows(rows as int, i + 1));
                i = i + 1;
            }
            out.push_str("\n");
            assert(out@ == wiped(old(self)@));
        }
        self.active = false;
        self.lines = 0;
        self.finalized_lines = 0;
        self.terminal_width = 0;
        self.last_frame = String::new();
        if active {
            Some(out)
        } else {
            None
        }
    }
}

/// The line on one rate.
pub open spec fn rate_line(label: Seq<char>, speed: Seq<char>, ms: u64, total: bool) -> Seq<char> {
    tree_git::padded_right(label.push(':'), 24) + speed + "/s | Duration: "@ + hms_ms(ms) + (
    if total {
        " (total)"@
    } else {
        ""@
    })
}

/// Writes the line on one rate.
pub fn summary_rate_line(label: &str, speed: &str, ms: u64, total: bool) -> (r: String)
    ensures
        r@ == rate_line(label@, speed@, ms, total),
{
    let mut prefix = text::copy(label);
    prefix.push(':');
    let mut out = tree_git::pad_right(prefix.as_str(), 24);
    out.push_str(speed);
    out.push_str("/s | Duration: ");
    out.push_str(fmt_hms_ms(ms).as_str());
    out.push_str(
        if total {
            " (total)"
        } else {
            ""
        },
    );
    out
}

/// How long something took, and how fast it was.
pub struct Pace {
    pub ms: u64,
    pub speed: String,
}

/// A line on a duration.
pub open spec fn pace_line(label: Seq<char>, p: Pace) -> Seq<char> {
    tree_git::padded_right(label, 26) + hms_ms(p.ms) + "  ("@ + p.speed@ + "/s)"@
}

fn pace_text(label: &str, p: &Pace) -> (r: String)
    ensures
        r@ == pace_line(label@, *p),
{
    let mut out = tree_git::pad_right(label, 26);
    out.push_str(fmt_hms_ms(p.ms).as_str());
    out.push_str("  (");
    out.push_str(p.speed.as_str());
    out.push_str("/s)");
    out
}

/// How long a transfer took, part by part.
pub struct CopyDurations {
    pub transfer: Pace,
    pub flush: Pace,
    pub cleanup: Option<CleanupDurations>,
    pub total_ms: u64,
}

pub struct CleanupDurations {
    pub cleanup: Pace,
    pub flush: Pace,
}

/// The lines on how long a transfer took.
pub open spec fn duration_lines(d: CopyDurations) -> Seq<Seq<char>> {
    seq![
        pace_line("Transfer Duration:"@, d.transfer),
        pace_line("Transfer Flush Duration:"@, d.flush),
    ] + (match d.cleanup {
        Some(c) => seq![
            pace_line("Cleanup Duration:"@, c.cleanup),
            pace_line("Cleanup Flush Duration:"@, c.flush),
        ],
        None => Seq::empty(),
    }) + seq![tree_git::padded_right("Total Duration:"@, 26) + hms_ms(d.total_ms)]
}

/// Writes the lines on how long a transfer took.
pub fn copy_duration_summary(d: &CopyDurations) -> (r: Vec<String>)
    ensures
        text::texts(r@) == duration_lines(*d),
{
    let mut out: Vec<String> = Vec::new();
    out.push(pace_text("Transfer Duration:", &d.transfer));
    out.push(pace_text("Transfer Flush Duration:", &d.flush));
    if let Some(c) = &d.cleanup {
        out.push(pace_text("Cleanup Duration:", &c.cleanup));
        out.push(pace_text("Cleanup Flush Duration:", &c.flush));
    }
    let mut total = tree_git::pad_right("Total Duration:", 26);
    total.push_str(fmt_hms_ms(d.total_ms).as_str());
    out.push(total);
    assert(text::texts(out@) == duration_lines(*d));
    out
}

/// A number is padded with zeros before it only, as many as are missing.
pub proof fn law_padding_keeps_the_number(n: nat, width: int, i: int)
    ensures
        zero_padded(n, width).len() >= width,
        text::ends(zero_padded(n, width), text::decimal(n)),
        0 <= i < zero_padded(n, width).len() - text::decimal(n).len() ==> zero_padded(n, width)[i]
            == '0',
        text::decimal(n).len() >= width ==> zero_padded(n, width) == text::decimal(n),
{
    let d = text::decimal(n);
    let r = zero_padded(n, width);
    assert(r.skip(r.len() - d.len()) == d);
}

/// A duration is written by its hours, minutes, seconds and milliseconds.
pub proof fn law_durations_by_their_parts(hours: u64, minutes: u64, seconds: u64, rest: u64)
    requires
        hours < 1_000_000_000,
        minutes < 60 && seconds < 60 && rest < 1000,
    ensures
        hms_ms((((hours * 60 + minutes) * 60 + seconds) * 1000 + rest) as u64) == zero_padded(
            hours as nat,
            2,
        ) + ":"@ + zero_padded(minutes as nat, 2) + ":"@ + zero_padded(seconds as nat, 2) + "."@
            + zero_padded(rest as nat, 3),
{
    let h = hours as int;
    let m = minutes as int;
    let s = seconds as int;
    let f = rest as int;
    let ms = ((h * 60 + m) * 60 + s) * 1000 + f;
    lemma_parted(h, m * 60_000 + s * 1000 + f, 3_600_000);
    lemma_parted(m, s * 1000 + f, 60_000);
    lemma_parted(h * 60 + m, s * 1000 + f, 60_000);
    lemma_parted(s, f, 1000);
    lemma_parted((h * 60 + m) * 60 + s, f, 1000);
    assert(ms == h * 3_600_000 + (m * 60_000 + s * 1000 + f));
    assert(ms == (h * 60 + m) * 60_000 + (s * 1000 + f));
}

proof fn lemma_parted(q: int, r: int, d: int)
    requires
        0 <= r < d,
    ensures
        (q * d + r) / d == q,
        (q * d + r) % d == r,
{
    vstd::arithmetic::div_mod::lemma_fundamental_div_mod_converse(q * d + r, d, q, r);
}

/// A duration in tenths is written by its hours, minutes, seconds and tenths.
pub proof fn law_tenths_by_their_parts(hours: u64, minutes: u64, seconds: u64, tenths: u64)
    requires
        hours < 1_000_000_000,
        minutes < 60 && seconds < 60 && tenths < 10,
    ensures
        hms_tenths((((hours * 60 + minutes) * 60 + seconds) * 10 + tenths) as u64) == zero_padded(
            hours as nat,
            2,
        ) + ":"@ + zero_padded(minutes as nat, 2) + ":"@ + zero_padded(seconds as nat, 2) + "."@
            + text::decimal(tenths as nat),
{
    let h = hours as int;
    let m = minutes as int;
    let s = seconds as int;
    let f = tenths as int;
    let t = ((h * 60 + m) * 60 + s) * 10 + f;
    lemma_parted(h, m * 600 + s * 10 + f, 36_000);
    lemma_parted(m, s * 10 + f, 600);
    lemma_parted(h * 60 + m, s * 10 + f, 600);
    lemma_parted(s, f, 10);
    lemma_parted((h * 60 + m) * 60 + s, f, 10);
    assert(t == h * 36_000 + (m * 600 + s * 10 + f));
    assert(t == (h * 60 + m) * 600 + (s * 10 + f));
}

/// A bar is filled from the left, with a tip behind what is filled and blanks behind that; a
/// full bar has no tip, and one that is not known is blank.
pub proof fn law_bars_fill_from_the_left(filled: usize, width: int, i: int)
    requires
        0 <= i < bar_columns(width),
    ensures
        i < filled ==> bar_text(Some(filled), width)[i] == '=',
        i == filled ==> bar_text(Some(filled), width)[i] == '>',
        i > filled ==> bar_text(Some(filled), width)[i] == ' ',
        bar_text(None, width)[i] == ' ',
        width >= 8 ==> bar_columns(width) == width,
        width < 8 ==> bar_columns(width) == 8,
{
    reveal_strlit(">");
}

/// A line is cut only where it is too long for the terminal, and then at its end.
pub proof fn law_lines_are_cut_at_their_end(line: Seq<char>, terminal_width: int)
    ensures
        clamped_line(line, terminal_width).len() <= line_columns(terminal_width),
        text::begins(line, clamped_line(line, terminal_width)),
        line.len() <= line_columns(terminal_width) ==> clamped_line(line, terminal_width) == line,
        line.len() > line_columns(terminal_width) ==> clamped_line(line, terminal_width).len()
            == line_columns(terminal_width),
        terminal_width > 40 ==> line_columns(terminal_width) == terminal_width - 1,
        terminal_width <= 41 ==> line_columns(terminal_width) == 40,
{
    assert(line.take(line.len() as int) == line);
}

/// No more objects are shown as done than there are.
pub proof fn law_no_more_than_all_are_done(completed: u64, total: u64)
    ensures
        lesser(completed, total) <= total,
        completed <= total ==> lesser(completed, total) == completed,
        completed > total ==> lesser(completed, total) == total,
{
}

/// The rows that some columns take are the fewest that hold them, one at least.
pub proof fn law_rows_hold_their_columns(columns: int, width: int)
    requires
        width >= 1,
    ensures
        rows_for(columns, width) >= 1,
        columns <= rows_for(columns, width) * width,
        columns >= 1 ==> (rows_for(columns, width) - 1) * width < columns,
        columns < 1 ==> rows_for(columns, width) == 1,
{
    let c = if columns < 1 {
        1
    } else {
        columns
    };
    let q = c / width;
    let m = c % width;
    assert(c == q * width + m && 0 <= m < width) by (nonlinear_arith)
        requires
            width >= 1,
            q == c / width,
            m == c % width,
    ;
    assert((q + 1) * width == q * width + width) by (nonlinear_arith);
    assert((q - 1) * width == q * width - width) by (nonlinear_arith);
    if q <= 0 {
        assert(q * width <= 0) by (nonlinear_arith)
            requires
                q <= 0,
                width >= 1,
        ;
    }
    if columns < 1 {
        if width == 1 {
            assert(q * 1 == q);
        } else if q >= 1 {
            assert(q * width >= width) by (nonlinear_arith)
                requires
                    q >= 1,
                    width >= 1,
            ;
        }
    }
}

/// A frame that is being drawn is drawn over from its first row, one that was finished from
/// the row above it; where the terminal has changed, the rows go by its former width.
pub proof fn law_frames_are_drawn_over(s: FrameModel, terminal_width: int)
    ensures
        s.terminal_width == terminal_width && s.active && s.lines > 0 ==> rows_up(s, terminal_width)
            == s.lines - 1,
        s.terminal_width == terminal_width && !s.active ==> rows_up(s, terminal_width)
            == s.finalized_lines,
        s.terminal_width != 0 && s.terminal_width != terminal_width && !s.active ==> rows_up(
            s,
            terminal_width,
        ) == frame_rows(s.last_frame, s.terminal_width),
        rows_up(no_frame(), terminal_width) == 0,
{
}

/// What is kept of a frame says how many rows are to be drawn over, as long as it is drawn or
/// once it is finished.
pub proof fn law_frames_are_remembered(
    lines: Seq<Seq<char>>,
    terminal_width: int,
    finalize: bool,
)
    requires
        lines.len() > 0,
    ensures
        ({
            let s = after_frame(lines, terminal_width, finalize);
            &&& s.active <==> !finalize
            &&& previous_rows(s, terminal_width) == lines.len()
            &&& s.last_frame == text::joined(lines, "\n"@)
            &&& s.terminal_width == terminal_width
        }),
{
}

/// The cursor goes up by the rows that are given, and not at all for none.
pub proof fn law_the_cursor_goes_up(n: int)
    ensures
        n <= 0 ==> cursor_up(n).len() == 0,
        n > 0 ==> cursor_up(n) == "\x1b["@ + text::decimal(n as nat) + "A\r"@,
{
}

/// A line on objects never tells of more than there are.
pub proof fn law_no_more_is_done_than_there_is(
    label: Seq<char>,
    pct: Seq<char>,
    bar: Seq<char>,
    completed: u64,
    total: u64,
)
    ensures
        completed >= total ==> object_line(label, pct, bar, completed, total) == object_line(
            label,
            pct,
            bar,
            total,
            total,
        ),
        completed <= total ==> text::ends(
            object_line(label, pct, bar, completed, total),
            summary::number_text(completed) + " / "@ + summary::number_text(total),
        ),
{
    if completed <= total {
        let line = object_line(label, pct, bar, completed, total);
        let tail = summary::number_text(completed) + " / "@ + summary::number_text(total);
        assert(line.skip(line.len() - tail.len()) == tail);
    }
}

/// The rows of the table stand in columns of their own, where what they hold fits.
pub proof fn law_rows_of_the_table_line_up(label: Seq<char>, bytes: Seq<char>, rate: Seq<char>)
    requires
        label.len() <= 13,
        bytes.len() <= 11,
        rate.len() <= 14,
    ensures
        table_line(label, bytes, rate).len() == 43,
        text::begins(table_line(label, bytes, rate), label),
        text::ends(table_line(label, bytes, rate).take(26), bytes),
        text::ends(table_line(label, bytes, rate), rate),
{
    reveal_strlit("  ");
    reveal_strlit("   ");
    let t = table_line(label, bytes, rate);
    assert(t.len() == 43);
    assert(t.take(label.len() as int) == label);
    assert(t.take(26).skip(26 - bytes.len()) == bytes);
    assert(t.skip(43 - rate.len()) == rate);
}

/// A frame has a line on the bytes, one on the objects, if they are counted, and the table.
pub proof fn law_lines_of_a_frame(
    t: ProgressTexts,
    files: Option<ObjectProgress>,
    fill: BarFill,
    bar_width: int,
)
    ensures
        ({
            let lines = frame_lines(t, files, fill, bar_width);
            &&& lines.len() == 8 + (if files is Some { 1int } else { 0int })
            &&& lines[0] == transfer_line(t, bar_text(fill.transfer, bar_width))
            &&& lines.skip(lines.len() - 6) == table_lines(t)
        }),
{
    let lines = frame_lines(t, files, fill, bar_width);
    assert(lines.skip(lines.len() - 6) == table_lines(t));
}

/// Drawing the lines of a frame writes each of them over what stood there.
pub proof fn law_each_line_is_drawn(lines: Seq<Seq<char>>, fresh: bool)
    requires
        lines.len() > 0,
    ensures
        ({
            let n = lines.len() as int;
            text::ends(drawn(lines, n, fresh), "\r\x1b[2K"@ + lines[n - 1])
                && drawn(lines, n, fresh).len() == drawn(lines, n - 1, fresh).len() + 5
                + lines[n - 1].len()
        }),
{
    reveal_strlit("\r\x1b[2K");
    let n = lines.len() as int;
    let t = drawn(lines, n, fresh);
    let tail = "\r\x1b[2K"@ + lines[n - 1];
    assert(t == drawn(lines, n - 1, fresh) + tail);
    assert(t.skip(t.len() - tail.len()) == tail);
}

/// The first frame is written line below line where the cursor stands; one over another goes
/// up to where that begins, and moves the cursor instead of ending lines.
pub proof fn law_a_frame_goes_over_the_last_one(
    s: FrameModel,
    lines: Seq<Seq<char>>,
    terminal_width: int,
)
    ensures
        ({
            let up = rows_up(s, terminal_width);
            let r = redraw(s, lines, terminal_width, false);
            let n = lines.len() as int;
            &&& !s.active && s.finalized_lines == 0 && s.terminal_width == terminal_width
                ==> text::begins(r, "\x1b[?7l"@ + drawn(lines, n, true))
            &&& up > 0 ==> text::begins(
                r,
                "\x1b["@ + text::decimal(up as nat) + "A\r"@ + "\x1b[?7l"@ + drawn(lines, n, false),
            )
            &&& redraw(s, lines, terminal_width, true) == r + "\n"@
        }),
{
    let up = rows_up(s, terminal_width);
    let r = redraw(s, lines, terminal_width, false);
    let n = lines.len() as int;
    let a = "\x1b[?7l"@ + drawn(lines, n, true);
    let b = "\x1b["@ + text::decimal(up as nat) + "A\r"@ + "\x1b[?7l"@ + drawn(lines, n, false);
    if up == 0 {
        assert(r.take(a.len() as int) == a);
    }
    if up > 0 {
        assert(r.take(b.len() as int) == b);
    }
    assert(redraw(s, lines, terminal_width, true) == r + "\n"@);
}

} // verus!
