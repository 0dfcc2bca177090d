//! Counts tables and the lines around them.

use crate::domain::{FileRelationBreakdown, TransferMode};
use crate::execution::CountRow;
use crate::paths;
use crate::rsync;
use crate::text;
use crate::tree_git;
use vstd::prelude::*;

verus! {

/// Digits in groups of three, from the right.
pub open spec fn grouped(digits: Seq<char>) -> Seq<char>
    decreases digits.len(),
{
    if digits.len() <= 3 {
        digits
    } else {
        grouped(digits.take(digits.len() - 3)).push(',') + digits.skip(digits.len() - 3)
    }
}

/// A number in groups of three digits.
pub open spec fn number_text(n: u64) -> Seq<char> {
    grouped(text::decimal(n as nat))
}

fn group(digits: &[char]) -> (r: Vec<char>)
    ensures
        r@ == grouped(digits@),
    decreases digits@.len(),
{
    let n: usize = digits.len();
    if n <= 3 {
        let all = text::part(digits, 0, n);
        assert(all@ == digits@);
        return all;
    }
    let head = text::part(digits, 0, n - 3);
    let tail = text::part(digits, n - 3, n);
    assert(head@ == digits@.take(n - 3));
    assert(tail@ == digits@.skip(n - 3));
    let mut out = group(head.as_slice());
    out.push(',');
    text::extend(&mut out, tail.as_slice());
    out
}

/// Writes a number in groups of three digits.
pub fn format_number(n: u64) -> (r: String)
    ensures
        r@ == number_text(n),
{
    text::from_chars(group(text::number(n).as_slice()).as_slice())
}

/// The groups of a number hold its digits and nothing else.
pub proof fn law_grouping_keeps_the_digits(digits: Seq<char>)
    requires
        text::all_digits(digits),
    ensures
        rsync::without_commas(grouped(digits)) == digits,
    decreases digits.len(),
{
    if digits.len() <= 3 {
        lemma_no_commas(digits);
    } else {
        let head = digits.take(digits.len() - 3);
        let tail = digits.skip(digits.len() - 3);
        assert forall|i: int| 0 <= i < head.len() implies text::is_digit(#[trigger] head[i]) by {
            assert(head[i] == digits[i]);
        }
        assert forall|i: int| 0 <= i < tail.len() implies text::is_digit(#[trigger] tail[i]) by {
            assert(tail[i] == digits[digits.len() - 3 + i]);
        }
        law_grouping_keeps_the_digits(head);
        lemma_no_commas(tail);
        let lead = grouped(head).push(',');
        assert(lead.drop_last() == grouped(head));
        lemma_without_commas_joins(lead, tail);
        assert(head + tail == digits);
    }
}

proof fn lemma_no_commas(s: Seq<char>)
    requires
        text::all_digits(s),
    ensures
        rsync::without_commas(s) == s,
    decreases s.len(),
{
    if s.len() > 0 {
        assert(text::is_digit(s[s.len() - 1]));
        assert forall|i: int| 0 <= i < s.drop_last().len() implies text::is_digit(
            #[trigger] s.drop_last()[i],
        ) by {
            assert(s.drop_last()[i] == s[i]);
        }
        lemma_no_commas(s.drop_last());
        assert(s.drop_last().push(s.last()) == s);
    }
}

proof fn lemma_without_commas_joins(a: Seq<char>, b: Seq<char>)
    ensures
        rsync::without_commas(a + b) == rsync::without_commas(a) + rsync::without_commas(b),
    decreases b.len(),
{
    if b.len() == 0 {
        assert(a + b == a);
        assert(rsync::without_commas(a) + b == rsync::without_commas(a));
    } else {
        lemma_without_commas_joins(a, b.drop_last());
        assert((a + b).drop_last() == a + b.drop_last());
        assert((a + b).last() == b.last());
        assert(rsync::without_commas(a + b) == rsync::without_commas(a) + rsync::without_commas(b));
    }
}

pub open spec fn larger(a: int, b: int) -> int {
    if a < b {
        b
    } else {
        a
    }
}

/// The width of the widest number, at least one.
pub open spec fn widest(values: Seq<u64>) -> int
    decreases values.len(),
{
    if values.len() == 0 {
        1
    } else {
        larger(widest(values.drop_last()), number_text(values.last()).len() as int)
    }
}

/// The width of a column.
pub open spec fn column_width(label: Seq<char>, values: Seq<u64>) -> int {
    larger(widest(values), label.len() as int)
}

/// Finds the width of a column.
pub fn count_col_width(label: &str, values: &[u64]) -> (r: usize)
    ensures
        r == column_width(label@, values@),
{
    let mut width: usize = 1;
    let mut i: usize = 0;
    assert(values@.take(0) == Seq::<u64>::empty());
    while i < values.len()
        invariant
            i <= values@.len(),
            width == widest(values@.take(i as int)),
        decreases values@.len() - i,
    {
        assert(values@.take(i + 1).drop_last() == values@.take(i as int));
        let n: usize = group(text::number(values[i]).as_slice()).len();
        if width < n {
            width = n;
        }
        i = i + 1;
    }
    assert(values@.take(values@.len() as int) == values@);
    let label: usize = text::to_chars(label).len();
    if width < label {
        label
    } else {
        width
    }
}

/// The cells of a row behind its first.
pub open spec fn cells_text(cells: Seq<Seq<char>>, widths: Seq<int>) -> Seq<char>
    decreases cells.len(),
{
    if cells.len() == 0 {
        Seq::empty()
    } else {
        cells_text(cells.drop_last(), widths) + " | "@ + tree_git::padded_left(
            cells.last(),
            widths[cells.len() - 1],
        )
    }
}

/// A row of a table.
pub open spec fn row_text(first: Seq<char>, cells: Seq<Seq<char>>, widths: Seq<int>) -> Seq<char> {
    tree_git::padded_right(first, 5) + cells_text(cells, widths)
}

/// Widths as numbers.
pub open spec fn ints(v: Seq<usize>) -> Seq<int> {
    v.map_values(|n: usize| n as int)
}

/// Writes a row of a table.
pub fn table_row(first: &str, cells: &Vec<String>, widths: &Vec<usize>) -> (r: String)
    requires
        cells@.len() <= widths@.len(),
    ensures
        r@ == row_text(first@, text::texts(cells@), ints(widths@)),
{
    let ghost all = text::texts(cells@);
    let mut out = tree_git::pad_right(first, 5);
    let ghost lead = out@;
    let mut i: usize = 0;
    assert(all.take(0) == Seq::<Seq<char>>::empty());
    assert(lead + cells_text(all.take(0), ints(widths@)) == lead);
    while i < cells.len()
        invariant
            i <= cells@.len(),
            cells@.len() <= widths@.len(),
            all == text::texts(cells@),
            out@ == lead + cells_text(all.take(i as int), ints(widths@)),
        decreases cells@.len() - i,
    {
        let ghost step = all.take(i + 1);
        assert(step.drop_last() == all.take(i as int));
        assert(step.last() == cells@[i as int]@);
        assert(ints(widths@)[i as int] == widths@[i as int]);
        out.push_str(" | ");
        let cell = tree_git::pad_left(cells[i].as_str(), widths[i]);
        out.push_str(cell.as_str());
        assert(out@ == lead + cells_text(step, ints(widths@)));
        i = i + 1;
    }
    assert(all.take(all.len() as int) == all);
    out
}

/// The numbers of a row.
pub open spec fn row_numbers(r: CountRow) -> Seq<u64> {
    seq![
        r.added,
        r.modified,
        r.identical,
        r.uncollided,
        r.deleted_source,
        r.deleted_destination,
    ]
}

/// The numbers of a row in the two tables of a preview, the files' first.
pub open spec fn preview_numbers(
    r: CountRow,
    b: FileRelationBreakdown,
) -> (Seq<u64>, Seq<u64>) {
    (
        seq![
            r.added,
            r.uncollided,
            b.same_time_same_size,
            b.same_time_source_larger,
            b.same_time_source_smaller,
            b.same_size_source_newer,
        ],
        seq![
            b.same_size_source_older,
            b.source_older_smaller,
            b.source_older_larger,
            b.source_newer_smaller,
            b.source_newer_larger,
            r.deleted_source,
            r.deleted_destination,
        ],
    )
}

/// The rows that are there, the files' before the directories'.
pub open spec fn present(files: Option<Seq<u64>>, dirs: Option<Seq<u64>>) -> Seq<Seq<u64>> {
    match (files, dirs) {
        (Some(f), Some(d)) => seq![f, d],
        (Some(f), None) => seq![f],
        (None, Some(d)) => seq![d],
        (None, None) => Seq::empty(),
    }
}

/// The values of column `i`.
pub open spec fn column(rows: Seq<Seq<u64>>, i: int) -> Seq<u64> {
    Seq::new(rows.len(), |k: int| rows[k][i])
}

/// The widths of the columns of a table.
pub open spec fn widths_of(labels: Seq<Seq<char>>, rows: Seq<Seq<u64>>) -> Seq<int> {
    Seq::new(labels.len(), |i: int| column_width(labels[i], column(rows, i)))
}

pub open spec fn numbers_text(numbers: Seq<u64>) -> Seq<Seq<char>> {
    numbers.map_values(|n: u64| number_text(n))
}

/// The lines of a table: labels, files, directories. The widths go by
/// `measured`.
pub open spec fn table_lines_of(
    labels: Seq<Seq<char>>,
    files: Option<Seq<u64>>,
    dirs: Option<Seq<u64>>,
    measured: Seq<Seq<u64>>,
) -> Seq<Seq<char>> {
    let widths = widths_of(labels, measured);
    seq![row_text("Type"@, labels, widths)] + (match files {
        Some(f) => seq![row_text("Files"@, numbers_text(f), widths)],
        None => Seq::empty(),
    }) + (match dirs {
        Some(d) => seq![row_text("Dirs"@, numbers_text(d), widths)],
        None => Seq::empty(),
    })
}

/// The labels of the counts table.
pub open spec fn count_labels() -> Seq<Seq<char>> {
    seq!["New"@, "Mod"@, "Ident"@, "Uncol"@, "Del(src)"@, "Del(dest)"@]
}

pub open spec fn numbers_of(r: Option<CountRow>) -> Option<Seq<u64>> {
    match r {
        Some(r) => Some(row_numbers(r)),
        None => None,
    }
}

fn write_numbers(numbers: &Vec<u64>) -> (r: Vec<String>)
    ensures
        text::texts(r@) == numbers_text(numbers@),
{
    let mut out: Vec<String> = Vec::new();
    let mut i: usize = 0;
    while i < numbers.len()
        invariant
            i <= numbers@.len(),
            text::texts(out@) == numbers_text(numbers@.take(i as int)),
        decreases numbers@.len() - i,
    {
        let ghost before = out@;
        let s = format_number(numbers[i]);
        out.push(s);
        assert(text::texts(out@) == text::texts(before).push(s@));
        assert(numbers_text(numbers@.take(i + 1)) == numbers_text(numbers@.take(i as int)).push(
            s@,
        ));
        i = i + 1;
    }
    assert(numbers@.take(numbers@.len() as int) == numbers@);
    out
}

/// Rows of numbers as sequences.
pub open spec fn number_rows(v: Seq<Vec<u64>>) -> Seq<Seq<u64>> {
    v.map_values(|r: Vec<u64>| r@)
}

fn measure(labels: &Vec<String>, rows: &Vec<Vec<u64>>) -> (r: Vec<usize>)
    requires
        forall|k: int| 0 <= k < rows@.len() ==> (#[trigger] rows@[k])@.len() == labels@.len(),
    ensures
        ints(r@) == widths_of(text::texts(labels@), number_rows(rows@)),
        r@.len() == labels@.len(),
{
    let ghost names = text::texts(labels@);
    let ghost all = number_rows(rows@);
    let mut out: Vec<usize> = Vec::new();
    let mut i: usize = 0;
    while i < labels.len()
        invariant
            i <= labels@.len(),
            out@.len() == i,
            names == text::texts(labels@),
            all == number_rows(rows@),
            forall|k: int| 0 <= k < rows@.len() ==> (#[trigger] rows@[k])@.len() == labels@.len(),
            forall|k: int|
                0 <= k < i ==> #[trigger] out@[k] == column_width(names[k], column(all, k)),
        decreases labels@.len() - i,
    {
        let mut values: Vec<u64> = Vec::new();
        let mut j: usize = 0;
        while j < rows.len()
            invariant
                i < labels@.len(),
                j <= rows@.len(),
                all == number_rows(rows@),
                forall|k: int|
                    0 <= k < rows@.len() ==> (#[trigger] rows@[k])@.len() == labels@.len(),
                values@ == column(all, i as int).take(j as int),
            decreases rows@.len() - j,
        {
            assert(rows@[j as int]@.len() == labels@.len());
            values.push(rows[j][i]);
            assert(all[j as int] == rows@[j as int]@);
            assert(values@ == column(all, i as int).take(j + 1));
            j = j + 1;
        }
        assert(column(all, i as int).take(rows@.len() as int) == column(all, i as int));
        out.push(count_col_width(labels[i].as_str(), values.as_slice()));
        assert(names[i as int] == labels@[i as int]@);
        i = i + 1;
    }
    assert(ints(out@) == widths_of(names, all));
    out
}

pub open spec fn opt_numbers(v: Option<Vec<u64>>) -> Option<Seq<u64>> {
    match v {
        Some(v) => Some(v@),
        None => None,
    }
}

fn write_table(
    labels: &Vec<String>,
    files: &Option<Vec<u64>>,
    dirs: &Option<Vec<u64>>,
    measured: &Vec<Vec<u64>>,
) -> (r: Vec<String>)
    requires
        forall|k: int| 0 <= k < measured@.len() ==> (#[trigger] measured@[k])@.len()
            == labels@.len(),
        files is Some ==> files->0@.len() == labels@.len(),
        dirs is Some ==> dirs->0@.len() == labels@.len(),
    ensures
        text::texts(r@) == table_lines_of(
            text::texts(labels@),
            opt_numbers(*files),
            opt_numbers(*dirs),
            number_rows(measured@),
        ),
{
    let widths = measure(labels, measured);
    let mut out: Vec<String> = Vec::new();
    let head = table_row("Type", labels, &widths);
    out.push(head);
    assert(text::texts(out@) == seq![head@]);
    if let Some(f) = files {
        let cells = write_numbers(f);
        assert(text::texts(cells@).len() == cells@.len());
        let line = table_row("Files", &cells, &widths);
        let ghost before = out@;
        out.push(line);
        assert(text::texts(out@) == text::texts(before).push(line@));
    }
    if let Some(d) = dirs {
        let cells = write_numbers(d);
        assert(text::texts(cells@).len() == cells@.len());
        let line = table_row("Dirs", &cells, &widths);
        let ghost before = out@;
        out.push(line);
        assert(text::texts(out@) == text::texts(before).push(line@));
    }
    assert(text::texts(out@) == table_lines_of(
        text::texts(labels@),
        opt_numbers(*files),
        opt_numbers(*dirs),
        number_rows(measured@),
    ));
    out
}

fn numbers(r: &Option<CountRow>) -> (v: Option<Vec<u64>>)
    ensures
        opt_numbers(v) == numbers_of(*r),
        v is Some ==> v->0@.len() == 6,
{
    match r {
        Some(r) => {
            let mut v: Vec<u64> = Vec::new();
            v.push(r.added);
            v.push(r.modified);
            v.push(r.identical);
            v.push(r.uncollided);
            v.push(r.deleted_source);
            v.push(r.deleted_destination);
            assert(v@ == row_numbers(*r));
            Some(v)
        },
        None => None,
    }
}

fn copy_numbers(v: &Vec<u64>) -> (r: Vec<u64>)
    ensures
        r@ == v@,
{
    let mut out: Vec<u64> = Vec::new();
    let mut i: usize = 0;
    while i < v.len()
        invariant
            i <= v@.len(),
            out@ == v@.take(i as int),
        decreases v@.len() - i,
    {
        out.push(v[i]);
        assert(out@ == v@.take(i + 1));
        i = i + 1;
    }
    assert(v@.take(v@.len() as int) == v@);
    out
}

fn gather(files: &Option<Vec<u64>>, dirs: &Option<Vec<u64>>) -> (r: Vec<Vec<u64>>)
    ensures
        number_rows(r@) == present(opt_numbers(*files), opt_numbers(*dirs)),
{
    let mut out: Vec<Vec<u64>> = Vec::new();
    if let Some(f) = files {
        out.push(copy_numbers(f));
    }
    if let Some(d) = dirs {
        out.push(copy_numbers(d));
    }
    assert(number_rows(out@) == present(opt_numbers(*files), opt_numbers(*dirs)));
    out
}

proof fn lemma_row_lengths(v: Seq<Vec<u64>>, rows: Seq<Seq<u64>>, n: nat)
    requires
        number_rows(v) == rows,
        forall|k: int| 0 <= k < rows.len() ==> (#[trigger] rows[k]).len() == n,
    ensures
        forall|k: int| 0 <= k < v.len() ==> (#[trigger] v[k])@.len() == n,
{
    assert forall|k: int| 0 <= k < v.len() implies (#[trigger] v[k])@.len() == n by {
        assert(rows[k] == v[k]@);
    }
}

/// The lines of the counts table.
pub open spec fn counts_table_of(files: Option<CountRow>, dirs: Option<CountRow>) -> Seq<Seq<char>> {
    table_lines_of(
        count_labels(),
        numbers_of(files),
        numbers_of(dirs),
        present(numbers_of(files), numbers_of(dirs)),
    )
}

/// Writes the counts table.
pub fn counts_table(file_row: Option<CountRow>, dir_row: Option<CountRow>) -> (r: Vec<String>)
    ensures
        text::texts(r@) == counts_table_of(file_row, dir_row),
{
    let mut labels: Vec<String> = Vec::new();
    text::push_text(&mut labels, "New");
    text::push_text(&mut labels, "Mod");
    text::push_text(&mut labels, "Ident");
    text::push_text(&mut labels, "Uncol");
    text::push_text(&mut labels, "Del(src)");
    text::push_text(&mut labels, "Del(dest)");
    assert(text::texts(labels@) == count_labels());
    assert(labels@.len() == text::texts(labels@).len());
    let files = numbers(&file_row);
    let dirs = numbers(&dir_row);
    let rows = gather(&files, &dirs);
    proof {
        lemma_row_lengths(rows@, present(opt_numbers(files), opt_numbers(dirs)), 6);
    }
    write_table(&labels, &files, &dirs, &rows)
}

/// The labels of the two tables of a preview.
pub open spec fn preview_labels() -> (Seq<Seq<char>>, Seq<Seq<char>>) {
    (
        seq!["New"@, "Uncol"@, "Time=Size="@, "Time=Size+"@, "Time=Size-"@, "Time+Size="@],
        seq![
            "Time-Size="@,
            "Time-Size-"@,
            "Time-Size+"@,
            "Time+Size-"@,
            "Time+Size+"@,
            "Del(src)"@,
            "Del(dest)"@,
        ],
    )
}

/// No relations counted.
pub open spec fn no_relations() -> FileRelationBreakdown {
    crate::domain::empty_breakdown()
}

/// The first part of a row's preview numbers.
pub open spec fn first_numbers(r: Option<CountRow>, b: FileRelationBreakdown) -> Option<Seq<u64>> {
    match r {
        Some(r) => Some(preview_numbers(r, b).0),
        None => None,
    }
}

/// The second part of a row's preview numbers.
pub open spec fn second_numbers(r: Option<CountRow>, b: FileRelationBreakdown) -> Option<Seq<u64>> {
    match r {
        Some(r) => Some(preview_numbers(r, b).1),
        None => None,
    }
}

/// A row without numbers of its own, by which the relations are measured.
pub open spec fn blank_row() -> CountRow {
    CountRow {
        added: 0,
        modified: 0,
        identical: 0,
        uncollided: 0,
        deleted_source: 0,
        deleted_destination: 0,
    }
}

/// The lines of the two tables of a preview. Directories have no relations;
/// the columns are wide enough for those of the files, shown or not.
pub open spec fn preview_tables_of(
    files: Option<CountRow>,
    dirs: Option<CountRow>,
    b: FileRelationBreakdown,
) -> Seq<Seq<char>> {
    let blank = blank_row();
    let f = (first_numbers(files, b), second_numbers(files, b));
    let d = (first_numbers(dirs, no_relations()), second_numbers(dirs, no_relations()));
    let m = preview_numbers(blank, b);
    table_lines_of(preview_labels().0, f.0, d.0, present(f.0, d.0).push(m.0)) + seq![
        Seq::<char>::empty(),
    ] + table_lines_of(preview_labels().1, f.1, d.1, present(f.1, d.1).push(m.1)) + seq![
        Seq::<char>::empty(),
    ]
}

fn split_numbers(r: CountRow, b: FileRelationBreakdown) -> (v: (Vec<u64>, Vec<u64>))
    ensures
        (v.0@, v.1@) == preview_numbers(r, b),
{
    let mut first: Vec<u64> = Vec::new();
    first.push(r.added);
    first.push(r.uncollided);
    first.push(b.same_time_same_size);
    first.push(b.same_time_source_larger);
    first.push(b.same_time_source_smaller);
    first.push(b.same_size_source_newer);
    let mut second: Vec<u64> = Vec::new();
    second.push(b.same_size_source_older);
    second.push(b.source_older_smaller);
    second.push(b.source_older_larger);
    second.push(b.source_newer_smaller);
    second.push(b.source_newer_larger);
    second.push(r.deleted_source);
    second.push(r.deleted_destination);
    assert(first@ == preview_numbers(r, b).0);
    assert(second@ == preview_numbers(r, b).1);
    (first, second)
}

fn split_row(r: Option<CountRow>, b: FileRelationBreakdown) -> (v: (
    Option<Vec<u64>>,
    Option<Vec<u64>>,
))
    ensures
        opt_numbers(v.0) == first_numbers(r, b),
        opt_numbers(v.1) == second_numbers(r, b),
{
    match r {
        Some(r) => {
            let (a, b) = split_numbers(r, b);
            (Some(a), Some(b))
        },
        None => (None, None),
    }
}

/// Writes the two tables of a preview.
pub fn preview_counts_table(
    file_row: Option<CountRow>,
    dir_row: Option<CountRow>,
    breakdown: FileRelationBreakdown,
) -> (r: Vec<String>)
    ensures
        text::texts(r@) == preview_tables_of(file_row, dir_row, breakdown),
{
    let mut labels: Vec<String> = Vec::new();
    text::push_text(&mut labels, "New");
    text::push_text(&mut labels, "Uncol");
    text::push_text(&mut labels, "Time=Size=");
    text::push_text(&mut labels, "Time=Size+");
    text::push_text(&mut labels, "Time=Size-");
    text::push_text(&mut labels, "Time+Size=");
    assert(text::texts(labels@) == preview_labels().0);
    assert(labels@.len() == text::texts(labels@).len());
    let mut more: Vec<String> = Vec::new();
    text::push_text(&mut more, "Time-Size=");
    text::push_text(&mut more, "Time-Size-");
    text::push_text(&mut more, "Time-Size+");
    text::push_text(&mut more, "Time+Size-");
    text::push_text(&mut more, "Time+Size+");
    text::push_text(&mut more, "Del(src)");
    text::push_text(&mut more, "Del(dest)");
    assert(text::texts(more@) == preview_labels().1);
    assert(more@.len() == text::texts(more@).len());
    let blank = CountRow {
        added: 0,
        modified: 0,
        identical: 0,
        uncollided: 0,
        deleted_source: 0,
        deleted_destination: 0,
    };
    let (f0, f1) = split_row(file_row, breakdown);
    let (d0, d1) = split_row(dir_row, FileRelationBreakdown::default());
    let (m0, m1) = split_numbers(blank, breakdown);
    let ghost b0 = m0@;
    let ghost b1 = m1@;
    let mut rows0 = gather(&f0, &d0);
    let ghost r0 = number_rows(rows0@);
    rows0.push(m0);
    assert(number_rows(rows0@) == r0.push(b0));
    let mut rows1 = gather(&f1, &d1);
    let ghost r1 = number_rows(rows1@);
    rows1.push(m1);
    assert(number_rows(rows1@) == r1.push(b1));
    proof {
        lemma_row_lengths(rows0@, r0.push(b0), 6);
        lemma_row_lengths(rows1@, r1.push(b1), 7);
    }
    let mut out = write_table(&labels, &f0, &d0, &rows0);
    let ghost first = text::texts(out@);
    out.push(String::new());
    assert(text::texts(out@) == first.push(Seq::<char>::empty()));
    let ghost lead = text::texts(out@);
    let mut tail = write_table(&more, &f1, &d1, &rows1);
    let ghost second = text::texts(tail@);
    let ghost a = out@;
    let ghost t = tail@;
    out.append(&mut tail);
    assert(out@ == a + t);
    assert(text::texts(out@) == lead + second);
    out.push(String::new());
    assert(text::texts(out@) == preview_tables_of(file_row, dir_row, breakdown));
    out
}

/// A word in green where it applies, and dim where not.
pub open spec fn mode_word(label: Seq<char>, active: bool) -> Seq<char> {
    (if active {
        "\x1b[92m"@
    } else {
        "\x1b[90m"@
    }) + label + "\x1b[0m"@
}

/// Writes a word of the mode line.
pub fn fmt_mode_word(label: &str, active: bool) -> (r: String)
    ensures
        r@ == mode_word(label@, active),
{
    let mut out = text::copy(
        if active {
            "\x1b[92m"
        } else {
            "\x1b[90m"
        },
    );
    out.push_str(label);
    out.push_str("\x1b[0m");
    out
}

/// How weighty a message is.
#[derive(Clone, Copy, Debug, PartialEq, Eq, Structural)]
pub enum LogLevel {
    Error,
    Warn,
    Info,
}

/// A message as it is shown.
pub open spec fn message_text(mode: TransferMode, message: Seq<char>, level: LogLevel) -> Seq<char> {
    (match level {
        LogLevel::Error => "\x1b[91mERROR: "@,
        LogLevel::Warn => "\x1b[93mWARNING: "@,
        LogLevel::Info => "\x1b[94m"@ + mode.word_text() + ": "@,
    }) + message + "\x1b[0m"@
}

/// Writes a message.
pub fn log_line(mode: TransferMode, message: &str, level: LogLevel) -> (r: String)
    ensures
        r@ == message_text(mode, message@, level),
{
    let mut out = String::new();
    match level {
        LogLevel::Error => {
            out.push_str("\x1b[91mERROR: ");
        },
        LogLevel::Warn => {
            out.push_str("\x1b[93mWARNING: ");
        },
        LogLevel::Info => {
            out.push_str("\x1b[94m");
            out.push_str(mode.word());
            out.push_str(": ");
        },
    }
    out.push_str(message);
    out.push_str("\x1b[0m");
    assert(out@ == message_text(mode, message@, level));
    out
}

/// The line above a preview: the whole path, or with a new last name set off.
pub open spec fn root_line(path: Seq<char>, new_leaf: bool, emphasize: bool) -> Seq<char> {
    let warned = "\x1b[93m"@ + path + "\x1b[0m"@;
    let bare = text::trim_end_char(path, '/');
    let above = match paths::parent_of(bare) {
        Some(p) => text::trim_end_char(p, '/'),
        None => Seq::empty(),
    };
    if !new_leaf {
        if emphasize {
            warned
        } else {
            path
        }
    } else {
        match paths::last_name(bare) {
            None => warned,
            Some(leaf) => {
                let shown = "\x1b[92m"@ + leaf + "/"@ + "\x1b[0m"@;
                if above.len() > 0 {
                    "\x1b[93m"@ + above + "/"@ + shown
                } else if text::begins(bare, "/"@) {
                    "\x1b[93m"@ + "/"@ + shown
                } else {
                    shown
                }
            },
        }
    }
}

/// Writes the line above a preview.
pub fn preview_root_line(path: &str, new_leaf: bool, emphasize: bool) -> (r: String)
    ensures
        r@ == root_line(path@, new_leaf, emphasize),
{
    let mut warned = text::copy("\x1b[93m");
    warned.push_str(path);
    warned.push_str("\x1b[0m");
    assert(warned@ == "\x1b[93m"@ + path@ + "\x1b[0m"@);
    if !new_leaf {
        return if emphasize {
            warned
        } else {
            text::copy(path)
        };
    }
    let chars = text::trim_end(text::to_chars(path).as_slice(), '/');
    let bare = text::from_chars(chars.as_slice());
    let leaf = match paths::file_name(bare.as_str()) {
        Some(n) => n,
        None => {
            return warned;
        },
    };
    let mut shown = text::copy("\x1b[92m");
    shown.push_str(leaf.as_str());
    shown.push_str("/");
    shown.push_str("\x1b[0m");
    let above = match paths::parent(bare.as_str()) {
        Some(p) => text::trim_end(text::to_chars(p.as_str()).as_slice(), '/'),
        None => Vec::new(),
    };
    let mut out = String::new();
    if above.len() > 0 {
        let dir = text::from_chars(above.as_slice());
        out.push_str("\x1b[93m");
        out.push_str(dir.as_str());
        out.push_str("/");
    } else if text::begins_with(chars.as_slice(), text::to_chars("/").as_slice()) {
        out.push_str("\x1b[93m");
        out.push_str("/");
    }
    out.push_str(shown.as_str());
    assert(out@ == root_line(path@, new_leaf, emphasize));
    out
}

/// From the right every fourth character of a grouped number is a comma, and no other.
pub proof fn law_commas_part_groups_of_three(digits: Seq<char>, k: int)
    requires
        text::all_digits(digits),
        0 <= k < grouped(digits).len(),
    ensures
        grouped(digits)[grouped(digits).len() - 1 - k] == ',' <==> k % 4 == 3,
        digits.len() > 0 ==> grouped(digits)[0] != ',',
    decreases digits.len(),
{
    if digits.len() <= 3 {
        let i = digits.len() - 1 - k;
        assert(text::is_digit(digits[i]));
        assert(text::is_digit(digits[0]));
    } else {
        let head = digits.take(digits.len() - 3);
        let tail = digits.skip(digits.len() - 3);
        let front = grouped(head);
        let g = grouped(digits);
        assert(text::all_digits(head)) by {
            assert forall|i: int| 0 <= i < head.len() implies text::is_digit(
                #[trigger] head[i],
            ) by {
                assert(head[i] == digits[i]);
            }
        }
        lemma_groups_are_not_empty(head);
        law_commas_part_groups_of_three(head, 0);
        assert(g[0] == front[0]);
        if k < 3 {
            assert(g[g.len() - 1 - k] == digits[digits.len() - 1 - k]);
            assert(text::is_digit(digits[digits.len() - 1 - k]));
        } else if k > 3 {
            law_commas_part_groups_of_three(head, k - 4);
            assert(g[g.len() - 1 - k] == front[front.len() - 1 - (k - 4)]);
        }
    }
}

proof fn lemma_groups_are_not_empty(digits: Seq<char>)
    requires
        digits.len() > 0,
    ensures
        grouped(digits).len() > 0,
{
}

/// A column is as wide as its label and every number in it need, and no wider.
pub proof fn law_columns_are_wide_enough(label: Seq<char>, values: Seq<u64>, i: int)
    ensures
        column_width(label, values) >= label.len(),
        0 <= i < values.len() ==> column_width(label, values) >= number_text(values[i]).len(),
        column_width(label, values) == label.len() || column_width(label, values) == 1 || exists|
            j: int,
        |
            0 <= j < values.len() && column_width(label, values) == number_text(
                #[trigger] values[j],
            ).len(),
{
    lemma_widest(values);
}

proof fn lemma_widest(values: Seq<u64>)
    ensures
        forall|i: int|
            0 <= i < values.len() ==> widest(values) >= number_text(#[trigger] values[i]).len(),
        widest(values) == 1 || exists|j: int|
            0 <= j < values.len() && widest(values) == number_text(#[trigger] values[j]).len(),
    decreases values.len(),
{
    if values.len() > 0 {
        let front = values.drop_last();
        lemma_widest(front);
        assert forall|i: int| 0 <= i < values.len() implies widest(values) >= number_text(
            #[trigger] values[i],
        ).len() by {
            if i < front.len() {
                assert(front[i] == values[i]);
            }
        }
        if widest(front) >= number_text(values.last()).len() {
            if widest(front) != 1 {
                let j = choose|j: int|
                    0 <= j < front.len() && widest(front) == number_text(#[trigger] front[j]).len();
                assert(values[j] == front[j]);
            }
        } else {
            assert(widest(values) == number_text(values[values.len() - 1]).len());
        }
    }
}

/// Every cell follows a bar and is set to the right of its column.
pub proof fn law_cells_follow_one_another(
    cells: Seq<Seq<char>>,
    cell: Seq<char>,
    widths: Seq<int>,
)
    requires
        cells.len() < widths.len(),
    ensures
        cells_text(cells.push(cell), widths) == cells_text(cells, widths) + " | "@
            + tree_git::padded_left(cell, widths[cells.len() as int]),
        cells_text(Seq::empty(), widths).len() == 0,
{
    assert(cells.push(cell).drop_last() == cells);
}

/// The numbers of a row stand below the labels that say what they count.
pub proof fn law_numbers_stand_below_their_labels(r: CountRow, b: FileRelationBreakdown)
    ensures
        count_labels()[0] == "New"@ && row_numbers(r)[0] == r.added,
        count_labels()[1] == "Mod"@ && row_numbers(r)[1] == r.modified,
        count_labels()[2] == "Ident"@ && row_numbers(r)[2] == r.identical,
        count_labels()[3] == "Uncol"@ && row_numbers(r)[3] == r.uncollided,
        count_labels()[4] == "Del(src)"@ && row_numbers(r)[4] == r.deleted_source,
        count_labels()[5] == "Del(dest)"@ && row_numbers(r)[5] == r.deleted_destination,
        preview_labels().0[0] == "New"@ && preview_numbers(r, b).0[0] == r.added,
        preview_labels().0[1] == "Uncol"@ && preview_numbers(r, b).0[1] == r.uncollided,
        preview_labels().0[2] == "Time=Size="@ && preview_numbers(r, b).0[2]
            == b.same_time_same_size,
        preview_labels().0[3] == "Time=Size+"@ && preview_numbers(r, b).0[3]
            == b.same_time_source_larger,
        preview_labels().0[4] == "Time=Size-"@ && preview_numbers(r, b).0[4]
            == b.same_time_source_smaller,
        preview_labels().0[5] == "Time+Size="@ && preview_numbers(r, b).0[5]
            == b.same_size_source_newer,
        preview_labels().1[0] == "Time-Size="@ && preview_numbers(r, b).1[0]
            == b.same_size_source_older,
        preview_labels().1[1] == "Time-Size-"@ && preview_numbers(r, b).1[1]
            == b.source_older_smaller,
        preview_labels().1[2] == "Time-Size+"@ && preview_numbers(r, b).1[2]
            == b.source_older_larger,
        preview_labels().1[3] == "Time+Size-"@ && preview_numbers(r, b).1[3]
            == b.source_newer_smaller,
        preview_labels().1[4] == "Time+Size+"@ && preview_numbers(r, b).1[4]
            == b.source_newer_larger,
        preview_labels().1[5] == "Del(src)"@ && preview_numbers(r, b).1[5] == r.deleted_source,
        preview_labels().1[6] == "Del(dest)"@ && preview_numbers(r, b).1[6]
            == r.deleted_destination,
{
}

/// A table has a line of labels, and one line for each row that is there, the files first.
pub proof fn law_tables_have_a_line_for_each_row(files: Option<CountRow>, dirs: Option<CountRow>)
    ensures
        counts_table_of(files, dirs).len() == 1 + (if files is Some {
            1int
        } else {
            0
        }) + (if dirs is Some {
            1int
        } else {
            0
        }),
{
}

/// A message is shown whole, in the colour of its weight, behind its word.
pub proof fn law_messages_are_shown_whole(mode: TransferMode, message: Seq<char>, level: LogLevel)
    ensures
        ({
            let r = message_text(mode, message, level);
            &&& level is Error ==> r == "\x1b[91mERROR: "@ + message + "\x1b[0m"@
            &&& level is Warn ==> r == "\x1b[93mWARNING: "@ + message + "\x1b[0m"@
            &&& level is Info ==> text::begins(r, "\x1b[94m"@ + mode.word_text())
            &&& text::ends(r, message + "\x1b[0m"@)
        }),
{
    let r = message_text(mode, message, level);
    let end = message + "\x1b[0m"@;
    assert(r.skip(r.len() - end.len()) == end);
    if level is Info {
        let head = "\x1b[94m"@ + mode.word_text();
        assert(r.take(head.len() as int) == head);
    }
}

/// A path that is not new is shown as it is, or warned of; a new last name is shown in green
/// behind what stands above it.
pub proof fn law_roots_are_set_off(path: Seq<char>, new_leaf: bool, emphasize: bool)
    ensures
        !new_leaf && !emphasize ==> root_line(path, new_leaf, emphasize) == path,
        !new_leaf && emphasize ==> root_line(path, new_leaf, emphasize) == "\x1b[93m"@ + path
            + "\x1b[0m"@,
        new_leaf ==> text::ends(root_line(path, new_leaf, emphasize), "\x1b[0m"@),
        new_leaf ==> (paths::last_name(text::trim_end_char(path, '/')) matches Some(leaf)
            ==> text::ends(
            root_line(path, new_leaf, emphasize),
            "\x1b[92m"@ + leaf + "/"@ + "\x1b[0m"@,
        )),
{
    let line = root_line(path, new_leaf, emphasize);
    if new_leaf {
        let reset = "\x1b[0m"@;
        match paths::last_name(text::trim_end_char(path, '/')) {
            Some(leaf) => {
                let shown = "\x1b[92m"@ + leaf + "/"@ + reset;
                assert(line.skip(line.len() - shown.len()) == shown);
                assert(line.skip(line.len() - reset.len()) == reset);
            },
            None => {
                assert(line.skip(line.len() - reset.len()) == reset);
            },
        }
    }
}

} // verus!
