//! The course of a local transfer once its plan stands: what is shown and
//! asked, and the steps of its execution.

use crate::domain::{DeleteCleanupOutcome, DstObjKind, SrcObjKind, TransferMode};
use crate::domain;
use crate::placement::{LocalEnds, ObjectKind, Placement};
use crate::prescan::{ManifestFileEntry, TransferManifest};
use crate::rename::PreMergeFastRenameStats;
use crate::table::NameSet;
use crate::text;
use vstd::prelude::*;

verus! {

/// How many source files a move removes, and their bytes.
#[derive(Clone, Copy, Debug, PartialEq, Eq, Structural)]
pub struct CleanupTotals {
    pub files: u64,
    pub bytes: u64,
}

/// The names in a list of files, the empty one left out.
pub open spec fn named(files: Seq<ManifestFileEntry>) -> Set<Seq<char>>
    decreases files.len(),
{
    if files.len() == 0 {
        Set::empty()
    } else if files.last().rel@.len() == 0 {
        named(files.drop_last())
    } else {
        named(files.drop_last()).insert(files.last().rel@)
    }
}

/// The sizes of the listed files, each name counted where it first stands.
pub open spec fn named_bytes(files: Seq<ManifestFileEntry>) -> u64
    decreases files.len(),
{
    if files.len() == 0 {
        0
    } else if files.last().rel@.len() == 0 || named(files.drop_last()).contains(
        files.last().rel@,
    ) {
        named_bytes(files.drop_last())
    } else {
        domain::sat_add(named_bytes(files.drop_last()), files.last().size)
    }
}

fn count_named(files: &Vec<ManifestFileEntry>, seen: &mut NameSet, bytes: u64, Ghost(before): Ghost<
    Seq<ManifestFileEntry>,
>) -> (r: u64)
    requires
        old(seen).wf(),
        old(seen)@ == named(before),
        bytes == named_bytes(before),
    ensures
        final(seen).wf(),
        final(seen)@ == named(before + files@),
        r == named_bytes(before + files@),
{
    let mut bytes: u64 = bytes;
    let mut i: usize = 0;
    assert(before + files@.take(0) == before);
    while i < files.len()
        invariant
            i <= files@.len(),
            seen.wf(),
            seen@ == named(before + files@.take(i as int)),
            bytes == named_bytes(before + files@.take(i as int)),
        decreases files@.len() - i,
    {
        let ghost step = before + files@.take(i + 1);
        assert(step.drop_last() == before + files@.take(i as int));
        assert(step.last() == files@[i as int]);
        let f = &files[i];
        if !f.rel.as_str().is_empty() {
            if seen.insert(f.rel.clone()) {
                bytes = bytes.saturating_add(f.size);
            } else {
                assert(seen@ == named(step.drop_last()));
            }
        }
        i = i + 1;
    }
    assert(files@.take(files@.len() as int) == files@);
    bytes
}

/// What a move removes of its source once everything has arrived.
pub fn manifest_cleanup(m: &TransferManifest) -> (r: CleanupTotals)
    ensures
        r.files == named(m.identical_files@ + m.copy_files@).len(),
        r.bytes == named_bytes(m.identical_files@ + m.copy_files@),
{
    let mut seen = NameSet::new();
    let ghost none = Seq::<ManifestFileEntry>::empty();
    let first = count_named(&m.identical_files, &mut seen, 0, Ghost(none));
    assert(none + m.identical_files@ == m.identical_files@);
    let bytes = count_named(&m.copy_files, &mut seen, first, Ghost(m.identical_files@));
    let files: usize = seen.len();
    CleanupTotals { files: files as u64, bytes }
}

/// One row of the counts table.
#[derive(Clone, Copy, Debug, PartialEq, Eq, Structural)]
pub struct CountRow {
    pub added: u64,
    pub modified: u64,
    pub identical: u64,
    pub uncollided: u64,
    pub deleted_source: u64,
    pub deleted_destination: u64,
}

/// The counts of a plan, of files or of directories.
#[derive(Clone, Copy, Debug, PartialEq, Eq, Structural)]
pub struct PlanCounts {
    pub total: u64,
    pub added: u64,
    pub modified: u64,
    pub uncollided: u64,
}

/// What of a source is left as it is, gone, or replaced. `removed` is what a
/// move removes, `replaced` what an overwritten target holds.
pub open spec fn count_row(c: PlanCounts, sync: bool, removed: u64, replaced: u64) -> CountRow {
    CountRow {
        added: c.added,
        modified: c.modified,
        identical: if c.added + c.modified > c.total {
            0
        } else {
            (c.total - c.added - c.modified) as u64
        },
        uncollided: c.uncollided,
        deleted_source: removed,
        deleted_destination: if sync {
            c.uncollided
        } else {
            replaced
        },
    }
}

/// Fills a row of the counts table.
pub fn fill_row(c: PlanCounts, sync: bool, removed: u64, replaced: u64) -> (r: CountRow)
    requires
        c.added + c.modified <= u64::MAX,
    ensures
        r == count_row(c, sync, removed, replaced),
{
    CountRow {
        added: c.added,
        modified: c.modified,
        identical: c.total.saturating_sub(c.added + c.modified),
        uncollided: c.uncollided,
        deleted_source: removed,
        deleted_destination: if sync {
            c.uncollided
        } else {
            replaced
        },
    }
}

/// In a plan that counts no file twice, every source file is added, modified
/// or identical.
pub proof fn law_row_covers_the_source(c: PlanCounts, sync: bool, removed: u64, replaced: u64)
    requires
        c.added + c.modified <= c.total,
    ensures
        ({
            let row = count_row(c, sync, removed, replaced);
            row.added + row.modified + row.identical == c.total
        }),
{
}

/// What a move is expected to remove of its source.
pub open spec fn likely_removed(moves: bool, listed: u64, total: Option<u64>) -> u64 {
    if !moves {
        0
    } else if listed > 0 {
        listed
    } else if total is Some {
        total->0
    } else {
        0
    }
}

/// Estimates what a move removes of its source: the manifest's number, or the
/// scan's where the manifest has none.
pub fn likely_cleanup(moves: bool, listed: u64, total: Option<u64>) -> (r: u64)
    ensures
        r == likely_removed(moves, listed, total),
{
    if !moves {
        0
    } else if listed > 0 {
        listed
    } else {
        match total {
            Some(n) => n,
            None => 0,
        }
    }
}

/// What is known of the work ahead before anyone is asked.
#[derive(Clone, Copy, Debug, PartialEq, Eq, Structural)]
pub struct WorkFacts {
    pub is_move: bool,
    pub already_there: bool,
    /// Something of the target's name exists.
    pub conflict: bool,
    pub planned_bytes: u64,
    pub has_planned_changes: bool,
    pub has_itemized_changes: bool,
    /// There is something to be overwritten.
    pub overwrite_needed: bool,
    pub sync: bool,
    pub uncollided_files: u64,
    pub uncollided_dirs: u64,
    /// Source files that the manifest lists for removal, and their bytes.
    pub cleanup: CleanupTotals,
}

/// Whether a synchronisation deletes something.
pub open spec fn sync_deletes(w: WorkFacts) -> bool {
    w.sync && (w.uncollided_files > 0 || w.uncollided_dirs > 0)
}

/// Whether all that a move has left to do is to remove its source.
pub open spec fn cleanup_only(w: WorkFacts) -> bool {
    w.is_move && !w.already_there && w.conflict && w.planned_bytes == 0 && !w.has_planned_changes
        && !w.overwrite_needed
}

/// Whether there is nothing to do.
pub open spec fn nothing_to_do(w: WorkFacts) -> bool {
    w.already_there || w.planned_bytes == 0 && !w.has_planned_changes && !w.overwrite_needed
        && !sync_deletes(w) && (!w.is_move || w.conflict) && !cleanup_only(w)
}

/// Whether the preview's root is set off.
pub open spec fn root_is_emphasized(w: WorkFacts) -> bool {
    w.has_itemized_changes || w.has_planned_changes || w.planned_bytes > 0 || w.overwrite_needed
        || sync_deletes(w) || w.is_move && !w.already_there && (w.cleanup.files > 0
        || w.cleanup.bytes > 0)
}

/// What the facts come to.
#[derive(Clone, Copy, Debug, PartialEq, Eq, Structural)]
pub struct Work {
    pub sync_deletes: bool,
    pub cleanup_only: bool,
    pub nothing_to_do: bool,
    pub emphasize_root: bool,
    /// Say that the destination will be replaced.
    pub announce_overwrite: bool,
    /// Say that entries will be deleted.
    pub announce_deletions: bool,
}

pub open spec fn work_of(w: WorkFacts) -> Work {
    let quiet = w.planned_bytes == 0 && !w.has_itemized_changes;
    Work {
        sync_deletes: sync_deletes(w),
        cleanup_only: cleanup_only(w),
        nothing_to_do: nothing_to_do(w),
        emphasize_root: root_is_emphasized(w),
        announce_overwrite: w.overwrite_needed && quiet,
        announce_deletions: sync_deletes(w) && quiet,
    }
}

/// Weighs the facts.
pub fn weigh(w: WorkFacts) -> (r: Work)
    ensures
        r == work_of(w),
        r.cleanup_only ==> w.is_move,
{
    let sync_deletes = w.sync && (w.uncollided_files > 0 || w.uncollided_dirs > 0);
    let idle = w.planned_bytes == 0 && !w.has_planned_changes && !w.overwrite_needed;
    let cleanup_only = w.is_move && !w.already_there && w.conflict && idle;
    let quiet = w.planned_bytes == 0 && !w.has_itemized_changes;
    Work {
        sync_deletes,
        cleanup_only,
        nothing_to_do: w.already_there || (idle && !sync_deletes && (!w.is_move || w.conflict)
            && !cleanup_only),
        emphasize_root: w.has_itemized_changes || w.has_planned_changes || w.planned_bytes > 0
            || w.overwrite_needed || sync_deletes || (w.is_move && !w.already_there && (
        w.cleanup.files > 0 || w.cleanup.bytes > 0)),
        announce_overwrite: w.overwrite_needed && quiet,
        announce_deletions: sync_deletes && quiet,
    }
}

/// A move that is not in place already always has something to do: its source
/// has to go.
pub proof fn law_a_move_has_work(w: WorkFacts)
    requires
        w.is_move,
        !w.already_there,
    ensures
        !nothing_to_do(w),
{
}

/// What follows the preview.
#[derive(Clone, Copy, Debug, PartialEq, Eq, Structural)]
pub enum AfterPreview {
    /// The scan missed something: nothing may be executed or deleted.
    Refuse,
    /// A preview was all that was wanted.
    Stop,
    /// Go on; read the source files first if so told.
    Proceed { test_reads: bool },
}

/// Decides what follows the preview.
pub fn after_preview(scan_complete: bool, preview_only: bool, sudo: bool, has_planned_changes: bool) -> (r:
    AfterPreview)
    ensures
        r == (if !scan_complete {
            AfterPreview::Refuse
        } else if preview_only {
            AfterPreview::Stop
        } else {
            AfterPreview::Proceed { test_reads: !sudo && has_planned_changes }
        }),
{
    if !scan_complete {
        AfterPreview::Refuse
    } else if preview_only {
        AfterPreview::Stop
    } else {
        AfterPreview::Proceed { test_reads: !sudo && has_planned_changes }
    }
}

/// What a line typed at the prompt means.
#[derive(Clone, Copy, Debug, PartialEq, Eq, Structural)]
pub enum Answer {
    Yes,
    No,
    /// The input ended.
    Ended,
}

/// Enter, `y` and `yes` agree, in any case and with any white space around;
/// an empty input is no answer.
pub open spec fn answer_of(line: Seq<char>) -> Answer {
    let word = text::lower(text::trimmed(line));
    if line.len() == 0 {
        Answer::Ended
    } else if word.len() == 0 || word == "y"@ || word == "yes"@ {
        Answer::Yes
    } else {
        Answer::No
    }
}

/// Reads a line typed at the prompt.
pub fn read_answer(line: &str) -> (r: Answer)
    ensures
        r == answer_of(line@),
{
    let chars = text::to_chars(line);
    if chars.len() == 0 {
        return Answer::Ended;
    }
    let word = text::to_lower(text::trim(chars.as_slice()).as_slice());
    if word.len() == 0 || text::is_text(word.as_slice(), "y") || text::is_text(
        word.as_slice(),
        "yes",
    ) {
        Answer::Yes
    } else {
        Answer::No
    }
}

/// Tests whether the destination lacks room. A plain rename needs none, and
/// nothing is said where the room is not known.
pub fn lacks_space(required: u64, renames: bool, available: Option<u64>) -> (r: bool)
    ensures
        r == (required > 0 && !renames && available is Some && available->0 < required),
{
    match available {
        Some(n) => required > 0 && !renames && n < required,
        None => false,
    }
}

/// What stands before an execution, step by step.
#[derive(Clone, Copy, Debug, PartialEq, Eq, Structural)]
pub enum Opening {
    /// Read the source files.
    TestReads,
    /// Say what there is to do, and ask.
    Ask,
    /// Find out whether a plain rename does it.
    Probe,
    CheckSpace,
    Rename,
    /// The execution begins.
    Execute,
    Stop { reason: StopReason },
}

/// Why an execution does not begin.
#[derive(Clone, Copy, Debug, PartialEq, Eq, Structural)]
pub enum StopReason {
    /// The scan missed something.
    Incomplete,
    PreviewOnly,
    Unreadable,
    NothingToDo,
    /// The answer could not be read.
    NoAnswer,
    InputEnded,
    Declined,
    NoSpace,
    /// A plain rename has done it all.
    Renamed,
    /// A plain rename has done it, but was not flushed.
    RenamedUnflushed,
}

/// How a step before an execution went.
#[derive(Clone, Copy, Debug, PartialEq, Eq, Structural)]
pub enum OpeningResult {
    Reads { ok: bool },
    /// What was answered, if that could be read.
    Answered { answer: Option<Answer> },
    /// Whether a plain rename is possible.
    Probed { renames: bool },
    Space { lacks: bool },
    RenameFailed,
    RenameDone { flushed: bool },
}

pub open spec fn stop(reason: StopReason) -> Opening {
    Opening::Stop { reason }
}

/// Once the source files can be read, there is a question if there is something to do.
pub open spec fn ask_of(nothing_to_do: bool) -> Opening {
    if nothing_to_do {
        stop(StopReason::NothingToDo)
    } else {
        Opening::Ask
    }
}

/// What comes first after a preview.
pub open spec fn opening_of(after: AfterPreview, nothing_to_do: bool) -> Opening {
    match after {
        AfterPreview::Refuse => stop(StopReason::Incomplete),
        AfterPreview::Stop => stop(StopReason::PreviewOnly),
        AfterPreview::Proceed { test_reads } => if test_reads {
            Opening::TestReads
        } else {
            ask_of(nothing_to_do)
        },
    }
}

/// What follows a step before an execution. Bytes that a plain rename does not move
/// need room.
pub open spec fn next_opening_of(
    nothing_to_do: bool,
    planned_bytes: u64,
    step: Opening,
    result: OpeningResult,
) -> Opening {
    match step {
        Opening::TestReads => if result == (OpeningResult::Reads { ok: true }) {
            ask_of(nothing_to_do)
        } else {
            stop(StopReason::Unreadable)
        },
        Opening::Ask => match result {
            OpeningResult::Answered { answer: Some(Answer::Yes) } => Opening::Probe,
            OpeningResult::Answered { answer: Some(Answer::No) } => stop(StopReason::Declined),
            OpeningResult::Answered { answer: Some(Answer::Ended) } => {
                stop(StopReason::InputEnded)
            },
            _ => stop(StopReason::NoAnswer),
        },
        Opening::Probe => if result == (OpeningResult::Probed { renames: true }) {
            Opening::Rename
        } else if planned_bytes > 0 {
            Opening::CheckSpace
        } else {
            Opening::Execute
        },
        Opening::CheckSpace => if result == (OpeningResult::Space { lacks: true }) {
            stop(StopReason::NoSpace)
        } else {
            Opening::Execute
        },
        Opening::Rename => match result {
            OpeningResult::RenameDone { flushed } => if flushed {
                stop(StopReason::Renamed)
            } else {
                stop(StopReason::RenamedUnflushed)
            },
            _ => Opening::Execute,
        },
        Opening::Execute => Opening::Execute,
        Opening::Stop { reason } => stop(reason),
    }
}

fn reads_tested(nothing_to_do: bool) -> (r: Opening)
    ensures
        r == ask_of(nothing_to_do),
{
    if nothing_to_do {
        Opening::Stop { reason: StopReason::NothingToDo }
    } else {
        Opening::Ask
    }
}

/// Finds what comes first after a preview.
pub fn open_execution(after: AfterPreview, nothing_to_do: bool) -> (r: Opening)
    ensures
        r == opening_of(after, nothing_to_do),
{
    match after {
        AfterPreview::Refuse => Opening::Stop { reason: StopReason::Incomplete },
        AfterPreview::Stop => Opening::Stop { reason: StopReason::PreviewOnly },
        AfterPreview::Proceed { test_reads } => if test_reads {
            Opening::TestReads
        } else {
            reads_tested(nothing_to_do)
        },
    }
}

/// Goes on towards an execution.
pub fn next_opening(
    nothing_to_do: bool,
    planned_bytes: u64,
    step: Opening,
    result: OpeningResult,
) -> (r: Opening)
    ensures
        r == next_opening_of(nothing_to_do, planned_bytes, step, result),
{
    match (step, result) {
        (Opening::TestReads, OpeningResult::Reads { ok: true }) => reads_tested(nothing_to_do),
        (Opening::TestReads, _) => Opening::Stop { reason: StopReason::Unreadable },
        (Opening::Ask, OpeningResult::Answered { answer: Some(answer) }) => match answer {
            Answer::Yes => Opening::Probe,
            Answer::No => Opening::Stop { reason: StopReason::Declined },
            Answer::Ended => Opening::Stop { reason: StopReason::InputEnded },
        },
        (Opening::Ask, _) => Opening::Stop { reason: StopReason::NoAnswer },
        (Opening::Probe, OpeningResult::Probed { renames: true }) => Opening::Rename,
        (Opening::Probe, _) => if planned_bytes > 0 {
            Opening::CheckSpace
        } else {
            Opening::Execute
        },
        (Opening::CheckSpace, OpeningResult::Space { lacks: true }) => {
            Opening::Stop { reason: StopReason::NoSpace }
        },
        (Opening::CheckSpace, _) => Opening::Execute,
        (Opening::Rename, OpeningResult::RenameDone { flushed }) => Opening::Stop {
            reason: if flushed {
                StopReason::Renamed
            } else {
                StopReason::RenamedUnflushed
            },
        },
        (Opening::Rename, _) => Opening::Execute,
        (Opening::Execute, _) => Opening::Execute,
        (Opening::Stop { reason }, _) => Opening::Stop { reason },
    }
}

/// The exit status where an execution does not begin. A plain "no" is no failure;
/// an input that ended before it is one.
pub fn stop_code(reason: StopReason) -> (r: i32)
    ensures
        r == (match reason {
            StopReason::PreviewOnly => 0i32,
            StopReason::NothingToDo => 0i32,
            StopReason::Declined => 0i32,
            StopReason::Renamed => 0i32,
            StopReason::Unreadable => crate::journal::NONMUTATING_PREFLIGHT_FAILURE,
            _ => 1i32,
        }),
{
    match reason {
        StopReason::PreviewOnly | StopReason::NothingToDo | StopReason::Declined
        | StopReason::Renamed => 0,
        StopReason::Unreadable => crate::journal::NONMUTATING_PREFLIGHT_FAILURE,
        _ => 1,
    }
}

/// What is said where an execution does not begin, where the step that led to it
/// leaves that open.
pub open spec fn stop_text(reason: StopReason, mode: TransferMode) -> Option<Seq<char>> {
    match reason {
        StopReason::Incomplete => Some(
            "Transfer plan is incomplete because one or more paths could not be scanned; refusing to execute or delete anything."@,
        ),
        StopReason::NothingToDo => Some(
            "No changes detected; nothing to "@ + mode.word_text() + "."@,
        ),
        StopReason::InputEnded => Some(
            "Confirmation input ended before approval; refusing to continue."@,
        ),
        StopReason::RenamedUnflushed => Some(
            "Fast-path rename completed but destination flush failed; durability is unconfirmed."@,
        ),
        _ => None,
    }
}

/// Says why an execution does not begin.
pub fn explain_stop(reason: StopReason, mode: TransferMode) -> (r: Option<String>)
    ensures
        crate::paths::opt_text(r) == stop_text(reason, mode),
{
    match reason {
        StopReason::Incomplete => Some(
            text::copy(
                "Transfer plan is incomplete because one or more paths could not be scanned; refusing to execute or delete anything.",
            ),
        ),
        StopReason::NothingToDo => {
            let mut out = text::copy("No changes detected; nothing to ");
            out.push_str(mode.word());
            out.push_str(".");
            Some(out)
        },
        StopReason::InputEnded => Some(
            text::copy("Confirmation input ended before approval; refusing to continue."),
        ),
        StopReason::RenamedUnflushed => Some(
            text::copy(
                "Fast-path rename completed but destination flush failed; durability is unconfirmed.",
            ),
        ),
        _ => None,
    }
}

/// A course that can lead to an execution: the steps with their results.
pub open spec fn is_opening(
    after: AfterPreview,
    nothing_to_do: bool,
    planned_bytes: u64,
    course: Seq<(Opening, OpeningResult)>,
) -> bool {
    &&& course.len() > 0 ==> course[0].0 == opening_of(after, nothing_to_do)
    &&& forall|i: int|
        0 <= i < course.len() - 1 ==> #[trigger] course[i + 1].0 == next_opening_of(
            nothing_to_do,
            planned_bytes,
            course[i].0,
            course[i].1,
        )
}

/// Whether a course leads past the question: it was asked before `k`, and answered
/// with yes.
pub open spec fn is_approved(course: Seq<(Opening, OpeningResult)>, k: int) -> bool {
    exists|j: int|
        0 <= j < k && (#[trigger] course[j]) == (
            Opening::Ask,
            OpeningResult::Answered { answer: Some(Answer::Yes) },
        )
}

/// Nothing is renamed or executed unless the scan was complete, more than a preview
/// was wanted, the source files could be read where that was tested, there is
/// something to do, and the answer was yes.
pub proof fn law_nothing_is_done_unapproved(
    after: AfterPreview,
    nothing_to_do: bool,
    planned_bytes: u64,
    course: Seq<(Opening, OpeningResult)>,
    k: int,
)
    requires
        is_opening(after, nothing_to_do, planned_bytes, course),
        0 <= k < course.len(),
        course[k].0 == Opening::Rename || course[k].0 == Opening::Execute,
    ensures
        after is Proceed,
        !nothing_to_do,
        is_approved(course, k),
        after == (AfterPreview::Proceed { test_reads: true }) ==> course[0] == (
            Opening::TestReads,
            OpeningResult::Reads { ok: true },
        ),
{
    lemma_approved(after, nothing_to_do, planned_bytes, course, k);
}

proof fn lemma_approved(
    after: AfterPreview,
    nothing_to_do: bool,
    planned_bytes: u64,
    course: Seq<(Opening, OpeningResult)>,
    k: int,
)
    requires
        is_opening(after, nothing_to_do, planned_bytes, course),
        0 <= k < course.len(),
        !(course[k].0 is Stop),
    ensures
        after is Proceed,
        course[k].0 != Opening::TestReads ==> !nothing_to_do,
        course[k].0 == Opening::TestReads ==> k == 0,
        course[k].0 != Opening::TestReads && course[k].0 != Opening::Ask ==> is_approved(course, k),
        course[k].0 != Opening::TestReads && after == (AfterPreview::Proceed { test_reads: true })
            ==> course[0] == (Opening::TestReads, OpeningResult::Reads { ok: true }),
    decreases k,
{
    if k > 0 {
        assert(course[k - 1 + 1].0 == next_opening_of(
            nothing_to_do,
            planned_bytes,
            course[k - 1].0,
            course[k - 1].1,
        ));
        lemma_approved(after, nothing_to_do, planned_bytes, course, k - 1);
        if course[k - 1].0 == Opening::Ask {
            assert(course[k - 1] == (
                Opening::Ask,
                OpeningResult::Answered { answer: Some(Answer::Yes) },
            ));
        } else if course[k - 1].0 != Opening::TestReads {
            let j = choose|j: int|
                0 <= j < k - 1 && (#[trigger] course[j]) == (
                    Opening::Ask,
                    OpeningResult::Answered { answer: Some(Answer::Yes) },
                );
            assert(0 <= j < k);
        }
    }
}

/// How many steps can still come before an execution begins or does not.
pub open spec fn openings_left(step: Opening) -> nat {
    match step {
        Opening::Execute => 0,
        Opening::Stop { .. } => 0,
        Opening::CheckSpace => 1,
        Opening::Rename => 1,
        Opening::Probe => 2,
        Opening::Ask => 3,
        Opening::TestReads => 4,
    }
}

/// What stands before an execution ends: each step leaves fewer to come.
pub proof fn law_opening_ends(
    nothing_to_do: bool,
    planned_bytes: u64,
    step: Opening,
    result: OpeningResult,
)
    requires
        openings_left(step) > 0,
    ensures
        openings_left(next_opening_of(nothing_to_do, planned_bytes, step, result))
            < openings_left(step),
{
}

/// What an execution has to go by.
#[derive(Clone, Copy, Debug, PartialEq, Eq, Structural)]
pub struct ExecutionPlan {
    pub is_move: bool,
    pub backup: bool,
    /// Something is backed up, and nothing overwritten.
    pub backs_up_first: bool,
    pub overwrites: bool,
    /// The replacement is built beside what it replaces.
    pub staged: bool,
    pub premerges: bool,
    pub cleanup_only: bool,
    pub source_is_dir: bool,
    pub source_has_name: bool,
    pub has_manifest: bool,
    /// There are destination entries to delete.
    pub sync_deletes: bool,
}

/// What the plan of an execution is made from.
#[derive(Clone, Copy, Debug, PartialEq, Eq, Structural)]
pub struct PlanFacts {
    pub is_move: bool,
    pub sudo: bool,
    pub backup: bool,
    pub sync: bool,
    /// What is removed to make room.
    pub target: Option<ObjectKind>,
    /// Something is to be backed up.
    pub backs_up: bool,
    pub overwrite_needed: bool,
    pub cleanup_only: bool,
    pub source_has_name: bool,
    pub has_manifest: bool,
    /// The manifest lists destination entries to delete.
    pub has_deletions: bool,
}

/// What an execution goes by. A replacement is staged where a directory
/// replaces one; children are renamed beforehand where a move merges contents
/// into a directory and nothing is replaced or backed up.
pub open spec fn execution_plan(p: Placement, e: LocalEnds, f: PlanFacts) -> ExecutionPlan {
    let is_dir = e.source_kind == SrcObjKind::Dir;
    ExecutionPlan {
        is_move: f.is_move,
        backup: f.backup,
        backs_up_first: f.backs_up && f.target is None,
        overwrites: f.target is Some,
        staged: f.target is Some && (p.replaces_parent || is_dir && f.target == Some(
            ObjectKind::Dir,
        )),
        premerges: f.is_move && !f.sudo && is_dir && p.contents_mode && (e.destination_kind
            == DstObjKind::Dir || e.destination_kind == DstObjKind::DirExisting) && !p.already_there
            && !f.backup && !f.overwrite_needed && !p.replaces_parent && !p.replaces_directory
            && !p.replaces_file,
        cleanup_only: f.cleanup_only,
        source_is_dir: is_dir,
        source_has_name: f.source_has_name,
        has_manifest: f.has_manifest,
        sync_deletes: f.sync && !f.sudo && f.has_manifest && f.has_deletions,
    }
}

/// Only a move renames children beforehand or has nothing but its source to
/// remove.
pub open spec fn is_consistent(p: ExecutionPlan) -> bool {
    p.premerges || p.cleanup_only ==> p.is_move
}

/// Plans an execution.
pub fn plan_execution(p: &Placement, e: &LocalEnds, f: PlanFacts) -> (r: ExecutionPlan)
    ensures
        r == execution_plan(*p, *e, f),
        (f.cleanup_only ==> f.is_move) ==> is_consistent(r),
{
    let is_dir = match e.source_kind {
        SrcObjKind::Dir => true,
        SrcObjKind::File => false,
    };
    let into = match e.destination_kind {
        DstObjKind::Dir => true,
        DstObjKind::DirExisting => true,
        _ => false,
    };
    let (overwrites, replaces_dir) = match f.target {
        Some(ObjectKind::Dir) => (true, true),
        Some(ObjectKind::File) => (true, false),
        None => (false, false),
    };
    ExecutionPlan {
        is_move: f.is_move,
        backup: f.backup,
        backs_up_first: f.backs_up && !overwrites,
        overwrites,
        staged: overwrites && (p.replaces_parent || is_dir && replaces_dir),
        premerges: f.is_move && !f.sudo && is_dir && p.contents_mode && into && !p.already_there
            && !f.backup && !f.overwrite_needed && !p.replaces_parent && !p.replaces_directory
            && !p.replaces_file,
        cleanup_only: f.cleanup_only,
        source_is_dir: is_dir,
        source_has_name: f.source_has_name,
        has_manifest: f.has_manifest,
        sync_deletes: f.sync && !f.sudo && f.has_manifest && f.has_deletions,
    }
}

/// Why an execution ended.
#[derive(Clone, Copy, Debug, PartialEq, Eq, Structural)]
pub enum Ending {
    Done,
    BackupFailed,
    NoStage,
    StageTransferFailed,
    NoRollbackPath,
    TargetStayed,
    PublishFailed,
    OldTargetRemains,
    RemovalFailed,
    FlushFailed,
    NoSourceName,
    TimesFailed,
    CleanupFailed,
    /// A move that had only its source to remove could not.
    SourceRetained,
    SyncCleanupFailed,
    SourceVanished,
    TransferFailed,
}

/// One step of an execution.
#[derive(Clone, Copy, Debug, PartialEq, Eq, Structural)]
pub enum Step {
    /// Copy what is in the way to its backup path.
    BackUpFirst,
    CreateStage,
    TransferToStage,
    /// Move the target to its backup path.
    BackUpTarget { staged: bool },
    /// Test whether the target is there.
    InspectTarget,
    ReserveRollback,
    MoveTargetAside,
    PublishStage { aside: bool },
    PutTargetBack,
    DiscardStage { ending: Ending },
    RemoveOldTarget,
    FlushTarget,
    CleanUpReplaced,
    RemoveTarget,
    Premerge,
    CleanUpOnly,
    Transfer,
    Flush,
    RestoreTimes,
    CleanUp,
    SyncCleanUp,
    Finish { ending: Ending },
}

/// How a step went.
#[derive(Clone, Copy, Debug, PartialEq, Eq, Structural)]
pub enum StepResult {
    Succeeded,
    Failed,
    /// There is no path to back up to.
    NoBackupPath,
    /// The exit status of a transfer.
    Exit { status: i32 },
}

pub open spec fn finish(ending: Ending) -> Step {
    Step::Finish { ending }
}

/// The step that `ok` leads to, or else an ending.
pub open spec fn next_or(result: StepResult, ok: Step, ending: Ending) -> Step {
    if result == StepResult::Succeeded {
        ok
    } else {
        finish(ending)
    }
}

pub open spec fn after_premerge(p: ExecutionPlan) -> Step {
    if p.cleanup_only {
        Step::CleanUpOnly
    } else {
        Step::Transfer
    }
}

pub open spec fn after_target(p: ExecutionPlan) -> Step {
    if p.premerges {
        Step::Premerge
    } else {
        after_premerge(p)
    }
}

pub open spec fn after_backup(p: ExecutionPlan) -> Step {
    if !p.overwrites {
        after_target(p)
    } else if p.staged {
        Step::CreateStage
    } else if p.backup {
        Step::BackUpTarget { staged: false }
    } else {
        Step::RemoveTarget
    }
}

pub open spec fn after_cleanup(p: ExecutionPlan) -> Step {
    if p.sync_deletes {
        Step::SyncCleanUp
    } else {
        finish(Ending::Done)
    }
}

pub open spec fn after_times(p: ExecutionPlan) -> Step {
    if p.is_move {
        Step::CleanUp
    } else {
        after_cleanup(p)
    }
}

pub open spec fn after_flush(p: ExecutionPlan) -> Step {
    if !p.source_is_dir || !p.has_manifest {
        after_times(p)
    } else if !p.source_has_name {
        finish(Ending::NoSourceName)
    } else {
        Step::RestoreTimes
    }
}

/// The first step.
pub open spec fn first_step_of(p: ExecutionPlan) -> Step {
    if p.backs_up_first {
        Step::BackUpFirst
    } else {
        after_backup(p)
    }
}

/// The step that follows a step and its result.
pub open spec fn next_step_of(p: ExecutionPlan, step: Step, result: StepResult) -> Step {
    match step {
        Step::BackUpFirst => next_or(result, after_backup(p), Ending::BackupFailed),
        Step::CreateStage => next_or(result, Step::TransferToStage, Ending::NoStage),
        Step::TransferToStage => if result == (StepResult::Exit { status: 0 }) {
            if p.backup {
                Step::BackUpTarget { staged: true }
            } else {
                Step::InspectTarget
            }
        } else {
            Step::DiscardStage { ending: Ending::StageTransferFailed }
        },
        Step::BackUpTarget { staged } => if result == StepResult::Succeeded {
            if staged {
                Step::PublishStage { aside: false }
            } else {
                after_target(p)
            }
        } else if staged && result != StepResult::NoBackupPath {
            Step::DiscardStage { ending: Ending::BackupFailed }
        } else {
            finish(Ending::BackupFailed)
        },
        Step::InspectTarget => if result == StepResult::Succeeded {
            Step::ReserveRollback
        } else {
            Step::PublishStage { aside: false }
        },
        Step::ReserveRollback => if result == StepResult::Succeeded {
            Step::MoveTargetAside
        } else {
            Step::DiscardStage { ending: Ending::NoRollbackPath }
        },
        Step::MoveTargetAside => if result == StepResult::Succeeded {
            Step::PublishStage { aside: true }
        } else {
            Step::DiscardStage { ending: Ending::TargetStayed }
        },
        Step::PublishStage { aside } => if result == StepResult::Succeeded {
            if aside {
                Step::RemoveOldTarget
            } else {
                Step::FlushTarget
            }
        } else if aside {
            Step::PutTargetBack
        } else {
            Step::DiscardStage { ending: Ending::PublishFailed }
        },
        Step::PutTargetBack => Step::DiscardStage { ending: Ending::PublishFailed },
        Step::DiscardStage { ending } => finish(ending),
        Step::RemoveOldTarget => next_or(result, Step::FlushTarget, Ending::OldTargetRemains),
        Step::FlushTarget => next_or(
            result,
            if p.is_move {
                Step::CleanUpReplaced
            } else {
                finish(Ending::Done)
            },
            Ending::FlushFailed,
        ),
        Step::CleanUpReplaced => next_or(result, finish(Ending::Done), Ending::CleanupFailed),
        Step::RemoveTarget => next_or(result, after_target(p), Ending::RemovalFailed),
        Step::Premerge => after_premerge(p),
        Step::CleanUpOnly => next_or(result, finish(Ending::Done), Ending::SourceRetained),
        Step::Transfer => match result {
            StepResult::Exit { status } => if status == 0 {
                Step::Flush
            } else if status == 24 {
                finish(Ending::SourceVanished)
            } else {
                finish(Ending::TransferFailed)
            },
            _ => finish(Ending::TransferFailed),
        },
        Step::Flush => next_or(result, after_flush(p), Ending::FlushFailed),
        Step::RestoreTimes => next_or(result, after_times(p), Ending::TimesFailed),
        Step::CleanUp => next_or(result, after_cleanup(p), Ending::CleanupFailed),
        Step::SyncCleanUp => next_or(result, finish(Ending::Done), Ending::SyncCleanupFailed),
        Step::Finish { ending } => finish(ending),
    }
}

fn premerged(p: ExecutionPlan) -> (r: Step)
    ensures
        r == after_premerge(p),
{
    if p.cleanup_only {
        Step::CleanUpOnly
    } else {
        Step::Transfer
    }
}

fn target_cleared(p: ExecutionPlan) -> (r: Step)
    ensures
        r == after_target(p),
{
    if p.premerges {
        Step::Premerge
    } else {
        premerged(p)
    }
}

fn backed_up(p: ExecutionPlan) -> (r: Step)
    ensures
        r == after_backup(p),
{
    if !p.overwrites {
        target_cleared(p)
    } else if p.staged {
        Step::CreateStage
    } else if p.backup {
        Step::BackUpTarget { staged: false }
    } else {
        Step::RemoveTarget
    }
}

fn cleaned_up(p: ExecutionPlan) -> (r: Step)
    ensures
        r == after_cleanup(p),
{
    if p.sync_deletes {
        Step::SyncCleanUp
    } else {
        Step::Finish { ending: Ending::Done }
    }
}

fn times_restored(p: ExecutionPlan) -> (r: Step)
    ensures
        r == after_times(p),
{
    if p.is_move {
        Step::CleanUp
    } else {
        cleaned_up(p)
    }
}

fn flushed(p: ExecutionPlan) -> (r: Step)
    ensures
        r == after_flush(p),
{
    if !p.source_is_dir || !p.has_manifest {
        times_restored(p)
    } else if !p.source_has_name {
        Step::Finish { ending: Ending::NoSourceName }
    } else {
        Step::RestoreTimes
    }
}

/// Begins an execution.
pub fn first_step(p: ExecutionPlan) -> (r: Step)
    ensures
        r == first_step_of(p),
{
    if p.backs_up_first {
        Step::BackUpFirst
    } else {
        backed_up(p)
    }
}

/// Goes on with an execution.
pub fn next_step(p: ExecutionPlan, step: Step, result: StepResult) -> (r: Step)
    ensures
        r == next_step_of(p, step, result),
{
    let ok = match result {
        StepResult::Succeeded => true,
        _ => false,
    };
    let status: Option<i32> = match result {
        StepResult::Exit { status } => Some(status),
        _ => None,
    };
    let (good, bad) = match step {
        Step::BackUpFirst => (backed_up(p), Ending::BackupFailed),
        Step::CreateStage => (Step::TransferToStage, Ending::NoStage),
        Step::TransferToStage => {
            return match status {
                Some(0) => if p.backup {
                    Step::BackUpTarget { staged: true }
                } else {
                    Step::InspectTarget
                },
                _ => Step::DiscardStage { ending: Ending::StageTransferFailed },
            };
        },
        Step::BackUpTarget { staged } => {
            if staged && !ok {
                return match result {
                    StepResult::NoBackupPath => Step::Finish { ending: Ending::BackupFailed },
                    _ => Step::DiscardStage { ending: Ending::BackupFailed },
                };
            }
            (
                if staged {
                    Step::PublishStage { aside: false }
                } else {
                    target_cleared(p)
                },
                Ending::BackupFailed,
            )
        },
        Step::InspectTarget => {
            return if ok {
                Step::ReserveRollback
            } else {
                Step::PublishStage { aside: false }
            };
        },
        Step::ReserveRollback => {
            return if ok {
                Step::MoveTargetAside
            } else {
                Step::DiscardStage { ending: Ending::NoRollbackPath }
            };
        },
        Step::MoveTargetAside => {
            return if ok {
                Step::PublishStage { aside: true }
            } else {
                Step::DiscardStage { ending: Ending::TargetStayed }
            };
        },
        Step::PublishStage { aside } => {
            return match (ok, aside) {
                (true, true) => Step::RemoveOldTarget,
                (true, false) => Step::FlushTarget,
                (false, true) => Step::PutTargetBack,
                (false, false) => Step::DiscardStage { ending: Ending::PublishFailed },
            };
        },
        Step::PutTargetBack => {
            return Step::DiscardStage { ending: Ending::PublishFailed };
        },
        Step::DiscardStage { ending } => {
            return Step::Finish { ending };
        },
        Step::RemoveOldTarget => (Step::FlushTarget, Ending::OldTargetRemains),
        Step::FlushTarget => (
            if p.is_move {
                Step::CleanUpReplaced
            } else {
                Step::Finish { ending: Ending::Done }
            },
            Ending::FlushFailed,
        ),
        Step::CleanUpReplaced => (Step::Finish { ending: Ending::Done }, Ending::CleanupFailed),
        Step::RemoveTarget => (target_cleared(p), Ending::RemovalFailed),
        Step::Premerge => {
            return premerged(p);
        },
        Step::CleanUpOnly => (Step::Finish { ending: Ending::Done }, Ending::SourceRetained),
        Step::Transfer => {
            return match status {
                Some(0) => Step::Flush,
                Some(24) => Step::Finish { ending: Ending::SourceVanished },
                _ => Step::Finish { ending: Ending::TransferFailed },
            };
        },
        Step::Flush => (flushed(p), Ending::FlushFailed),
        Step::RestoreTimes => (times_restored(p), Ending::TimesFailed),
        Step::CleanUp => (cleaned_up(p), Ending::CleanupFailed),
        Step::SyncCleanUp => (Step::Finish { ending: Ending::Done }, Ending::SyncCleanupFailed),
        Step::Finish { ending } => {
            return Step::Finish { ending };
        },
    };
    if ok {
        good
    } else {
        Step::Finish { ending: bad }
    }
}

/// A status as text.
pub open spec fn status_text(status: i32) -> Seq<char> {
    if status < 0 {
        "-"@ + text::decimal((-status) as nat)
    } else {
        text::decimal(status as nat)
    }
}

fn write_status(status: i32) -> (r: String)
    ensures
        r@ == status_text(status),
{
    if status < 0 {
        let mut out = text::copy("-");
        let n: u64 = (-(status as i64)) as u64;
        out.push_str(text::from_chars(text::number(n).as_slice()).as_str());
        out
    } else {
        text::from_chars(text::number(status as u64).as_slice())
    }
}

/// What is said at an ending, where the step that led to it leaves that open.
/// `status` is that of the transfer.
pub open spec fn ending_text(ending: Ending, mode: TransferMode, status: i32) -> Seq<Seq<char>> {
    match ending {
        Ending::NoStage => seq!["Failed to create staging directory."@],
        Ending::StageTransferFailed => seq![
            mode.word_cap_text() + " failed: rsync exited with status "@ + status_text(status)
                + "."@,
        ],
        Ending::NoRollbackPath => seq!["Failed to reserve an overwrite rollback path."@],
        Ending::TargetStayed => {
            seq!["Failed to reserve the existing destination for rollback."@]
        },
        Ending::PublishFailed => seq!["Failed to place staged directory into destination."@],
        Ending::OldTargetRemains => {
            seq!["Replacement succeeded but old destination cleanup failed."@]
        },
        Ending::FlushFailed => {
            seq!["Transfer completed but destination flush failed; refusing source cleanup."@]
        },
        Ending::NoSourceName => seq!["Failed to resolve the source directory basename."@],
        Ending::SourceRetained => {
            seq!["Move cleanup did not verify every source entry; source was retained."@]
        },
        Ending::SourceVanished => seq![
            mode.word_cap_text()
                + " failed: some source files vanished during transfer (rsync exit 24)."@,
            "Re-run "@ + mode.word_text() + " to converge once the source tree is stable."@,
        ],
        Ending::TransferFailed => seq![
            mode.word_cap_text() + " failed: transfer exited with status "@ + status_text(status)
                + "."@,
        ],
        _ => Seq::empty(),
    }
}

fn failed_with(mode: TransferMode, how: &str, status: i32) -> (r: String)
    ensures
        r@ == mode.word_cap_text() + how@ + status_text(status) + "."@,
{
    let mut out = text::copy(mode.word_cap());
    out.push_str(how);
    out.push_str(write_status(status).as_str());
    out.push_str(".");
    out
}

/// Says what an ending means.
pub fn explain_ending(ending: Ending, mode: TransferMode, status: i32) -> (r: Vec<String>)
    ensures
        text::texts(r@) == ending_text(ending, mode, status),
{
    let mut out: Vec<String> = Vec::new();
    let ghost none = text::texts(out@);
    assert(none == Seq::<Seq<char>>::empty());
    match ending {
        Ending::NoStage => text::push_text(&mut out, "Failed to create staging directory."),
        Ending::StageTransferFailed => {
            let line = failed_with(mode, " failed: rsync exited with status ", status);
            text::push_text(&mut out, line.as_str());
        },
        Ending::NoRollbackPath => {
            text::push_text(&mut out, "Failed to reserve an overwrite rollback path.");
        },
        Ending::TargetStayed => {
            text::push_text(&mut out, "Failed to reserve the existing destination for rollback.");
        },
        Ending::PublishFailed => {
            text::push_text(&mut out, "Failed to place staged directory into destination.");
        },
        Ending::OldTargetRemains => {
            text::push_text(&mut out, "Replacement succeeded but old destination cleanup failed.");
        },
        Ending::FlushFailed => {
            text::push_text(
                &mut out,
                "Transfer completed but destination flush failed; refusing source cleanup.",
            );
        },
        Ending::NoSourceName => {
            text::push_text(&mut out, "Failed to resolve the source directory basename.");
        },
        Ending::SourceRetained => {
            text::push_text(
                &mut out,
                "Move cleanup did not verify every source entry; source was retained.",
            );
        },
        Ending::SourceVanished => {
            let mut first = text::copy(mode.word_cap());
            first.push_str(
                " failed: some source files vanished during transfer (rsync exit 24).",
            );
            let mut second = text::copy("Re-run ");
            second.push_str(mode.word());
            second.push_str(" to converge once the source tree is stable.");
            text::push_text(&mut out, first.as_str());
            text::push_text(&mut out, second.as_str());
        },
        Ending::TransferFailed => {
            let line = failed_with(mode, " failed: transfer exited with status ", status);
            text::push_text(&mut out, line.as_str());
        },
        _ => {},
    }
    assert(text::texts(out@) =~~= ending_text(ending, mode, status));
    out
}

/// The exit status that an ending gives.
pub fn exit_code(ending: Ending) -> (r: i32)
    ensures
        r == (if ending == Ending::Done {
            0i32
        } else {
            1i32
        }),
{
    match ending {
        Ending::Done => 0,
        _ => 1,
    }
}

/// A course that an execution can take: the steps with their results.
pub open spec fn is_course(p: ExecutionPlan, course: Seq<(Step, StepResult)>) -> bool {
    &&& course.len() > 0 ==> course[0].0 == first_step_of(p)
    &&& forall|i: int|
        0 <= i < course.len() - 1 ==> #[trigger] course[i + 1].0 == next_step_of(
            p,
            course[i].0,
            course[i].1,
        )
}

/// Whether some step before `k` went well.
pub open spec fn succeeded_before(
    course: Seq<(Step, StepResult)>,
    k: int,
    a: Step,
    b: Step,
) -> bool {
    exists|j: int|
        0 <= j < k && (#[trigger] course[j].0 == a || course[j].0 == b) && course[j].1
            == StepResult::Succeeded
}

/// After a transfer, the source is cleaned up only once the destination was
/// flushed.
pub proof fn law_cleanup_follows_a_flush(
    p: ExecutionPlan,
    course: Seq<(Step, StepResult)>,
    k: int,
)
    requires
        is_course(p, course),
        0 <= k < course.len(),
        course[k].0 == Step::CleanUp || course[k].0 == Step::CleanUpReplaced,
    ensures
        p.is_move,
        succeeded_before(course, k, Step::Flush, Step::FlushTarget),
{
    assert(k > 0);
    assert(course[k - 1 + 1].0 == next_step_of(p, course[k - 1].0, course[k - 1].1));
    if course[k - 1].0 == Step::RestoreTimes {
        assert(k - 1 > 0);
        assert(course[k - 2 + 1].0 == next_step_of(p, course[k - 2].0, course[k - 2].1));
        assert(course[k - 2].0 == Step::Flush);
        assert(course[k - 2].1 == StepResult::Succeeded);
    } else {
        assert(course[k - 1].1 == StepResult::Succeeded);
    }
}

/// A copy never touches its source.
pub proof fn law_a_copy_keeps_its_source(
    p: ExecutionPlan,
    course: Seq<(Step, StepResult)>,
    k: int,
)
    requires
        is_course(p, course),
        0 <= k < course.len(),
        is_consistent(p),
        !p.is_move,
    ensures
        course[k].0 != Step::CleanUp,
        course[k].0 != Step::CleanUpReplaced,
        course[k].0 != Step::CleanUpOnly,
        course[k].0 != Step::Premerge,
{
    if k > 0 {
        assert(course[k - 1 + 1].0 == next_step_of(p, course[k - 1].0, course[k - 1].1));
    }
}

/// A staged replacement gives up the old target only once the new one stands
/// in its place.
pub proof fn law_old_target_outlives_publication(
    p: ExecutionPlan,
    course: Seq<(Step, StepResult)>,
    k: int,
)
    requires
        is_course(p, course),
        0 <= k < course.len(),
        course[k].0 == Step::RemoveOldTarget,
    ensures
        k > 0,
        course[k - 1] == (Step::PublishStage { aside: true }, StepResult::Succeeded),
{
    assert(k > 0);
    assert(course[k - 1 + 1].0 == next_step_of(p, course[k - 1].0, course[k - 1].1));
}

/// Where publication fails, a target that was moved aside is put back.
pub proof fn law_failed_publication_is_undone(p: ExecutionPlan, result: StepResult)
    requires
        result != StepResult::Succeeded,
    ensures
        next_step_of(p, Step::PublishStage { aside: true }, result) == Step::PutTargetBack,
        next_step_of(p, Step::PutTargetBack, result) == (Step::DiscardStage {
            ending: Ending::PublishFailed,
        }),
{
}

/// Whether a step with a result stands before `k`.
pub open spec fn had(course: Seq<(Step, StepResult)>, k: int, step: Step, result: StepResult) -> bool {
    exists|j: int| 0 <= j < k && #[trigger] course[j] == (step, result)
}

/// Whether the target was moved to its backup path before `k`.
pub open spec fn backed_up_before(course: Seq<(Step, StepResult)>, k: int) -> bool {
    exists|j: int|
        0 <= j < k && (#[trigger] course[j]).0 is BackUpTarget && course[j].1
            == StepResult::Succeeded
}

/// Whether a transfer, or one to a stage, has succeeded before `k`.
pub open spec fn transferred_before(course: Seq<(Step, StepResult)>, k: int, step: Step) -> bool {
    had(course, k, step, StepResult::Exit { status: 0 })
}

proof fn lemma_had_grows(course: Seq<(Step, StepResult)>, j: int, k: int)
    requires
        j <= k,
    ensures
        forall|s: Step, r: StepResult| #[trigger] had(course, j, s, r) ==> had(course, k, s, r),
        backed_up_before(course, j) ==> backed_up_before(course, k),
{
    assert forall|s: Step, r: StepResult| #[trigger] had(course, j, s, r) implies had(
        course,
        k,
        s,
        r,
    ) by {
        let i = choose|i: int| 0 <= i < j && #[trigger] course[i] == (s, r);
        assert(course[i] == (s, r));
    }
    if backed_up_before(course, j) {
        let i = choose|i: int|
            0 <= i < j && (#[trigger] course[i]).0 is BackUpTarget && course[i].1
                == StepResult::Succeeded;
        assert(course[i].0 is BackUpTarget);
    }
}

/// Whether a step belongs to a replacement that is staged.
pub open spec fn is_staged_step(step: Step) -> bool {
    match step {
        Step::CreateStage => true,
        Step::TransferToStage => true,
        Step::BackUpTarget { staged } => staged,
        Step::InspectTarget => true,
        Step::ReserveRollback => true,
        Step::MoveTargetAside => true,
        Step::PublishStage { .. } => true,
        Step::PutTargetBack => true,
        Step::DiscardStage { .. } => true,
        Step::RemoveOldTarget => true,
        Step::FlushTarget => true,
        Step::CleanUpReplaced => true,
        _ => false,
    }
}

/// Whether a step belongs to a transfer to its place.
pub open spec fn is_direct_step(step: Step) -> bool {
    match step {
        Step::BackUpTarget { staged } => !staged,
        Step::RemoveTarget => true,
        Step::Premerge => true,
        Step::CleanUpOnly => true,
        Step::Transfer => true,
        Step::Flush => true,
        Step::RestoreTimes => true,
        Step::CleanUp => true,
        Step::SyncCleanUp => true,
        _ => false,
    }
}

/// Whether a step comes once the target is out of the way and the new contents take
/// its place.
pub open spec fn takes_place(step: Step) -> bool {
    match step {
        Step::PublishStage { .. } => true,
        Step::PutTargetBack => true,
        Step::RemoveOldTarget => true,
        Step::FlushTarget => true,
        Step::CleanUpReplaced => true,
        Step::Premerge => true,
        Step::CleanUpOnly => true,
        Step::Transfer => true,
        Step::Flush => true,
        Step::RestoreTimes => true,
        Step::CleanUp => true,
        Step::SyncCleanUp => true,
        Step::Finish { ending } => ending == Ending::Done,
        _ => false,
    }
}

proof fn lemma_steps_of_a_kind(p: ExecutionPlan, course: Seq<(Step, StepResult)>, k: int)
    requires
        is_course(p, course),
        0 <= k < course.len(),
    ensures
        is_staged_step(course[k].0) ==> p.overwrites && p.staged,
        is_direct_step(course[k].0) ==> !(p.overwrites && p.staged),
        course[k].0 is BackUpTarget || course[k].0 == Step::RemoveTarget ==> p.overwrites,
        course[k].0 is BackUpTarget ==> p.backup,
        course[k].0 == Step::RemoveTarget ==> !p.backup && !p.staged,
        course[k].0 == Step::InspectTarget ==> !p.backup,
        course[k].0 == Step::ReserveRollback ==> !p.backup,
        course[k].0 == Step::MoveTargetAside ==> !p.backup,
        course[k].0 == Step::RemoveOldTarget ==> !p.backup,
        course[k].0 == Step::PutTargetBack ==> !p.backup,
        course[k].0 == (Step::PublishStage { aside: true }) ==> !p.backup,
        course[k].0 == Step::BackUpFirst ==> p.backs_up_first && k == 0,
        course[k].0 == Step::SyncCleanUp ==> p.sync_deletes,
        course[k].0 == Step::CleanUpOnly ==> p.cleanup_only,
        course[k].0 == Step::Transfer ==> !p.cleanup_only,
        course[k].0 == Step::Premerge ==> p.premerges,
        course[k].0 == Step::CleanUp || course[k].0 == Step::CleanUpReplaced ==> p.is_move,
        !(course[k].0 is DiscardStage && course[k].0->DiscardStage_ending == Ending::Done),
    decreases k,
{
    if k > 0 {
        assert(course[k - 1 + 1].0 == next_step_of(p, course[k - 1].0, course[k - 1].1));
        lemma_steps_of_a_kind(p, course, k - 1);
    }
}

/// In an execution that overwrites with a backup, nothing takes the place of the target
/// before the target was moved to its backup path, and the target is never removed nor
/// moved anywhere else.
pub proof fn law_a_backup_comes_before_the_replacement(
    p: ExecutionPlan,
    course: Seq<(Step, StepResult)>,
    k: int,
)
    requires
        p.backup && p.overwrites,
        is_course(p, course),
        0 <= k < course.len(),
    ensures
        takes_place(course[k].0) ==> backed_up_before(course, k),
        course[k].0 != Step::RemoveOldTarget,
        course[k].0 != Step::RemoveTarget,
        course[k].0 != Step::MoveTargetAside,
        course[k].0 != (Step::PublishStage { aside: true }),
    decreases k,
{
    lemma_steps_of_a_kind(p, course, k);
    if k > 0 {
        assert(course[k - 1 + 1].0 == next_step_of(p, course[k - 1].0, course[k - 1].1));
        law_a_backup_comes_before_the_replacement(p, course, k - 1);
        lemma_steps_of_a_kind(p, course, k - 1);
        lemma_had_grows(course, k - 1, k);
        if course[k - 1].0 is BackUpTarget && course[k - 1].1 == StepResult::Succeeded {
            assert(backed_up_before(course, k));
        }
    }
}

/// Where something is backed up that is not overwritten, everything else waits for that
/// backup.
pub proof fn law_the_first_backup_comes_first(
    p: ExecutionPlan,
    course: Seq<(Step, StepResult)>,
    k: int,
)
    requires
        p.backs_up_first,
        is_course(p, course),
        0 < k < course.len(),
        course[k].0 != finish(Ending::BackupFailed) || course[0].1 == StepResult::Succeeded,
    ensures
        course[0] == (Step::BackUpFirst, StepResult::Succeeded),
    decreases k,
{
    assert(course[k - 1 + 1].0 == next_step_of(p, course[k - 1].0, course[k - 1].1));
    if k > 1 {
        assert(course[k - 2 + 1].0 == next_step_of(p, course[k - 2].0, course[k - 2].1));
        if course[k - 1].0 != finish(Ending::BackupFailed) || course[0].1 == StepResult::Succeeded {
            law_the_first_backup_comes_first(p, course, k - 1);
        }
    }
}

/// A target is removed or moved only by an execution that overwrites: without a backup
/// it is removed outright only where the replacement is not staged, and beside a stage
/// only once the stage was filled.
pub proof fn law_targets_go_only_to_make_room(
    p: ExecutionPlan,
    course: Seq<(Step, StepResult)>,
    k: int,
)
    requires
        is_course(p, course),
        0 <= k < course.len(),
    ensures
        course[k].0 is BackUpTarget ==> p.overwrites && p.backup,
        course[k].0 == Step::RemoveTarget ==> p.overwrites && !p.backup && !p.staged,
        course[k].0 == Step::MoveTargetAside || course[k].0 == Step::RemoveOldTarget
            ==> p.overwrites && p.staged && !p.backup,
        course[k].0 == (Step::BackUpTarget { staged: true }) || course[k].0 == Step::MoveTargetAside
            || course[k].0 is PublishStage || course[k].0 == Step::RemoveOldTarget
            ==> transferred_before(course, k, Step::TransferToStage),
    decreases k,
{
    lemma_steps_of_a_kind(p, course, k);
    lemma_stage_is_filled(p, course, k);
}

proof fn lemma_stage_is_filled(p: ExecutionPlan, course: Seq<(Step, StepResult)>, k: int)
    requires
        is_course(p, course),
        0 <= k < course.len(),
    ensures
        (match course[k].0 {
            Step::BackUpTarget { staged } => staged,
            Step::InspectTarget => true,
            Step::ReserveRollback => true,
            Step::MoveTargetAside => true,
            Step::PublishStage { .. } => true,
            Step::PutTargetBack => true,
            Step::RemoveOldTarget => true,
            Step::FlushTarget => true,
            Step::CleanUpReplaced => true,
            _ => false,
        }) ==> transferred_before(course, k, Step::TransferToStage),
    decreases k,
{
    if k > 0 {
        assert(course[k - 1 + 1].0 == next_step_of(p, course[k - 1].0, course[k - 1].1));
        lemma_stage_is_filled(p, course, k - 1);
        lemma_had_grows(course, k - 1, k);
        if course[k - 1] == (Step::TransferToStage, StepResult::Exit { status: 0 }) {
            assert(had(course, k, Step::TransferToStage, StepResult::Exit { status: 0 }));
        }
    }
}

/// The source is removed only after all of it was transferred: to its place, or to a
/// stage that was then published.
pub proof fn law_sources_go_after_the_transfer(
    p: ExecutionPlan,
    course: Seq<(Step, StepResult)>,
    k: int,
)
    requires
        is_course(p, course),
        0 <= k < course.len(),
    ensures
        course[k].0 == Step::CleanUp ==> p.is_move && transferred_before(course, k, Step::Transfer),
        course[k].0 == Step::CleanUpReplaced ==> p.is_move && transferred_before(
            course,
            k,
            Step::TransferToStage,
        ) && published_before(course, k),
        course[k].0 == Step::CleanUpOnly ==> p.cleanup_only,
{
    lemma_steps_of_a_kind(p, course, k);
    lemma_stage_is_filled(p, course, k);
    lemma_progress(p, course, k);
}

/// Whether a stage was published before `k`.
pub open spec fn published_before(course: Seq<(Step, StepResult)>, k: int) -> bool {
    exists|j: int|
        0 <= j < k && (#[trigger] course[j]).0 is PublishStage && course[j].1
            == StepResult::Succeeded
}

/// What has gone well once a step is reached.
spec fn is_progress(p: ExecutionPlan, course: Seq<(Step, StepResult)>, k: int) -> bool {
    let ok = StepResult::Succeeded;
    let step = course[k].0;
    let flushed = had(course, k, Step::Flush, ok) && transferred_before(course, k, Step::Transfer);
    let timed = p.source_is_dir && p.has_manifest ==> p.source_has_name && had(
        course,
        k,
        Step::RestoreTimes,
        ok,
    );
    let cleaned = p.is_move ==> had(course, k, Step::CleanUp, ok);
    let replaced = published_before(course, k) && transferred_before(
        course,
        k,
        Step::TransferToStage,
    );
    match step {
        Step::Flush => transferred_before(course, k, Step::Transfer),
        Step::RestoreTimes => flushed && p.source_has_name,
        Step::CleanUp => flushed && timed,
        Step::SyncCleanUp => flushed && timed && cleaned,
        Step::RemoveOldTarget => replaced,
        Step::FlushTarget => replaced,
        Step::CleanUpReplaced => replaced && had(course, k, Step::FlushTarget, ok),
        Step::Finish { ending } => ending == Ending::Done ==> {
            ||| p.cleanup_only && had(course, k, Step::CleanUpOnly, ok)
            ||| replaced && had(course, k, Step::FlushTarget, ok) && (p.is_move ==> had(
                course,
                k,
                Step::CleanUpReplaced,
                ok,
            ))
            ||| flushed && timed && cleaned && (p.sync_deletes ==> had(
                course,
                k,
                Step::SyncCleanUp,
                ok,
            ))
        },
        _ => true,
    }
}

proof fn lemma_published_grows(course: Seq<(Step, StepResult)>, j: int, k: int)
    requires
        j <= k,
        published_before(course, j),
    ensures
        published_before(course, k),
{
    let i = choose|i: int|
        0 <= i < j && (#[trigger] course[i]).0 is PublishStage && course[i].1
            == StepResult::Succeeded;
    assert(course[i].0 is PublishStage);
}

proof fn lemma_progress(p: ExecutionPlan, course: Seq<(Step, StepResult)>, k: int)
    requires
        is_course(p, course),
        0 <= k < course.len(),
    ensures
        is_progress(p, course, k),
    decreases k,
{
    if k > 0 {
        let before = course[k - 1];
        assert(course[k - 1 + 1].0 == next_step_of(p, before.0, before.1));
        lemma_progress(p, course, k - 1);
        lemma_had_grows(course, k - 1, k);
        lemma_stage_is_filled(p, course, k);
        lemma_stage_is_filled(p, course, k - 1);
        lemma_steps_of_a_kind(p, course, k - 1);
        if published_before(course, k - 1) {
            lemma_published_grows(course, k - 1, k);
        }
        if before.0 is PublishStage && before.1 == StepResult::Succeeded {
            assert(published_before(course, k));
        }
        assert(had(course, k, before.0, before.1)) by {
            assert(course[k - 1] == (before.0, before.1));
        }
    }
}

/// An execution ends well only if everything that it had to do went well: the transfer
/// to its place with its flush, the times of the directories, the cleanup of a move and
/// the deletions of a sync; or the transfer to a stage, its publication and flush, and
/// the cleanup of a move; or the cleanup, where that was all.
pub proof fn law_done_means_all_was_done(
    p: ExecutionPlan,
    course: Seq<(Step, StepResult)>,
    k: int,
)
    requires
        is_course(p, course),
        0 <= k < course.len(),
        course[k].0 == finish(Ending::Done),
    ensures
        ({
            let ok = StepResult::Succeeded;
            ||| {
                &&& p.cleanup_only
                &&& had(course, k, Step::CleanUpOnly, ok)
            }
            ||| {
                &&& transferred_before(course, k, Step::TransferToStage)
                &&& published_before(course, k)
                &&& had(course, k, Step::FlushTarget, ok)
                &&& p.is_move ==> had(course, k, Step::CleanUpReplaced, ok)
            }
            ||| {
                &&& transferred_before(course, k, Step::Transfer)
                &&& had(course, k, Step::Flush, ok)
                &&& p.source_is_dir && p.has_manifest ==> p.source_has_name && had(
                    course,
                    k,
                    Step::RestoreTimes,
                    ok,
                )
                &&& p.is_move ==> had(course, k, Step::CleanUp, ok)
                &&& p.sync_deletes ==> had(course, k, Step::SyncCleanUp, ok)
            }
        }),
{
    lemma_progress(p, course, k);
}

/// A sync deletes at the destination only what it was told to, and only once the
/// transfer was flushed.
pub proof fn law_deletions_come_last(
    p: ExecutionPlan,
    course: Seq<(Step, StepResult)>,
    k: int,
)
    requires
        is_course(p, course),
        0 <= k < course.len(),
        course[k].0 == Step::SyncCleanUp,
    ensures
        p.sync_deletes,
        transferred_before(course, k, Step::Transfer),
        had(course, k, Step::Flush, StepResult::Succeeded),
        p.is_move ==> had(course, k, Step::CleanUp, StepResult::Succeeded),
{
    lemma_steps_of_a_kind(p, course, k);
    lemma_progress(p, course, k);
}

/// A stage is made, filled and published exactly by an execution that replaces through
/// one; any other transfers straight to its place.
pub proof fn law_stages_are_for_staged_replacements(
    p: ExecutionPlan,
    course: Seq<(Step, StepResult)>,
    k: int,
)
    requires
        is_course(p, course),
        0 <= k < course.len(),
    ensures
        is_staged_step(course[k].0) ==> p.overwrites && p.staged,
        is_direct_step(course[k].0) ==> !(p.overwrites && p.staged),
{
    lemma_steps_of_a_kind(p, course, k);
}

/// A transfer that fails is the end: nothing is cleaned up or deleted after it, a stage
/// that it was filling is discarded, and the ending tells of the failure.
pub proof fn law_failed_transfers_end_it(
    p: ExecutionPlan,
    course: Seq<(Step, StepResult)>,
    j: int,
    k: int,
)
    requires
        is_course(p, course),
        0 <= j < k < course.len(),
        course[j].0 == Step::Transfer || course[j].0 == Step::TransferToStage,
        course[j].1 != (StepResult::Exit { status: 0 }),
    ensures
        course[j].0 == Step::TransferToStage && k == j + 1 ==> course[k].0 is DiscardStage,
        course[k].0 is DiscardStage || course[k].0 is Finish,
        course[k].0 != finish(Ending::Done),
        course[k].0 is DiscardStage ==> course[k].0->DiscardStage_ending
            == Ending::StageTransferFailed,
    decreases k,
{
    assert(course[k - 1 + 1].0 == next_step_of(p, course[k - 1].0, course[k - 1].1));
    if j < k - 1 {
        law_failed_transfers_end_it(p, course, j, k - 1);
        lemma_steps_of_a_kind(p, course, k - 1);
    }
}

/// An ending stays, and nothing is done after it.
pub proof fn law_an_ending_is_the_end(
    p: ExecutionPlan,
    course: Seq<(Step, StepResult)>,
    j: int,
    k: int,
)
    requires
        is_course(p, course),
        0 <= j <= k < course.len(),
        course[j].0 is Finish,
    ensures
        course[k].0 == course[j].0,
    decreases k,
{
    if j < k {
        assert(course[k - 1 + 1].0 == next_step_of(p, course[k - 1].0, course[k - 1].1));
        law_an_ending_is_the_end(p, course, j, k - 1);
    }
}

/// A plan carries out what was asked for: it moves, backs up and deletes exactly where
/// that was wanted, replaces a directory by a directory through a stage, and renames
/// children beforehand only in a move of contents that neither replaces nor backs up.
pub proof fn law_plans_carry_out_the_request(p: Placement, e: LocalEnds, f: PlanFacts)
    ensures
        ({
            let r = execution_plan(p, e, f);
            let dir = e.source_kind == SrcObjKind::Dir;
            &&& r.is_move == f.is_move
            &&& r.backup == f.backup
            &&& r.overwrites <==> f.target is Some
            &&& r.backs_up_first <==> f.backs_up && f.target is None
            &&& r.staged ==> r.overwrites
            &&& dir && f.target == Some(ObjectKind::Dir) ==> r.staged
            &&& p.replaces_parent && f.target is Some ==> r.staged
            &&& !dir && !p.replaces_parent ==> !r.staged
            &&& f.target == Some(ObjectKind::File) && !p.replaces_parent ==> !r.staged
            &&& r.premerges ==> f.is_move && dir && p.contents_mode && !f.backup
                && !f.overwrite_needed && !f.sudo
            &&& r.premerges ==> !p.replaces_parent && !p.replaces_directory && !p.replaces_file
                && !p.already_there
            &&& r.cleanup_only == f.cleanup_only
            &&& r.source_is_dir == dir
            &&& r.source_has_name == f.source_has_name
            &&& r.has_manifest == f.has_manifest
            &&& r.sync_deletes ==> f.sync && f.has_manifest && f.has_deletions && !f.sudo
            &&& f.sync && f.has_manifest && f.has_deletions && !f.sudo ==> r.sync_deletes
        }),
{
}

/// Nothing is left undone where there is something to do: bytes, changes or a
/// replacement that are planned, or deletions of a sync, unless all is in place already.
pub proof fn law_planned_work_is_work(w: WorkFacts)
    requires
        !w.already_there,
        w.planned_bytes > 0 || w.has_planned_changes || w.overwrite_needed || w.sync && (
        w.uncollided_files > 0 || w.uncollided_dirs > 0),
    ensures
        !work_of(w).nothing_to_do,
        !work_of(w).cleanup_only || w.sync && !(w.planned_bytes > 0 || w.has_planned_changes
            || w.overwrite_needed),
        work_of(w).emphasize_root,
{
}

/// Without planned work a copy has nothing to do, and what is in place already never
/// has.
pub proof fn law_idle_plans_do_nothing(w: WorkFacts)
    ensures
        w.already_there ==> work_of(w).nothing_to_do && !work_of(w).cleanup_only,
        (!w.is_move && w.planned_bytes == 0 && !w.has_planned_changes && !w.overwrite_needed && !(
        w.sync && (w.uncollided_files > 0 || w.uncollided_dirs > 0))) ==> work_of(w).nothing_to_do,
        work_of(w).cleanup_only ==> w.is_move && w.conflict && w.planned_bytes == 0
            && !w.has_planned_changes && !w.overwrite_needed,
        (w.is_move && !w.already_there && w.conflict && w.planned_bytes == 0
            && !w.has_planned_changes && !w.overwrite_needed) ==> work_of(w).cleanup_only,
        work_of(w).sync_deletes <==> w.sync && (w.uncollided_files > 0 || w.uncollided_dirs > 0),
        work_of(w).announce_deletions ==> work_of(w).sync_deletes,
        work_of(w).announce_overwrite ==> w.overwrite_needed,
{
}

/// A counts row repeats the counts of the plan, and says what goes: of the source what a
/// move removes, of the destination what a sync finds without a counterpart, or else what
/// is replaced.
pub proof fn law_rows_tell_what_goes(c: PlanCounts, sync: bool, removed: u64, replaced: u64)
    ensures
        ({
            let row = count_row(c, sync, removed, replaced);
            &&& row.added == c.added && row.modified == c.modified && row.uncollided == c.uncollided
            &&& row.deleted_source == removed
            &&& sync ==> row.deleted_destination == c.uncollided
            &&& !sync ==> row.deleted_destination == replaced
        }),
{
}

/// A line typed at the prompt agrees exactly if it is empty but for white space, or says
/// `y` or `yes`, in any case; an input that has ended never agrees.
pub proof fn law_only_yes_agrees(line: Seq<char>)
    ensures
        line.len() == 0 <==> answer_of(line) == Answer::Ended,
        answer_of(line) == Answer::Yes ==> {
            let word = text::lower(text::trimmed(line));
            word.len() == 0 || word == "y"@ || word == "yes"@
        },
        line.len() > 0 && text::trimmed(line).len() == 0 ==> answer_of(line) == Answer::Yes,
        text::lower(text::trimmed(line)) == "no"@ ==> answer_of(line) == Answer::No,
        text::lower(text::trimmed(line)) == "n"@ ==> answer_of(line) == Answer::No,
{
    reveal_strlit("y");
    reveal_strlit("yes");
    reveal_strlit("no");
    reveal_strlit("n");
    assert("no"@.len() == 2 && "n"@.len() == 1 && "y"@.len() == 1 && "yes"@.len() == 3);
    assert("n"@[0] == 'n' && "y"@[0] == 'y');
    if line.len() == 0 {
        assert(text::trimmed(line).len() == 0);
    }
}

/// A pass of plain renames takes off what it has done, and never more than there was.
pub proof fn law_renames_are_taken_off(left: Remaining, s: PreMergeFastRenameStats)
    ensures
        ({
            let r = remaining_after(left, s);
            &&& r.planned_bytes <= left.planned_bytes
            &&& r.cleanup.files <= left.cleanup.files
            &&& r.cleanup.bytes <= left.cleanup.bytes
            &&& s.moved_entries > 0 && s.removed_copy_bytes <= left.planned_bytes
                ==> r.planned_bytes + s.removed_copy_bytes == left.planned_bytes
            &&& s.moved_entries > 0 && s.moved_files <= left.cleanup.files ==> r.cleanup.files
                + s.moved_files == left.cleanup.files
            &&& s.moved_entries > 0 && s.moved_bytes <= left.cleanup.bytes ==> r.cleanup.bytes
                + s.moved_bytes == left.cleanup.bytes
            &&& s.moved_entries == 0 ==> r == left
        }),
{
}

/// What a move is expected to remove is what its list says, or the whole source where
/// the list is empty; a copy removes nothing.
pub proof fn law_only_moves_remove(listed: u64, total: Option<u64>)
    ensures
        likely_removed(false, listed, total) == 0,
        listed > 0 ==> likely_removed(true, listed, total) == listed,
        likely_removed(true, 0, None) == 0,
        total matches Some(n) ==> likely_removed(true, 0, total) == n,
{
}

/// How many steps can still follow.
pub open spec fn steps_left(step: Step) -> nat {
    match step {
        Step::Finish { .. } => 0,
        Step::SyncCleanUp | Step::CleanUpReplaced | Step::CleanUpOnly | Step::DiscardStage {
            ..
        } => 1,
        Step::CleanUp | Step::FlushTarget | Step::PutTargetBack => 2,
        Step::RestoreTimes | Step::RemoveOldTarget => 3,
        Step::Flush | Step::PublishStage { aside: true } => 4,
        Step::Transfer | Step::MoveTargetAside => 5,
        Step::PublishStage { aside: false } => 5,
        Step::Premerge | Step::ReserveRollback => 6,
        Step::RemoveTarget | Step::InspectTarget | Step::BackUpTarget { .. } => 7,
        Step::TransferToStage => 8,
        Step::CreateStage => 9,
        Step::BackUpFirst => 10,
    }
}

/// Every execution ends: each step leaves fewer to come.
pub proof fn law_execution_ends(p: ExecutionPlan, step: Step, result: StepResult)
    requires
        !(step is Finish),
    ensures
        steps_left(next_step_of(p, step, result)) < steps_left(step),
        steps_left(first_step_of(p)) <= 10,
{
}

/// The sizes of the work that is left.
#[derive(Clone, Copy, Debug, PartialEq, Eq, Structural)]
pub struct Remaining {
    pub planned_bytes: u64,
    pub cleanup: CleanupTotals,
}

/// What is left of the work after a pass of plain renames.
pub open spec fn remaining_after(left: Remaining, s: PreMergeFastRenameStats) -> Remaining {
    if s.moved_entries == 0 {
        left
    } else {
        Remaining {
            planned_bytes: domain::sat_sub(left.planned_bytes, s.removed_copy_bytes),
            cleanup: CleanupTotals {
                files: domain::sat_sub(left.cleanup.files, s.moved_files),
                bytes: domain::sat_sub(left.cleanup.bytes, s.moved_bytes),
            },
        }
    }
}

/// Takes off what plain renames have done.
pub fn take_off(left: Remaining, s: PreMergeFastRenameStats) -> (r: Remaining)
    ensures
        r == remaining_after(left, s),
{
    if s.moved_entries == 0 {
        left
    } else {
        Remaining {
            planned_bytes: left.planned_bytes.saturating_sub(s.removed_copy_bytes),
            cleanup: CleanupTotals {
                files: left.cleanup.files.saturating_sub(s.moved_files),
                bytes: left.cleanup.bytes.saturating_sub(s.moved_bytes),
            },
        }
    }
}

/// Adds what one removal pass deleted to what others did.
pub fn add_deleted(total: &mut DeleteCleanupOutcome, part: DeleteCleanupOutcome)
    ensures
        final(total).files == domain::sat_add(old(total).files, part.files),
        final(total).bytes == domain::sat_add(old(total).bytes, part.bytes),
        final(total).success == old(total).success,
{
    total.files = total.files.saturating_add(part.files);
    total.bytes = total.bytes.saturating_add(part.bytes);
}

/// The names in a list of files are those of its files, the empty one left out.
pub proof fn law_listed_files_are_named(files: Seq<ManifestFileEntry>, n: Seq<char>)
    ensures
        named(files).contains(n) <==> n.len() > 0 && exists|i: int|
            0 <= i < files.len() && (#[trigger] files[i]).rel@ == n,
    decreases files.len(),
{
    if files.len() > 0 {
        let less = files.drop_last();
        law_listed_files_are_named(less, n);
        if exists|i: int| 0 <= i < less.len() && (#[trigger] less[i]).rel@ == n {
            let i = choose|i: int| 0 <= i < less.len() && (#[trigger] less[i]).rel@ == n;
            assert(files[i].rel@ == n);
        }
        assert(files[files.len() - 1] == files.last());
        if exists|i: int| 0 <= i < files.len() && (#[trigger] files[i]).rel@ == n {
            let i = choose|i: int| 0 <= i < files.len() && (#[trigger] files[i]).rel@ == n;
            if i < less.len() {
                assert(less[i].rel@ == n);
            }
        }
    }
}

/// A file that is listed adds its size, unless it has no name or one that is listed before.
pub proof fn law_listed_files_count_once(files: Seq<ManifestFileEntry>, f: ManifestFileEntry)
    ensures
        f.rel@.len() == 0 ==> named_bytes(files.push(f)) == named_bytes(files),
        (exists|i: int| 0 <= i < files.len() && (#[trigger] files[i]).rel@ == f.rel@)
            ==> named_bytes(files.push(f)) == named_bytes(files),
        f.rel@.len() > 0 && (forall|i: int|
            0 <= i < files.len() ==> (#[trigger] files[i]).rel@ != f.rel@) && named_bytes(files)
            + f.size <= u64::MAX ==> named_bytes(files.push(f)) == named_bytes(files) + f.size,
{
    law_listed_files_are_named(files, f.rel@);
    assert(files.push(f).drop_last() == files);
    assert(files.push(f).last() == f);
}

/// A target that stands is set aside before the stage takes its place, and only such a one
/// is; the place to put it is reserved first.
pub proof fn law_a_target_that_stands_is_set_aside(p: ExecutionPlan, result: StepResult)
    ensures
        next_step_of(p, Step::InspectTarget, result) is ReserveRollback <==> result
            == StepResult::Succeeded,
        next_step_of(p, Step::InspectTarget, result) == (Step::PublishStage { aside: false })
            <==> result != StepResult::Succeeded,
        next_step_of(p, Step::ReserveRollback, result) is MoveTargetAside <==> result
            == StepResult::Succeeded,
        next_step_of(p, Step::MoveTargetAside, result) == (Step::PublishStage { aside: true })
            <==> result == StepResult::Succeeded,
        next_step_of(p, Step::PublishStage { aside: true }, result) is RemoveOldTarget <==> result
            == StepResult::Succeeded,
{
}

/// Whether a step can fail and so end an execution.
pub open spec fn can_fail(step: Step) -> bool {
    !(step is InspectTarget || step is Premerge || step is PutTargetBack || step is DiscardStage
        || step is Finish)
}

/// A step that fails leads to an ending that tells of a failure, once what was begun is put
/// back; and one that succeeds does not, but for a directory without a name, whose times
/// cannot be restored.
pub proof fn law_failures_are_told(p: ExecutionPlan, step: Step, result: StepResult)
    requires
        can_fail(step),
    ensures
        result != StepResult::Succeeded && result != (StepResult::Exit { status: 0 }) ==> ({
            let next = next_step_of(p, step, result);
            ||| next is PutTargetBack
            ||| next matches Step::DiscardStage { ending } && ending != Ending::Done
            ||| next matches Step::Finish { ending } && ending != Ending::Done
        }),
        result == StepResult::Succeeded && !(step is Transfer || step is TransferToStage) ==> (
        next_step_of(p, step, result) matches Step::Finish { ending } ==> ending == Ending::Done || (
        ending == Ending::NoSourceName && step is Flush && p.source_is_dir && !p.source_has_name)),
        result == StepResult::Succeeded && !(step is TransferToStage) ==> !(next_step_of(
            p,
            step,
            result,
        ) is DiscardStage),
        result == (StepResult::Exit { status: 0 }) && (step is Transfer || step is TransferToStage)
            ==> !(next_step_of(p, step, result) is Finish || next_step_of(p, step, result)
            is DiscardStage),
{
}

/// An ending tells which step failed.
pub proof fn law_endings_tell_the_step(p: ExecutionPlan, step: Step, result: StepResult)
    requires
        can_fail(step),
    ensures
        ({
            let next = next_step_of(p, step, result);
            let told = match next {
                Step::Finish { ending } => Some(ending),
                Step::DiscardStage { ending } => Some(ending),
                _ => None,
            };
            &&& told == Some(Ending::BackupFailed) ==> step is BackUpFirst || step is BackUpTarget
            &&& told == Some(Ending::NoStage) ==> step is CreateStage
            &&& told == Some(Ending::StageTransferFailed) ==> step is TransferToStage
            &&& told == Some(Ending::NoRollbackPath) ==> step is ReserveRollback
            &&& told == Some(Ending::TargetStayed) ==> step is MoveTargetAside
            &&& told == Some(Ending::PublishFailed) ==> step is PublishStage
            &&& told == Some(Ending::OldTargetRemains) ==> step is RemoveOldTarget
            &&& told == Some(Ending::FlushFailed) ==> step is FlushTarget || step is Flush
            &&& told == Some(Ending::CleanupFailed) ==> step is CleanUpReplaced || step is CleanUp
            &&& told == Some(Ending::RemovalFailed) ==> step is RemoveTarget
            &&& told == Some(Ending::SourceRetained) ==> step is CleanUpOnly
            &&& told == Some(Ending::SourceVanished) ==> step is Transfer && result
                == (StepResult::Exit { status: 24 })
            &&& told == Some(Ending::TransferFailed) ==> step is Transfer
            &&& told == Some(Ending::TimesFailed) ==> step is RestoreTimes
            &&& told == Some(Ending::SyncCleanupFailed) ==> step is SyncCleanUp
        }),
{
}

/// Children are renamed beforehand where a move takes the contents of a directory into one
/// that stands, nothing is backed up or replaced, and no other rights are needed; and nowhere
/// else.
pub proof fn law_children_are_renamed_where_nothing_is_in_the_way(
    p: Placement,
    e: LocalEnds,
    f: PlanFacts,
)
    ensures
        execution_plan(p, e, f).premerges ==> e.destination_kind == DstObjKind::Dir
            || e.destination_kind == DstObjKind::DirExisting,
        f.is_move && e.source_kind == SrcObjKind::Dir && p.contents_mode && (e.destination_kind
            == DstObjKind::Dir || e.destination_kind == DstObjKind::DirExisting) && !f.sudo
            && !f.backup && !f.overwrite_needed && !p.already_there && !p.replaces_parent
            && !p.replaces_directory && !p.replaces_file ==> execution_plan(p, e, f).premerges,
{
}

/// Room is looked for where bytes are to be moved and no plain rename does it; where there is
/// too little, nothing is executed. A rename that is done ends it, flushed or not, and one
/// that fails is followed by a transfer.
pub proof fn law_room_is_looked_for(
    nothing_to_do: bool,
    planned_bytes: u64,
    result: OpeningResult,
)
    ensures
        ({
            let probed = next_opening_of(nothing_to_do, planned_bytes, Opening::Probe, result);
            let spaced = next_opening_of(nothing_to_do, planned_bytes, Opening::CheckSpace, result);
            let renamed = next_opening_of(nothing_to_do, planned_bytes, Opening::Rename, result);
            &&& probed is Rename <==> result == (OpeningResult::Probed { renames: true })
            &&& probed is CheckSpace <==> result != (OpeningResult::Probed { renames: true })
                && planned_bytes > 0
            &&& probed is Execute <==> result != (OpeningResult::Probed { renames: true })
                && planned_bytes == 0
            &&& spaced is Execute <==> result != (OpeningResult::Space { lacks: true })
            &&& result == (OpeningResult::Space { lacks: true }) ==> spaced == (Opening::Stop {
                reason: StopReason::NoSpace,
            })
            &&& renamed is Execute <==> !(result is RenameDone)
            &&& result == (OpeningResult::RenameDone { flushed: true }) ==> renamed
                == (Opening::Stop { reason: StopReason::Renamed })
            &&& result == (OpeningResult::RenameDone { flushed: false }) ==> renamed
                == (Opening::Stop { reason: StopReason::RenamedUnflushed })
        }),
{
}

/// Only a yes leads on from the question, and every other answer stops, each for its own
/// reason; so does a source that cannot be read.
pub proof fn law_only_a_yes_leads_on(
    nothing_to_do: bool,
    planned_bytes: u64,
    result: OpeningResult,
)
    ensures
        ({
            let next = next_opening_of(nothing_to_do, planned_bytes, Opening::Ask, result);
            let read = next_opening_of(nothing_to_do, planned_bytes, Opening::TestReads, result);
            &&& next is Probe || next is Stop
            &&& next is Probe <==> result == (OpeningResult::Answered { answer: Some(Answer::Yes) })
            &&& result == (OpeningResult::Answered { answer: Some(Answer::No) }) <==> next
                == (Opening::Stop { reason: StopReason::Declined })
            &&& result == (OpeningResult::Answered { answer: Some(Answer::Ended) }) <==> next
                == (Opening::Stop { reason: StopReason::InputEnded })
            &&& result != (OpeningResult::Reads { ok: true }) <==> read == (Opening::Stop {
                reason: StopReason::Unreadable,
            })
        }),
{
}

} // verus!
