//! Transfers of many single files into one directory.

use crate::domain;
use crate::domain::{
    ChangeItem, DstObjKind, FileRelationBreakdown, SrcObjKind, TransferMode,
};
use crate::execution;
use crate::execution::{CountRow, StepResult};
use crate::names;
use crate::paths;
use crate::prescan::PreScan;
use crate::table::NameSet;
use crate::telemetry;
use crate::text;
use vstd::prelude::*;

verus! {

/// Why a source cannot be part of a batch.
#[derive(Clone, Copy, Debug, PartialEq, Eq, Structural)]
pub enum BatchError {
    NotAFile,
    SameDirectory,
    NameTaken,
}

/// What is said of a file that cannot join a batch. `name` is its name at the
/// destination.
pub open spec fn batch_text(e: BatchError, name: Seq<char>) -> Seq<char> {
    match e {
        BatchError::NotAFile => "Multiple source path support currently only handles files."@,
        BatchError::SameDirectory => {
            "Multiple source file glob mode requires a different destination directory."@
        },
        BatchError::NameTaken => {
            "Multiple source paths resolve to the same destination name: "@ + name
        },
    }
}

impl BatchError {
    /// Says why a file cannot join a batch.
    pub fn message(self, name: &str) -> (r: String)
        ensures
            r@ == batch_text(self, name@),
    {
        match self {
            BatchError::NotAFile => {
                text::copy("Multiple source path support currently only handles files.")
            },
            BatchError::SameDirectory => text::copy(
                "Multiple source file glob mode requires a different destination directory.",
            ),
            BatchError::NameTaken => {
                let mut out = text::copy(
                    "Multiple source paths resolve to the same destination name: ",
                );
                out.push_str(name);
                out
            },
        }
    }
}

/// One file of a batch.
#[derive(Debug)]
pub struct BatchItem {
    pub path: String,
    pub planned_bytes: u64,
    pub needs_copy: bool,
}

/// What a batch does.
pub struct BatchPlan {
    pub items: Vec<BatchItem>,
    /// The names of the files in the destination.
    pub names: NameSet,
    /// These names as they are shown.
    pub shown: NameSet,
    pub planned_bytes: u64,
    pub total_regular_files: u64,
    pub add_files: u64,
    pub mod_files: u64,
    pub changes: Vec<ChangeItem>,
    pub has_itemized_changes: bool,
    pub breakdown: FileRelationBreakdown,
}

/// The name of a source in the destination.
pub open spec fn item_name(path: Seq<char>) -> Seq<char> {
    match paths::last_name(path) {
        Some(n) => n,
        None => "source"@,
    }
}

/// How the name of a source is shown: where it is no UTF-8, with marks in place of
/// what is none. Two names may be shown alike.
pub open spec fn shown_name_of(path: Seq<char>) -> Seq<char> {
    match paths::last_name(path) {
        Some(n) => telemetry::lossy_text(names::name_bytes_of(n)),
        None => "source"@,
    }
}

/// Whether the name of a source is shown as it is, given that it is UTF-8.
pub open spec fn is_shown_plainly(path: Seq<char>) -> bool {
    match paths::last_name(path) {
        Some(n) => vstd::utf8::valid_utf8(names::name_bytes_of(n)) ==> vstd::utf8::encode_utf8(
            shown_name_of(path),
        ) == names::name_bytes_of(n),
        None => true,
    }
}

/// Finds how the name of a source is shown.
pub fn shown_name(path: &str) -> (r: String)
    ensures
        r@ == shown_name_of(path@),
        is_shown_plainly(path@),
{
    match paths::file_name(path) {
        Some(n) => telemetry::from_utf8_lossy(names::name_bytes(n.as_str()).as_slice()),
        None => text::copy("source"),
    }
}

/// Whether a batch needs an existing directory that it does not have.
pub fn lacks_directory(kind: DstObjKind) -> (r: bool)
    ensures
        r == (kind != DstObjKind::DirExisting),
{
    match kind {
        DstObjKind::DirExisting => false,
        _ => true,
    }
}

/// Why a source is turned away, if it is. `name` is how its name is shown: one that is
/// shown like another one is turned away too.
pub open spec fn batch_refusal(
    shown: Set<Seq<char>>,
    name: Seq<char>,
    kind: SrcObjKind,
    parent_real: Seq<char>,
    destination_real: Seq<char>,
) -> Option<BatchError> {
    if kind != SrcObjKind::File {
        Some(BatchError::NotAFile)
    } else if paths::same_path(parent_real, destination_real) {
        Some(BatchError::SameDirectory)
    } else if shown.contains(name) {
        Some(BatchError::NameTaken)
    } else {
        None
    }
}

fn name_of(path: &str) -> (r: String)
    ensures
        r@ == item_name(path@),
{
    match paths::file_name(path) {
        Some(n) => n,
        None => text::copy("source"),
    }
}

fn sat(a: u64, b: Option<u64>) -> (r: u64)
    ensures
        r == domain::sat_add(
            a,
            match b {
                Some(n) => n,
                None => 0,
            },
        ),
{
    match b {
        Some(n) => a.saturating_add(n),
        None => a,
    }
}

impl BatchPlan {
    pub open spec fn wf(&self) -> bool {
        &&& self.names.wf()
        &&& self.shown.wf()
    }

    /// Whether the files have the names that are kept of them, and no two of them are
    /// shown alike.
    pub open spec fn is_distinct(&self) -> bool {
        &&& self.names@ == Seq::new(
            self.items@.len(),
            |i: int| item_name(self.items@[i].path@),
        ).to_set()
        &&& self.shown.listed() == Seq::new(
            self.items@.len(),
            |i: int| shown_name_of(self.items@[i].path@),
        )
    }

    /// A batch without files.
    pub fn new() -> (r: BatchPlan)
        ensures
            r.wf(),
            r.is_distinct(),
            r.items@.len() == 0,
            r.changes@.len() == 0,
            r.names@ == Set::<Seq<char>>::empty(),
            r.shown@ == Set::<Seq<char>>::empty(),
            r.planned_bytes == 0,
            r.total_regular_files == 0,
            r.add_files == 0,
            r.mod_files == 0,
            !r.has_itemized_changes,
            r.breakdown == domain::empty_breakdown(),
    {
        let r = BatchPlan {
            items: Vec::new(),
            names: NameSet::new(),
            shown: NameSet::new(),
            planned_bytes: 0,
            total_regular_files: 0,
            add_files: 0,
            mod_files: 0,
            changes: Vec::new(),
            has_itemized_changes: false,
            breakdown: FileRelationBreakdown::default(),
        };
        assert(r.names@ == Seq::new(
            r.items@.len(),
            |i: int| item_name(r.items@[i].path@),
        ).to_set());
        assert(r.shown.listed() == Seq::new(
            r.items@.len(),
            |i: int| shown_name_of(r.items@[i].path@),
        ));
        r
    }

    /// Tests whether a source may join.
    pub fn refuse(
        &self,
        path: &str,
        kind: SrcObjKind,
        parent_real: &str,
        destination_real: &str,
    ) -> (r: Option<BatchError>)
        ensures
            r == batch_refusal(
                self.shown@,
                shown_name_of(path@),
                kind,
                parent_real@,
                destination_real@,
            ),
            is_shown_plainly(path@),
    {
        self.refuse_shown(shown_name(path).as_str(), kind, parent_real, destination_real)
    }

    /// Tests whether a source may join whose name is shown as `name`.
    pub fn refuse_shown(
        &self,
        name: &str,
        kind: SrcObjKind,
        parent_real: &str,
        destination_real: &str,
    ) -> (r: Option<BatchError>)
        ensures
            r == batch_refusal(self.shown@, name@, kind, parent_real@, destination_real@),
    {
        let file = match kind {
            SrcObjKind::File => true,
            SrcObjKind::Dir => false,
        };
        if !file {
            Some(BatchError::NotAFile)
        } else if paths::paths_equal(parent_real, destination_real) {
            Some(BatchError::SameDirectory)
        } else if self.shown.contains(name) {
            Some(BatchError::NameTaken)
        } else {
            None
        }
    }

    /// Adds a source and its plan. The names stay apart where the source was not turned
    /// away.
    pub fn join(&mut self, path: String, plan: PreScan)
        requires
            old(self).wf(),
        ensures
            final(self).wf(),
            old(self).is_distinct() && !old(self).shown@.contains(shown_name_of(path@))
                ==> final(self).is_distinct(),
            final(self).shown@ == old(self).shown@.insert(shown_name_of(path@)),
            is_shown_plainly(path@),
            final(self).items@ == old(self).items@.push(
                BatchItem {
                    path,
                    planned_bytes: plan.planned_bytes,
                    needs_copy: plan.has_itemized_changes,
                },
            ),
            final(self).names@ == old(self).names@.insert(item_name(path@)),
            final(self).planned_bytes == domain::sat_add(
                old(self).planned_bytes,
                plan.planned_bytes,
            ),
            final(self).total_regular_files == domain::sat_add(
                old(self).total_regular_files,
                match plan.total_regular_files {
                    Some(n) => n,
                    None => 0,
                },
            ),
            final(self).add_files == domain::sat_add(old(self).add_files, plan.add_files),
            final(self).mod_files == domain::sat_add(old(self).mod_files, plan.mod_files),
            final(self).changes@ == old(self).changes@ + plan.change_preview@,
            final(self).has_itemized_changes == (old(self).has_itemized_changes
                || plan.has_itemized_changes),
            final(self).breakdown == domain::breakdown_sum(
                old(self).breakdown,
                plan.file_relation_breakdown,
            ),
    {
        let ghost before = *self;
        let ghost own = item_name(path@);
        let name = name_of(path.as_str());
        let shown = shown_name(path.as_str());
        self.names.insert(name);
        self.shown.insert(shown);
        self.items.push(
            BatchItem {
                path,
                planned_bytes: plan.planned_bytes,
                needs_copy: plan.has_itemized_changes,
            },
        );
        self.planned_bytes = self.planned_bytes.saturating_add(plan.planned_bytes);
        self.total_regular_files = sat(self.total_regular_files, plan.total_regular_files);
        self.add_files = self.add_files.saturating_add(plan.add_files);
        self.mod_files = self.mod_files.saturating_add(plan.mod_files);
        self.has_itemized_changes = self.has_itemized_changes || plan.has_itemized_changes;
        self.breakdown.add_assign(plan.file_relation_breakdown);
        let mut more = plan.change_preview;
        self.changes.append(&mut more);
        proof {
            if before.is_distinct() && !before.shown@.contains(shown_name_of(path@)) {
                let earlier = Seq::new(
                    before.items@.len(),
                    |i: int| item_name(before.items@[i].path@),
                );
                let now = Seq::new(self.items@.len(), |i: int| item_name(self.items@[i].path@));
                assert(now == earlier.push(own));
                assert forall|s: Seq<char>|
                    now.to_set().contains(s) == earlier.to_set().insert(own).contains(s) by {
                    if earlier.contains(s) {
                        let i = choose|i: int| 0 <= i < earlier.len() && earlier[i] == s;
                        assert(now[i] == s);
                    }
                    assert(now[now.len() - 1] == own);
                }
                assert(now.to_set() == earlier.to_set().insert(own));
                assert(self.shown.listed() == Seq::new(
                    self.items@.len(),
                    |i: int| shown_name_of(self.items@[i].path@),
                ));
            }
        }
    }

    /// No two files of a batch from which those that are turned away are kept out have
    /// the same name, nor are any two shown alike.
    pub proof fn law_names_are_distinct(&self, i: int, j: int)
        requires
            self.wf(),
            0 <= i < j < self.items@.len(),
        ensures
            self.is_distinct() ==> shown_name_of(self.items@[i].path@) != shown_name_of(
                self.items@[j].path@,
            ) && paths::last_name(self.items@[i].path@) != paths::last_name(
                self.items@[j].path@,
            ),
    {
        self.shown.lemma_listed();
        if self.is_distinct() {
            assert(self.shown.listed()[i] == shown_name_of(self.items@[i].path@));
            assert(self.shown.listed()[j] == shown_name_of(self.items@[j].path@));
        }
    }

    /// The files row of the counts table.
    pub fn file_row(&self, is_move: bool, uncollided: u64) -> (r: CountRow)
        ensures
            r == (CountRow {
                added: self.add_files,
                modified: self.mod_files,
                identical: domain::sat_sub(
                    self.total_regular_files,
                    domain::sat_add(self.add_files, self.mod_files),
                ),
                uncollided,
                deleted_source: if is_move {
                    self.total_regular_files
                } else {
                    0
                },
                deleted_destination: 0,
            }),
    {
        CountRow {
            added: self.add_files,
            modified: self.mod_files,
            identical: self.total_regular_files.saturating_sub(
                self.add_files.saturating_add(self.mod_files),
            ),
            uncollided,
            deleted_source: if is_move {
                self.total_regular_files
            } else {
                0
            },
            deleted_destination: 0,
        }
    }

    /// Decides what a batch does once its preview is shown.
    pub fn next(&self, preview_only: bool, mode: TransferMode) -> (r: BatchNext)
        ensures
            r == batch_next(
                preview_only,
                mode,
                self.planned_bytes == 0 && !self.has_itemized_changes,
            ),
    {
        let idle = self.planned_bytes == 0 && !self.has_itemized_changes;
        if preview_only {
            return BatchNext::Stop;
        }
        match mode {
            TransferMode::Copy => if idle {
                BatchNext::NothingToDo
            } else {
                BatchNext::Ask { cleanup_only: false }
            },
            TransferMode::Move => BatchNext::Ask { cleanup_only: idle },
        }
    }
}

/// What a batch does once its preview is shown.
#[derive(Clone, Copy, Debug, PartialEq, Eq, Structural)]
pub enum BatchNext {
    Stop,
    NothingToDo,
    Ask { cleanup_only: bool },
}

/// What a batch does once its preview is shown; `idle` says that nothing is to
/// be copied.
pub open spec fn batch_next(preview_only: bool, mode: TransferMode, idle: bool) -> BatchNext {
    if preview_only {
        BatchNext::Stop
    } else if idle && mode == TransferMode::Copy {
        BatchNext::NothingToDo
    } else {
        BatchNext::Ask { cleanup_only: idle }
    }
}

/// Whether a typed line lets a batch go on. Unlike elsewhere the end of the
/// input does.
pub fn batch_may_go_on(line: &str) -> (r: bool)
    ensures
        r == (execution::answer_of(line@) != execution::Answer::No),
{
    match execution::read_answer(line) {
        execution::Answer::No => false,
        _ => true,
    }
}

/// What the course of a batch goes by.
#[derive(Clone, Copy, Debug, PartialEq, Eq, Structural)]
pub struct CourseFacts {
    pub mode: TransferMode,
    pub sudo: bool,
    /// All files are there already; a move has its sources to remove.
    pub cleanup_only: bool,
}

/// Only a move removes its sources.
pub open spec fn is_course_consistent(f: CourseFacts) -> bool {
    f.cleanup_only ==> f.mode == TransferMode::Move
}

/// One step of a batch.
#[derive(Clone, Copy, Debug, PartialEq, Eq, Structural)]
pub enum CourseStep {
    Ask,
    /// Remove the sources that have a counterpart.
    CleanUpMatching,
    Rename,
    Transfer,
    Flush,
    /// Remove the sources that have arrived.
    CleanUp,
    Finish { ending: BatchEnding },
}

/// How a batch ended.
#[derive(Clone, Copy, Debug, PartialEq, Eq, Structural)]
pub enum BatchEnding {
    /// It was not agreed to.
    Declined,
    /// Plain renames have done it all.
    Renamed,
    TransferFailed,
    Done,
}

/// What follows the agreement to a batch.
pub open spec fn agreed_course(f: CourseFacts) -> CourseStep {
    if f.cleanup_only {
        CourseStep::CleanUpMatching
    } else if f.mode == TransferMode::Move && !f.sudo {
        CourseStep::Rename
    } else {
        CourseStep::Transfer
    }
}

/// What follows a step of a batch and its result. Whether a flush went well does not
/// matter.
pub open spec fn course_of(f: CourseFacts, step: CourseStep, result: StepResult) -> CourseStep {
    match step {
        CourseStep::Ask => if result == StepResult::Succeeded {
            agreed_course(f)
        } else {
            CourseStep::Finish { ending: BatchEnding::Declined }
        },
        CourseStep::CleanUpMatching => CourseStep::Finish { ending: BatchEnding::Done },
        CourseStep::Rename => if result == StepResult::Succeeded {
            CourseStep::Finish { ending: BatchEnding::Renamed }
        } else {
            CourseStep::Transfer
        },
        CourseStep::Transfer => if result == (StepResult::Exit { status: 0 }) {
            CourseStep::Flush
        } else {
            CourseStep::Finish { ending: BatchEnding::TransferFailed }
        },
        CourseStep::Flush => if f.mode == TransferMode::Move {
            CourseStep::CleanUp
        } else {
            CourseStep::Finish { ending: BatchEnding::Done }
        },
        CourseStep::CleanUp => CourseStep::Finish { ending: BatchEnding::Done },
        CourseStep::Finish { ending } => CourseStep::Finish { ending },
    }
}

/// Goes on with a batch.
pub fn batch_course(f: CourseFacts, step: CourseStep, result: StepResult) -> (r: CourseStep)
    ensures
        r == course_of(f, step, result),
{
    let ok = match result {
        StepResult::Succeeded => true,
        _ => false,
    };
    let is_move = match f.mode {
        TransferMode::Move => true,
        _ => false,
    };
    let ending = match step {
        CourseStep::Ask => if !ok {
            BatchEnding::Declined
        } else {
            return if f.cleanup_only {
                CourseStep::CleanUpMatching
            } else if is_move && !f.sudo {
                CourseStep::Rename
            } else {
                CourseStep::Transfer
            };
        },
        CourseStep::Rename => if ok {
            BatchEnding::Renamed
        } else {
            return CourseStep::Transfer;
        },
        CourseStep::Transfer => match result {
            StepResult::Exit { status: 0 } => {
                return CourseStep::Flush;
            },
            _ => BatchEnding::TransferFailed,
        },
        CourseStep::Flush => if is_move {
            return CourseStep::CleanUp;
        } else {
            BatchEnding::Done
        },
        CourseStep::CleanUpMatching | CourseStep::CleanUp => BatchEnding::Done,
        CourseStep::Finish { ending } => ending,
    };
    CourseStep::Finish { ending }
}

/// The exit status that an ending of a batch gives.
pub fn batch_exit_code(ending: BatchEnding) -> (r: i32)
    ensures
        r == (if ending == BatchEnding::Done || ending == BatchEnding::Renamed {
            0i32
        } else {
            1i32
        }),
{
    match ending {
        BatchEnding::Done | BatchEnding::Renamed => 0,
        _ => 1,
    }
}

/// A course that a batch can take: the steps with their results.
pub open spec fn is_batch_course(f: CourseFacts, course: Seq<(CourseStep, StepResult)>) -> bool {
    &&& course.len() > 0 ==> course[0].0 == CourseStep::Ask
    &&& forall|i: int|
        0 <= i < course.len() - 1 ==> #[trigger] course[i + 1].0 == course_of(
            f,
            course[i].0,
            course[i].1,
        )
}

/// After a transfer, sources are removed only by a move, once the transfer has
/// succeeded and the destination was flushed.
pub proof fn law_batch_cleanup_follows_the_transfer(
    f: CourseFacts,
    course: Seq<(CourseStep, StepResult)>,
    k: int,
)
    requires
        is_batch_course(f, course),
        0 <= k < course.len(),
        course[k].0 == CourseStep::CleanUp,
    ensures
        f.mode == TransferMode::Move,
        k >= 2,
        course[k - 1].0 == CourseStep::Flush,
        course[k - 2] == (CourseStep::Transfer, StepResult::Exit { status: 0 }),
{
    assert(course[k - 1 + 1].0 == course_of(f, course[k - 1].0, course[k - 1].1));
    assert(course[k - 2 + 1].0 == course_of(f, course[k - 2].0, course[k - 2].1));
}

/// A copy never touches its sources.
pub proof fn law_a_batch_copy_keeps_its_sources(
    f: CourseFacts,
    course: Seq<(CourseStep, StepResult)>,
    k: int,
)
    requires
        is_batch_course(f, course),
        is_course_consistent(f),
        f.mode != TransferMode::Move,
        0 <= k < course.len(),
    ensures
        course[k].0 != CourseStep::CleanUp,
        course[k].0 != CourseStep::CleanUpMatching,
        course[k].0 != CourseStep::Rename,
{
    if k > 0 {
        assert(course[k - 1 + 1].0 == course_of(f, course[k - 1].0, course[k - 1].1));
    }
}

/// Nothing is done to a batch that was not agreed to.
pub proof fn law_a_batch_is_agreed_to(
    f: CourseFacts,
    course: Seq<(CourseStep, StepResult)>,
    k: int,
)
    requires
        is_batch_course(f, course),
        0 < k < course.len(),
        course[k].0 != (CourseStep::Finish { ending: BatchEnding::Declined }),
    ensures
        course[0] == (CourseStep::Ask, StepResult::Succeeded),
    decreases k,
{
    assert(course[k - 1 + 1].0 == course_of(f, course[k - 1].0, course[k - 1].1));
    if k > 1 {
        law_a_batch_is_agreed_to(f, course, k - 1);
    }
}

/// How many steps can still follow.
pub open spec fn course_steps_left(step: CourseStep) -> nat {
    match step {
        CourseStep::Finish { .. } => 0,
        CourseStep::CleanUpMatching => 1,
        CourseStep::CleanUp => 1,
        CourseStep::Flush => 2,
        CourseStep::Transfer => 3,
        CourseStep::Rename => 4,
        CourseStep::Ask => 5,
    }
}

/// Every batch ends: each step leaves fewer to come.
pub proof fn law_a_batch_ends(f: CourseFacts, step: CourseStep, result: StepResult)
    requires
        !(step is Finish),
    ensures
        course_steps_left(course_of(f, step, result)) < course_steps_left(step),
{
}

/// What is known of the place that a file would be renamed to.
#[derive(Clone, Copy, Debug)]
pub struct RenameProbe {
    pub same_filesystem: bool,
    pub exists: bool,
}

/// Whether a plain rename can move a file.
pub open spec fn can_rename(path: Seq<char>, destination: Seq<char>, probe: RenameProbe) -> bool {
    paths::last_name(path) is Some && probe.same_filesystem && !probe.exists && !paths::same_path(
        paths::joined_path(destination, paths::last_name(path)->0),
        path,
    )
}

/// Where plain renames take the files of a batch, if they can take all.
pub fn batch_rename_targets(items: &Vec<BatchItem>, destination: &str, probes: &Vec<RenameProbe>) -> (r:
    Option<Vec<String>>)
    requires
        probes@.len() == items@.len(),
    ensures
        match r {
            Some(targets) => targets@.len() == items@.len() && forall|i: int|
                0 <= i < items@.len() ==> can_rename(
                    (#[trigger] items@[i]).path@,
                    destination@,
                    probes@[i],
                ) && targets@[i]@ == paths::joined_path(
                    destination@,
                    paths::last_name(items@[i].path@)->0,
                ),
            None => exists|i: int|
                0 <= i < items@.len() && !can_rename(
                    (#[trigger] items@[i]).path@,
                    destination@,
                    probes@[i],
                ),
        },
{
    let mut targets: Vec<String> = Vec::new();
    let mut i: usize = 0;
    while i < items.len()
        invariant
            i <= items@.len(),
            probes@.len() == items@.len(),
            targets@.len() == i,
            forall|k: int|
                0 <= k < i ==> can_rename(
                    (#[trigger] items@[k]).path@,
                    destination@,
                    probes@[k],
                ) && targets@[k]@ == paths::joined_path(
                    destination@,
                    paths::last_name(items@[k].path@)->0,
                ),
        decreases items@.len() - i,
    {
        let item = &items[i];
        let name = match paths::file_name(item.path.as_str()) {
            Some(n) => n,
            None => {
                assert(!can_rename(items@[i as int].path@, destination@, probes@[i as int]));
                return None;
            },
        };
        let target = paths::join_path(destination, name.as_str());
        if !probes[i].same_filesystem || probes[i].exists || paths::paths_equal(
            target.as_str(),
            item.path.as_str(),
        ) {
            assert(!can_rename(items@[i as int].path@, destination@, probes@[i as int]));
            return None;
        }
        targets.push(target);
        i = i + 1;
    }
    Some(targets)
}

/// The operations that the files of a batch make.
pub open spec fn batch_sizes_of(needs: Seq<bool>, sizes: Seq<Option<u64>>) -> Seq<u64>
    decreases needs.len(),
{
    if needs.len() == 0 {
        Seq::empty()
    } else {
        let before = batch_sizes_of(needs.drop_last(), sizes);
        let size = sizes[needs.len() - 1];
        if needs.last() && size is Some {
            before.push(size->0)
        } else {
            before
        }
    }
}

/// Which operation each file of a batch is, and their sizes. A file that is
/// not copied, or whose size is not known, is none.
pub fn batch_operations(needs: &Vec<bool>, sizes: &Vec<Option<u64>>) -> (r: (
    Vec<Option<usize>>,
    Vec<u64>,
))
    requires
        needs@.len() == sizes@.len(),
    ensures
        r.1@ == batch_sizes_of(needs@, sizes@),
        r.0@.len() == needs@.len(),
        forall|i: int|
            0 <= i < needs@.len() ==> #[trigger] r.0@[i] == (if needs@[i] && sizes@[i] is Some {
                Some(batch_sizes_of(needs@.take(i), sizes@).len() as usize)
            } else {
                None
            }),
{
    let mut places: Vec<Option<usize>> = Vec::new();
    let mut out: Vec<u64> = Vec::new();
    let mut i: usize = 0;
    assert(needs@.take(0) == Seq::<bool>::empty());
    while i < needs.len()
        invariant
            i <= needs@.len(),
            needs@.len() == sizes@.len(),
            places@.len() == i,
            out@ == batch_sizes_of(needs@.take(i as int), sizes@),
            forall|k: int|
                0 <= k < i ==> #[trigger] places@[k] == (if needs@[k] && sizes@[k] is Some {
                    Some(batch_sizes_of(needs@.take(k), sizes@).len() as usize)
                } else {
                    None
                }),
        decreases needs@.len() - i,
    {
        assert(needs@.take(i + 1).drop_last() == needs@.take(i as int));
        match (needs[i], sizes[i]) {
            (true, Some(size)) => {
                places.push(Some(out.len()));
                out.push(size);
            },
            _ => {
                places.push(None);
            },
        }
        i = i + 1;
    }
    assert(needs@.take(needs@.len() as int) == needs@);
    (places, out)
}

/// Whether a batch is large enough to be worth watching.
pub fn collects_telemetry(planned_bytes: u64, items: usize) -> (r: bool)
    ensures
        r == (planned_bytes >= 0x80_0000 || items >= 256),
{
    planned_bytes >= 8 * 1024 * 1024 || items >= 256
}

/// What a batch does with one file.
#[derive(Clone, Copy, Debug, PartialEq, Eq, Structural)]
pub enum BatchStep {
    Skip,
    CopyLink,
    Copy { remove_target: bool },
}

/// What a batch does with one file.
pub open spec fn batch_step_of(
    needs_copy: bool,
    is_link: bool,
    replace_links: bool,
    target_is_link: bool,
) -> BatchStep {
    if !needs_copy {
        BatchStep::Skip
    } else if is_link {
        BatchStep::CopyLink
    } else {
        BatchStep::Copy { remove_target: replace_links && target_is_link }
    }
}

/// A file is skipped exactly when it needs no copy, a link is copied as a link, and what
/// stands at the destination is removed only where it is a link that is to be replaced.
pub proof fn law_only_replaced_links_are_removed(
    needs_copy: bool,
    is_link: bool,
    replace_links: bool,
    target_is_link: bool,
)
    ensures
        ({
            let r = batch_step_of(needs_copy, is_link, replace_links, target_is_link);
            &&& r is Skip <==> !needs_copy
            &&& r is CopyLink <==> needs_copy && is_link
            &&& r == (BatchStep::Copy { remove_target: true }) <==> needs_copy && !is_link
                && replace_links && target_is_link
        }),
{
}

/// Decides what a batch does with one file.
pub fn batch_step(needs_copy: bool, is_link: bool, replace_links: bool, target_is_link: bool) -> (r:
    BatchStep)
    ensures
        r == batch_step_of(needs_copy, is_link, replace_links, target_is_link),
{
    if !needs_copy {
        BatchStep::Skip
    } else if is_link {
        BatchStep::CopyLink
    } else {
        BatchStep::Copy { remove_target: replace_links && target_is_link }
    }
}

/// Whether a source that was not copied has a counterpart.
pub open spec fn has_counterpart(
    is_link: bool,
    links_equal: bool,
    file: Option<u64>,
    counterpart: Option<u64>,
) -> bool {
    if is_link {
        links_equal
    } else {
        file is Some && counterpart == file
    }
}

/// A file has a counterpart only in a file of its own size, and a link only in an equal
/// link.
pub proof fn law_counterparts_have_the_same_size(
    links_equal: bool,
    size: u64,
    counterpart: Option<u64>,
)
    ensures
        has_counterpart(false, links_equal, Some(size), counterpart) <==> counterpart == Some(size),
        !has_counterpart(false, links_equal, None, counterpart),
        forall|file: Option<u64>| #[trigger]
            has_counterpart(true, links_equal, file, counterpart) == links_equal,
{
}

/// Tests whether a source that was not copied may be removed: its counterpart
/// is a link to the same target, or a file of the same size. `file` and
/// `counterpart` are the sizes of what are regular files.
pub fn counterpart_matches(
    is_link: bool,
    links_equal: bool,
    file: Option<u64>,
    counterpart: Option<u64>,
) -> (r: bool)
    ensures
        r == has_counterpart(is_link, links_equal, file, counterpart),
{
    if is_link {
        links_equal
    } else {
        match (file, counterpart) {
            (Some(a), Some(b)) => a == b,
            _ => false,
        }
    }
}

/// The directory that is flushed for a path.
pub open spec fn flush_dir(path: Seq<char>, is_dir: bool) -> Seq<char> {
    if is_dir {
        path
    } else {
        match paths::parent_of(path) {
            Some(p) => p,
            None => "/"@,
        }
    }
}

/// Finds the directory that is flushed for a path: itself, or the one that
/// holds it.
pub fn flush_target(path: &str, is_dir: bool) -> (r: String)
    ensures
        r@ == flush_dir(path@, is_dir),
{
    if is_dir {
        text::copy(path)
    } else {
        match paths::parent(path) {
            Some(p) => p,
            None => text::copy("/"),
        }
    }
}

/// How far a removal pass has come: bytes done and in all.
pub fn deletion_progress(deleted: u64, expected: u64, completed: bool) -> (r: (u64, u64))
    ensures
        r.1 == (if deleted > expected {
            deleted
        } else {
            expected
        }),
        r.0 == (if completed {
            r.1
        } else {
            deleted
        }),
{
    let total: u64 = if deleted > expected {
        deleted
    } else {
        expected
    };
    (
        if completed {
            total
        } else {
            deleted
        },
        total,
    )
}

/// A source joins a batch exactly when it is a file from another directory whose name, as
/// it is shown, is not taken yet.
pub proof fn law_who_may_join(
    shown: Set<Seq<char>>,
    name: Seq<char>,
    kind: SrcObjKind,
    parent_real: Seq<char>,
    destination_real: Seq<char>,
)
    ensures
        ({
            let r = batch_refusal(shown, name, kind, parent_real, destination_real);
            &&& r is None <==> kind == SrcObjKind::File && !paths::same_path(
                parent_real,
                destination_real,
            ) && !shown.contains(name)
            &&& kind == SrcObjKind::Dir <==> r == Some(BatchError::NotAFile)
            &&& r == Some(BatchError::NameTaken) ==> shown.contains(name)
            &&& r == Some(BatchError::SameDirectory) ==> paths::same_path(
                parent_real,
                destination_real,
            )
        }),
{
}

/// A preview alone does nothing more. Where nothing is to be copied, a copy is done, and a
/// move asks whether to remove its sources.
pub proof fn law_idle_copies_are_done(preview_only: bool, mode: TransferMode, idle: bool)
    ensures
        ({
            let r = batch_next(preview_only, mode, idle);
            &&& preview_only <==> r is Stop
            &&& r is NothingToDo <==> !preview_only && idle && mode == TransferMode::Copy
            &&& r matches BatchNext::Ask { cleanup_only } ==> (cleanup_only <==> idle) && (
            cleanup_only ==> mode == TransferMode::Move)
        }),
{
}

/// A batch is done only after a transfer that succeeded, or after the clean-up of a move
/// that has nothing to copy; it is renamed only where the renames succeeded.
pub proof fn law_a_batch_is_done_when_it_arrived(
    f: CourseFacts,
    course: Seq<(CourseStep, StepResult)>,
    k: int,
)
    requires
        is_batch_course(f, course),
        0 < k < course.len(),
        course[k].0 is Finish,
        !(course[k - 1].0 is Finish),
    ensures
        course[k].0->ending == BatchEnding::Renamed ==> course[k - 1] == (
            CourseStep::Rename,
            StepResult::Succeeded,
        ) && f.mode == TransferMode::Move && !f.sudo && !f.cleanup_only,
        course[k].0->ending == BatchEnding::TransferFailed ==> course[k - 1].0
            == CourseStep::Transfer && course[k - 1].1 != (StepResult::Exit { status: 0 }),
        course[k].0->ending == BatchEnding::Done && !f.cleanup_only ==> exists|i: int|
            0 <= i < k && #[trigger] course[i] == (
                CourseStep::Transfer,
                StepResult::Exit { status: 0 },
            ),
        course[k].0->ending == BatchEnding::Done && f.mode == TransferMode::Move ==> course[k
            - 1].0 == CourseStep::CleanUp || course[k - 1].0 == CourseStep::CleanUpMatching,
        course[k].0->ending == BatchEnding::Declined ==> k == 1 && course[0].0 == CourseStep::Ask
            && course[0].1 != StepResult::Succeeded,
{
    assert(course[k - 1 + 1].0 == course_of(f, course[k - 1].0, course[k - 1].1));
    if k >= 2 {
        assert(course[k - 2 + 1].0 == course_of(f, course[k - 2].0, course[k - 2].1));
        if k >= 3 {
            assert(course[k - 3 + 1].0 == course_of(f, course[k - 3].0, course[k - 3].1));
        }
    }
}

/// What was agreed to begins with the clean-up exactly where nothing is to be copied, and
/// with plain renames exactly where a move needs no elevated rights.
pub proof fn law_what_was_agreed_to_begins(f: CourseFacts)
    ensures
        agreed_course(f) is CleanUpMatching <==> f.cleanup_only,
        agreed_course(f) is Rename <==> !f.cleanup_only && f.mode == TransferMode::Move && !f.sudo,
        agreed_course(f) is Transfer <==> !f.cleanup_only && (f.mode == TransferMode::Copy
            || f.sudo),
{
}

/// A file is renamed only to a free place on its own file system, and not onto itself.
pub proof fn law_renames_replace_nothing(path: Seq<char>, destination: Seq<char>, probe: RenameProbe)
    ensures
        probe.exists || !probe.same_filesystem ==> !can_rename(path, destination, probe),
        paths::last_name(path) matches Some(n) ==> (can_rename(path, destination, probe)
            <==> !probe.exists && probe.same_filesystem && !paths::same_path(
            paths::joined_path(destination, n),
            path,
        )),
        paths::last_name(path) is None ==> !can_rename(path, destination, probe),
{
}

/// The operation of a file has the size of that file.
pub proof fn law_operations_have_the_sizes_of_their_files(
    needs: Seq<bool>,
    sizes: Seq<Option<u64>>,
    i: int,
)
    requires
        needs.len() == sizes.len(),
        0 <= i < needs.len(),
        needs[i],
        sizes[i] is Some,
    ensures
        batch_sizes_of(needs.take(i), sizes).len() < batch_sizes_of(needs, sizes).len(),
        batch_sizes_of(needs, sizes)[batch_sizes_of(needs.take(i), sizes).len() as int]
            == sizes[i]->0,
    decreases needs.len(),
{
    lemma_operation(needs, sizes, i);
}

proof fn lemma_operation(needs: Seq<bool>, sizes: Seq<Option<u64>>, i: int)
    requires
        needs.len() <= sizes.len(),
        0 <= i < needs.len(),
        needs[i],
        sizes[i] is Some,
    ensures
        batch_sizes_of(needs.take(i), sizes).len() < batch_sizes_of(needs, sizes).len(),
        batch_sizes_of(needs, sizes)[batch_sizes_of(needs.take(i), sizes).len() as int]
            == sizes[i]->0,
    decreases needs.len(),
{
    let front = needs.drop_last();
    if i < front.len() {
        lemma_operation(front, sizes, i);
        assert(front.take(i) == needs.take(i));
    } else {
        assert(needs.take(i) == front);
    }
}

/// A file that is not copied, or whose size is not known, is no operation.
pub proof fn law_only_copies_are_operations(needs: Seq<bool>, sizes: Seq<Option<u64>>)
    requires
        forall|i: int| 0 <= i < needs.len() ==> !(#[trigger] needs[i]) || sizes[i] is None,
    ensures
        batch_sizes_of(needs, sizes).len() == 0,
    decreases needs.len(),
{
    if needs.len() > 0 {
        let front = needs.drop_last();
        assert forall|i: int| 0 <= i < front.len() implies !(#[trigger] front[i]) || sizes[i]
            is None by {
            assert(front[i] == needs[i]);
        }
        assert(!needs[needs.len() - 1] || sizes[needs.len() - 1] is None);
        law_only_copies_are_operations(front, sizes);
    }
}

/// The directory that is flushed for a directory is itself, and for anything else the one
/// that holds it.
pub proof fn law_what_is_flushed(path: Seq<char>, is_dir: bool)
    ensures
        is_dir ==> flush_dir(path, is_dir) == path,
        !is_dir ==> (paths::parent_of(path) matches Some(p) ==> flush_dir(path, is_dir) == p),
{
}

} // verus!
