use fsx_tools::batch::CourseStep::{Ask, CleanUp, CleanUpMatching, Flush, Rename, Transfer};
use fsx_tools::batch::{batch_course, batch_exit_code, BatchEnding, CourseFacts, CourseStep};
use fsx_tools::cleanup::{
    cleanup_succeeded, count_removal, deletions_complete, judge_arrival, Arrival, CleanupParts,
    CompareFacts,
};
use fsx_tools::domain::{DeleteCleanupOutcome, TransferMode};
use fsx_tools::execution::{
    explain_stop, next_opening, open_execution, stop_code, AfterPreview, Answer, Opening,
    OpeningResult, StepResult, StopReason,
};

const PROCEED: AfterPreview = AfterPreview::Proceed { test_reads: true };

fn answered(answer: Answer) -> OpeningResult {
    OpeningResult::Answered { answer: Some(answer) }
}

fn stopped(reason: StopReason) -> Opening {
    Opening::Stop { reason }
}

#[test]
fn an_execution_begins_only_with_a_yes() {
    let next = |step, result| next_opening(false, 7, step, result);
    let first = open_execution(PROCEED, false);
    assert_eq!(first, Opening::TestReads);
    assert_eq!(next(first, OpeningResult::Reads { ok: true }), Opening::Ask);
    assert_eq!(next(Opening::Ask, answered(Answer::Yes)), Opening::Probe);
    let tight = next(Opening::Probe, OpeningResult::Probed { renames: false });
    assert_eq!(tight, Opening::CheckSpace);
    assert_eq!(next(tight, OpeningResult::Space { lacks: false }), Opening::Execute);
    assert_eq!(next(tight, OpeningResult::Space { lacks: true }), stopped(StopReason::NoSpace));
    let light = next_opening(false, 0, Opening::Probe, OpeningResult::Probed { renames: false });
    assert_eq!(light, Opening::Execute);
    let rename = next(Opening::Probe, OpeningResult::Probed { renames: true });
    assert_eq!(rename, Opening::Rename);
    assert_eq!(next(rename, OpeningResult::RenameFailed), Opening::Execute);
    let done = |flushed| next(rename, OpeningResult::RenameDone { flushed });
    assert_eq!(done(true), stopped(StopReason::Renamed));
    assert_eq!(done(false), stopped(StopReason::RenamedUnflushed));
    assert_eq!(next(Opening::Ask, answered(Answer::No)), stopped(StopReason::Declined));
    assert_eq!(next(Opening::Ask, answered(Answer::Ended)), stopped(StopReason::InputEnded));
    let unread = OpeningResult::Answered { answer: None };
    assert_eq!(next(Opening::Ask, unread), stopped(StopReason::NoAnswer));
}

#[test]
fn an_execution_may_stop_before_the_question() {
    assert_eq!(open_execution(AfterPreview::Refuse, false), stopped(StopReason::Incomplete));
    assert_eq!(open_execution(AfterPreview::Stop, false), stopped(StopReason::PreviewOnly));
    let plain = AfterPreview::Proceed { test_reads: false };
    assert_eq!(open_execution(plain, false), Opening::Ask);
    assert_eq!(open_execution(plain, true), stopped(StopReason::NothingToDo));
    let reads = |ok| next_opening(true, 0, Opening::TestReads, OpeningResult::Reads { ok });
    assert_eq!(reads(true), stopped(StopReason::NothingToDo));
    assert_eq!(reads(false), stopped(StopReason::Unreadable));
}

#[test]
fn a_stop_has_its_exit_status() {
    for reason in [
        StopReason::PreviewOnly,
        StopReason::NothingToDo,
        StopReason::Declined,
        StopReason::Renamed,
    ] {
        assert_eq!(stop_code(reason), 0);
    }
    for reason in [
        StopReason::Incomplete,
        StopReason::NoAnswer,
        StopReason::InputEnded,
        StopReason::NoSpace,
        StopReason::RenamedUnflushed,
    ] {
        assert_eq!(stop_code(reason), 1);
    }
    assert_eq!(stop_code(StopReason::Unreadable), 2);
    assert_eq!(
        explain_stop(StopReason::NothingToDo, TransferMode::Move).as_deref(),
        Some("No changes detected; nothing to move.")
    );
    assert_eq!(explain_stop(StopReason::Declined, TransferMode::Copy), None);
}

fn facts(mode: TransferMode, sudo: bool, cleanup_only: bool) -> CourseFacts {
    CourseFacts { mode, sudo, cleanup_only }
}

/// The steps of a batch whose steps go as told, and its exit status.
fn batch_steps(
    f: CourseFacts,
    result: impl Fn(CourseStep) -> StepResult,
) -> (Vec<CourseStep>, i32) {
    let mut steps = Vec::new();
    let mut step = CourseStep::Ask;
    loop {
        if let CourseStep::Finish { ending } = step {
            return (steps, batch_exit_code(ending));
        }
        steps.push(step);
        step = batch_course(f, step, result(step));
    }
}

fn well(step: CourseStep) -> StepResult {
    match step {
        CourseStep::Transfer => StepResult::Exit { status: 0 },
        CourseStep::Rename => StepResult::Failed,
        _ => StepResult::Succeeded,
    }
}

#[test]
fn a_batch_removes_its_sources_after_the_transfer() {
    let copy = batch_steps(facts(TransferMode::Copy, false, false), well);
    assert_eq!(copy, (vec![Ask, Transfer, Flush], 0));
    let moved = batch_steps(facts(TransferMode::Move, false, false), well);
    assert_eq!(moved, (vec![Ask, Rename, Transfer, Flush, CleanUp], 0));
    let elevated = batch_steps(facts(TransferMode::Move, true, false), well);
    assert_eq!(elevated, (vec![Ask, Transfer, Flush, CleanUp], 0));
    let matching = batch_steps(facts(TransferMode::Move, false, true), well);
    assert_eq!(matching, (vec![Ask, CleanUpMatching], 0));
    let failed = batch_steps(facts(TransferMode::Move, true, false), |step| match step {
        Transfer => StepResult::Exit { status: 23 },
        _ => StepResult::Succeeded,
    });
    assert_eq!(failed, (vec![Ask, Transfer], 1));
    let renamed = batch_steps(facts(TransferMode::Move, false, false), |_| StepResult::Succeeded);
    assert_eq!(renamed, (vec![Ask, Rename], 0));
    let unflushed = batch_steps(facts(TransferMode::Move, true, false), |step| match step {
        Flush => StepResult::Failed,
        _ => well(step),
    });
    assert_eq!(unflushed, (vec![Ask, Transfer, Flush, CleanUp], 0));
    let declined = batch_steps(facts(TransferMode::Move, true, false), |_| StepResult::Failed);
    assert_eq!(declined, (vec![Ask], 1));
    assert_eq!(batch_exit_code(BatchEnding::Renamed), 0);
}

#[test]
fn files_are_compared_as_what_they_are() {
    let file = |size| Some(CompareFacts { is_link: false, is_file: true, size });
    let link = Some(CompareFacts { is_link: true, is_file: false, size: 3 });
    let directory = Some(CompareFacts { is_link: false, is_file: false, size: 3 });
    assert_eq!(judge_arrival(file(3), file(3)), Arrival::CompareContents);
    assert_eq!(judge_arrival(file(3), file(4)), Arrival::No);
    assert_eq!(judge_arrival(file(3), None), Arrival::No);
    assert_eq!(judge_arrival(None, file(3)), Arrival::No);
    assert_eq!(judge_arrival(file(3), directory), Arrival::No);
    assert_eq!(judge_arrival(file(3), link), Arrival::CompareLinks);
    assert_eq!(judge_arrival(link, link), Arrival::CompareLinks);
}

#[test]
fn removals_are_counted_where_something_arrived() {
    let mut total = DeleteCleanupOutcome { files: 0, bytes: 0, success: true };
    count_removal(&mut total, true, true, false, 5);
    count_removal(&mut total, true, true, true, 9);
    count_removal(&mut total, false, false, false, 7);
    assert_eq!((total.files, total.bytes, total.success), (2, 5, true));
    count_removal(&mut total, true, false, false, 7);
    assert_eq!((total.files, total.bytes, total.success), (2, 5, false));
}

#[test]
fn a_cleanup_succeeds_as_a_whole() {
    let all = CleanupParts { deleted: true, directories: true, flushed: true };
    assert!(cleanup_succeeded(all));
    assert!(!cleanup_succeeded(CleanupParts { deleted: false, ..all }));
    assert!(!cleanup_succeeded(CleanupParts { directories: false, ..all }));
    assert!(!cleanup_succeeded(CleanupParts { flushed: false, ..all }));
    assert!(deletions_complete(CleanupParts { directories: false, ..all }));
    assert!(!deletions_complete(CleanupParts { flushed: false, ..all }));
    assert!(!deletions_complete(CleanupParts { deleted: false, ..all }));
}
