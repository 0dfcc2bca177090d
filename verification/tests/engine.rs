use fsx_tools::domain::MediaKind;
use fsx_tools::engine::{
    ancestors_to_check, copy_strategy, directory_step, judge_ancestor, order_directories,
    pace_hdd_writeback, permission_bits, range_count, range_next, verify_metadata, AncestorError,
    AncestorKind, CopyStrategy, DirectoryStep, PairVerification, RangeNext, SparseCopy,
    SparseEvent, SparseStep, VerifyError, WalkedDirectory,
};
use fsx_tools::limiter::InflightWriteLimiter;

fn verify(source: &[u8], destination: &[u8]) -> Result<(), VerifyError> {
    verify_metadata(true, true, source.len() as u64, destination.len() as u64)?;
    let mut pair = PairVerification::new();
    let mut at = 0;
    loop {
        let upto = |bytes: &[u8]| (at + 4).min(bytes.len());
        let from = &source[at..upto(source)];
        let to = &destination[at..upto(destination)];
        if !pair.feed(from, to)? {
            return pair.finish();
        }
        at += from.len();
    }
}

#[test]
fn verification_detects_post_copy_corruption() {
    assert_eq!(verify(b"verified bytes", b"verified bytes"), Ok(()));
    assert_eq!(verify(b"verified bytes", b"corrupt"), Err(VerifyError::SizeDiffers));
    assert_eq!(verify(b"verified bytes", b"verified bytez"), Err(VerifyError::DigestDiffers));
    assert_eq!(verify_metadata(true, false, 1, 1), Err(VerifyError::NotRegularFiles));
}

#[test]
fn files_that_end_apart_do_not_agree() {
    let mut pair = PairVerification::new();
    assert_eq!(pair.feed(b"ab", b"abc"), Err(VerifyError::OffsetsDiffer));
    let mut empty = PairVerification::new();
    assert_eq!(empty.feed(b"", b""), Ok(false));
    assert_eq!(empty.finish(), Ok(()));
}

#[test]
fn a_sparse_copy_accounts_for_holes_and_data() {
    let mut copy = SparseCopy::start(100);
    assert_eq!(copy.step, SparseStep::SeekData { from: 0, first: true });
    assert_eq!(copy.next(SparseEvent::At { offset: 30 }), 30);
    assert_eq!(copy.step, SparseStep::SeekHole { from: 30 });
    assert_eq!(copy.next(SparseEvent::At { offset: 50 }), 0);
    assert_eq!(copy.step, SparseStep::Copy { at: 30, left: 20, end: 50 });
    assert_eq!(copy.next(SparseEvent::Copied { count: 15 }), 15);
    assert_eq!(copy.step, SparseStep::Copy { at: 45, left: 5, end: 50 });
    assert_eq!(copy.next(SparseEvent::Copied { count: 5 }), 5);
    assert_eq!(copy.step, SparseStep::SeekData { from: 50, first: false });
    assert_eq!(copy.next(SparseEvent::NoData), 50);
    assert_eq!(copy.step, SparseStep::Finish { total: 100 });
    assert_eq!(copy.done, 100);
}

#[test]
fn sparse_copies_end_or_fail() {
    assert_eq!(SparseCopy::start(0).step, SparseStep::Finish { total: 0 });
    let mut all_hole = SparseCopy::start(9);
    assert_eq!(all_hole.next(SparseEvent::NoData), 0);
    assert_eq!(all_hole.step, SparseStep::Finish { total: 9 });
    let mut unsupported = SparseCopy::start(9);
    unsupported.next(SparseEvent::NotSupported);
    assert_eq!(unsupported.step, SparseStep::Unsupported);
    let mut short = SparseCopy::start(9);
    short.next(SparseEvent::At { offset: 0 });
    short.next(SparseEvent::At { offset: 9 });
    short.next(SparseEvent::Copied { count: 0 });
    assert_eq!(short.step, SparseStep::Failed { ended_early: true });
    let mut failed = SparseCopy::start(9);
    failed.next(SparseEvent::Error);
    assert_eq!(failed.step, SparseStep::Failed { ended_early: false });
}

#[test]
fn the_way_of_copying_follows_the_blocks() {
    assert_eq!(copy_strategy(4096, 0), CopyStrategy::Sparse);
    assert_eq!(copy_strategy(4096, 8), CopyStrategy::Kernel { reserve: false });
    assert_eq!(copy_strategy(64 << 20, 1 << 17), CopyStrategy::Kernel { reserve: true });
}

#[test]
fn ranges_are_copied_to_the_end() {
    assert_eq!(range_count(20 << 20, 0), 16 << 20);
    assert_eq!(range_count(20 << 20, 16 << 20), 4 << 20);
    assert_eq!(range_next(10, 0, Some(4), false), RangeNext::Continue { total: 4 });
    assert_eq!(range_next(10, 4, Some(6), false), RangeNext::Done { total: 10 });
    assert_eq!(range_next(10, 4, Some(0), false), RangeNext::EndedEarly);
    assert_eq!(range_next(10, 0, None, true), RangeNext::Fallback);
    assert_eq!(range_next(10, 4, None, true), RangeNext::Failed);
}

#[test]
fn rotating_disks_are_paced() {
    let mib = 1u64 << 20;
    assert_eq!(pace_hdd_writeback(MediaKind::Hdd, 128 * mib, 32 * mib), Some((32 * mib, 160 * mib)));
    assert_eq!(pace_hdd_writeback(MediaKind::Hdd, 16 * mib, 32 * mib), None);
    assert_eq!(pace_hdd_writeback(MediaKind::Nvme, 128 * mib, 32 * mib), None);
}

#[test]
fn nothing_is_written_through_a_link() {
    let (paths, upwards) = ancestors_to_check("/a/b/./c");
    assert_eq!(paths, vec!["/a", "/a/b", "/a/b/c"]);
    assert!(!upwards);
    let (paths, upwards) = ancestors_to_check("/a/../c");
    assert_eq!(paths, vec!["/a"]);
    assert!(upwards);
    assert_eq!(judge_ancestor(AncestorKind::Link), Err(AncestorError::Symlink));
    assert_eq!(judge_ancestor(AncestorKind::Other), Err(AncestorError::NotADirectory));
    assert_eq!(judge_ancestor(AncestorKind::Unknown), Err(AncestorError::Unreadable));
    assert_eq!(judge_ancestor(AncestorKind::Directory), Ok(()));
    assert_eq!(directory_step(AncestorKind::Directory, false), DirectoryStep::Nothing);
    assert_eq!(directory_step(AncestorKind::Missing, false), DirectoryStep::Create);
    assert_eq!(directory_step(AncestorKind::Link, true), DirectoryStep::Replace);
    assert_eq!(directory_step(AncestorKind::Unknown, false), DirectoryStep::Fail);
}

#[test]
fn deeper_directories_get_their_times_first() {
    let dir = |path: &str, depth: usize| WalkedDirectory {
        path: path.to_string(),
        depth,
        atime: 0,
        mtime: 0,
    };
    let ordered = order_directories(vec![dir("a", 1), dir("a/b/c", 3), dir("a/b", 2), dir("d", 1)]);
    let paths: Vec<&str> = ordered.iter().map(|d| d.path.as_str()).collect();
    assert_eq!(paths, vec!["a/b/c", "a/b", "a", "d"]);
    assert_eq!(permission_bits(0o100_4755), 0o4755);
}

#[test]
fn writers_wait_for_room() {
    let mut limiter = InflightWriteLimiter::new(10);
    assert_eq!(limiter.acquire(6), Some(6));
    assert_eq!(limiter.acquire(6), None);
    limiter.release(6);
    assert_eq!(limiter.acquire(100), Some(10));
    assert_eq!(limiter.acquire(1), None);
}
