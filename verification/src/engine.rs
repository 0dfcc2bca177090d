//! Moving the bytes of one file, and checking that they arrived.

use crate::domain;
use crate::domain::MediaKind;
use crate::order;
use crate::order::Ranked;
use crate::paths;
use crate::runtime;
use crate::text;
use sha2::Digest;
use sha2::Sha256;
use vstd::prelude::*;

verus! {

/// A `sha2::Sha256` that takes in bytes.
#[verifier::external_body]
pub struct Digester {
    inner: Sha256,
}

/// The bytes that a digester has taken in.
pub uninterp spec fn absorbed(d: Digester) -> Seq<u8>;

/// The SHA-256 digest of bytes.
pub uninterp spec fn sha256(bytes: Seq<u8>) -> Seq<u8>;

/// No bytes.
pub open spec fn no_bytes() -> Seq<u8> {
    Seq::empty()
}

/// `Sha256::new` has taken in nothing.
#[verifier::external_body]
fn new_digester() -> (r: Digester)
    ensures
        absorbed(r) == no_bytes(),
{
    Digester { inner: Sha256::new() }
}

/// `Digest::update` takes in bytes behind those before.
#[verifier::external_body]
fn absorb(d: &mut Digester, data: &[u8])
    ensures
        absorbed(*final(d)) == absorbed(*old(d)) + data@,
{
    d.inner.update(data);
}

/// `Digest::finalize` gives the SHA-256 digest of what was taken in, 32 bytes
/// long.
#[verifier::external_body]
fn digest(d: Digester) -> (r: Vec<u8>)
    ensures
        r@ == sha256(absorbed(d)),
        r@.len() == 32,
{
    d.inner.finalize().to_vec()
}

/// Why two files do not pass for the same.
#[derive(Clone, Copy, Debug, PartialEq, Eq, Structural)]
pub enum VerifyError {
    NotRegularFiles,
    SizeDiffers,
    OffsetsDiffer,
    DigestDiffers,
}

/// What the metadata of two files tells.
pub open spec fn metadata_verdict(
    source_is_file: bool,
    destination_is_file: bool,
    source: u64,
    destination: u64,
) -> Result<(), VerifyError> {
    if !source_is_file || !destination_is_file {
        Err(VerifyError::NotRegularFiles)
    } else if source != destination {
        Err(VerifyError::SizeDiffers)
    } else {
        Ok(())
    }
}

/// Tests what the metadata of two files tells.
pub fn verify_metadata(source_is_file: bool, destination_is_file: bool, source: u64, destination: u64) -> (r:
    Result<(), VerifyError>)
    ensures
        r == metadata_verdict(source_is_file, destination_is_file, source, destination),
{
    if !source_is_file || !destination_is_file {
        Err(VerifyError::NotRegularFiles)
    } else if source != destination {
        Err(VerifyError::SizeDiffers)
    } else {
        Ok(())
    }
}

/// Two files whose contents are being compared by digest.
pub struct PairVerification {
    source: Digester,
    destination: Digester,
}

impl PairVerification {
    /// What was read of the source.
    pub closed spec fn source_bytes(&self) -> Seq<u8> {
        absorbed(self.source)
    }

    /// What was read of the destination.
    pub closed spec fn destination_bytes(&self) -> Seq<u8> {
        absorbed(self.destination)
    }

    /// Nothing read yet.
    pub fn new() -> (r: Self)
        ensures
            r.source_bytes() == no_bytes(),
            r.destination_bytes() == no_bytes(),
    {
        PairVerification { source: new_digester(), destination: new_digester() }
    }

    /// Takes in what was read of both files; tells whether there may be more.
    pub fn feed(&mut self, source: &[u8], destination: &[u8]) -> (r: Result<bool, VerifyError>)
        ensures
            match r {
                Ok(more) => source@.len() == destination@.len() && more == (source@.len() > 0),
                Err(e) => e == VerifyError::OffsetsDiffer && source@.len() != destination@.len(),
            },
            r is Ok ==> final(self).source_bytes() == old(self).source_bytes() + source@,
            r is Ok ==> final(self).destination_bytes() == old(self).destination_bytes()
                + destination@,
            r is Err ==> *final(self) == *old(self),
    {
        if source.len() != destination.len() {
            return Err(VerifyError::OffsetsDiffer);
        }
        absorb(&mut self.source, source);
        absorb(&mut self.destination, destination);
        Ok(source.len() > 0)
    }

    /// Compares the digests of all that was read.
    pub fn finish(self) -> (r: Result<(), VerifyError>)
        ensures
            r == (if sha256(self.source_bytes()) == sha256(self.destination_bytes()) {
                Ok(())
            } else {
                Err(VerifyError::DigestDiffers)
            }),
    {
        let a = digest(self.source);
        let b = digest(self.destination);
        if same_digest(a.as_slice(), b.as_slice()) {
            Ok(())
        } else {
            Err(VerifyError::DigestDiffers)
        }
    }
}

fn same_digest(a: &[u8], b: &[u8]) -> (r: bool)
    ensures
        r == (a@ == b@),
{
    if a.len() != b.len() {
        return false;
    }
    let mut i: usize = 0;
    while i < a.len()
        invariant
            i <= a@.len(),
            a@.len() == b@.len(),
            forall|k: int| 0 <= k < i ==> a@[k] == b@[k],
        decreases a@.len() - i,
    {
        if a[i] != b[i] {
            assert(a@[i as int] != b@[i as int]);
            return false;
        }
        i = i + 1;
    }
    assert(a@ == b@);
    true
}

/// How a sparse file is copied from here on.
#[derive(Clone, Copy, Debug, PartialEq, Eq, Structural)]
pub enum SparseStep {
    /// Find where data begins at or behind an offset.
    SeekData { from: u64, first: bool },
    /// Find where data ends at or behind an offset.
    SeekHole { from: u64 },
    /// Copy at most `left` bytes at an offset; the data ends at `end`.
    Copy { at: u64, left: u64, end: u64 },
    Finish { total: u64 },
    /// The file system does not tell data from holes.
    Unsupported,
    Failed { ended_early: bool },
}

/// What a step came to.
#[derive(Clone, Copy, Debug, PartialEq, Eq, Structural)]
pub enum SparseEvent {
    At { offset: u64 },
    /// There is no data behind the offset.
    NoData,
    NotSupported,
    Error,
    Copied { count: u64 },
}

/// A sparse copy under way: how many bytes of the file are accounted for, and
/// the next step.
#[derive(Clone, Copy, Debug, PartialEq, Eq, Structural)]
pub struct SparseCopy {
    pub size: u64,
    pub done: u64,
    pub step: SparseStep,
}

pub open spec fn least(a: u64, b: u64) -> u64 {
    if a < b {
        a
    } else {
        b
    }
}

/// The copy with `count` more bytes accounted for, and a next step.
pub open spec fn sparse_on(c: SparseCopy, count: u64, step: SparseStep) -> SparseCopy {
    SparseCopy { size: c.size, done: domain::sat_add(c.done, count), step }
}

/// The end of a copy.
pub open spec fn sparse_end(c: SparseCopy, count: u64) -> SparseCopy {
    sparse_on(
        c,
        count,
        SparseStep::Finish { total: least(domain::sat_add(c.done, count), c.size) },
    )
}

/// What follows the end of data at `hole`.
pub open spec fn after_data(c: SparseCopy, count: u64, hole: u64) -> SparseCopy {
    if hole >= c.size {
        sparse_end(c, count)
    } else {
        sparse_on(c, count, SparseStep::SeekData { from: hole, first: false })
    }
}

/// The beginning of a sparse copy.
pub open spec fn sparse_start(size: u64) -> SparseCopy {
    SparseCopy {
        size,
        done: 0,
        step: if size == 0 {
            SparseStep::Finish { total: 0 }
        } else {
            SparseStep::SeekData { from: 0, first: true }
        },
    }
}

/// The copy after a step, and the bytes to report as done.
pub open spec fn sparse_next(c: SparseCopy, e: SparseEvent) -> (SparseCopy, u64) {
    let failed = (sparse_on(c, 0, SparseStep::Failed { ended_early: false }), 0u64);
    match (c.step, e) {
        (SparseStep::SeekData { from, .. }, SparseEvent::At { offset }) => {
            let gap = domain::sat_sub(offset, from);
            (
                if offset < c.size {
                    sparse_on(c, gap, SparseStep::SeekHole { from: offset })
                } else {
                    sparse_end(c, gap)
                },
                gap,
            )
        },
        (SparseStep::SeekData { from, first }, SparseEvent::NoData) => if first {
            (sparse_on(c, 0, SparseStep::Finish { total: c.size }), 0)
        } else {
            let tail = domain::sat_sub(c.size, from);
            (sparse_end(c, tail), tail)
        },
        (SparseStep::SeekData { first, .. }, SparseEvent::NotSupported) => if first {
            (sparse_on(c, 0, SparseStep::Unsupported), 0)
        } else {
            failed
        },
        (SparseStep::SeekHole { from }, SparseEvent::At { offset }) => {
            let hole = least(offset, c.size);
            if hole > from {
                (
                    sparse_on(
                        c,
                        0,
                        SparseStep::Copy { at: from, left: (hole - from) as u64, end: hole },
                    ),
                    0,
                )
            } else {
                (after_data(c, 0, hole), 0)
            }
        },
        (SparseStep::Copy { at, left, end }, SparseEvent::Copied { count }) => if count == 0
            || count > left {
            (sparse_on(c, 0, SparseStep::Failed { ended_early: true }), 0)
        } else if count < left {
            (
                sparse_on(
                    c,
                    count,
                    SparseStep::Copy {
                        at: domain::sat_add(at, count),
                        left: (left - count) as u64,
                        end,
                    },
                ),
                count,
            )
        } else {
            (after_data(c, count, end), count)
        },
        _ => failed,
    }
}

fn go_on(c: SparseCopy, count: u64, step: SparseStep) -> (r: SparseCopy)
    ensures
        r == sparse_on(c, count, step),
{
    SparseCopy { size: c.size, done: c.done.saturating_add(count), step }
}

fn end(c: SparseCopy, count: u64) -> (r: SparseCopy)
    ensures
        r == sparse_end(c, count),
{
    let done: u64 = c.done.saturating_add(count);
    let total: u64 = if done < c.size {
        done
    } else {
        c.size
    };
    SparseCopy { size: c.size, done, step: SparseStep::Finish { total } }
}

fn pass_data(c: SparseCopy, count: u64, hole: u64) -> (r: SparseCopy)
    ensures
        r == after_data(c, count, hole),
{
    if hole >= c.size {
        end(c, count)
    } else {
        go_on(c, count, SparseStep::SeekData { from: hole, first: false })
    }
}

impl SparseCopy {
    /// Begins a sparse copy.
    pub fn start(size: u64) -> (r: SparseCopy)
        ensures
            r == sparse_start(size),
    {
        SparseCopy {
            size,
            done: 0,
            step: if size == 0 {
                SparseStep::Finish { total: 0 }
            } else {
                SparseStep::SeekData { from: 0, first: true }
            },
        }
    }

    /// Goes on after a step; returns the bytes to report as done.
    pub fn next(&mut self, e: SparseEvent) -> (r: u64)
        ensures
            (*final(self), r) == sparse_next(*old(self), e),
    {
        let c = *self;
        let (next, reported) = match (c.step, e) {
            (SparseStep::SeekData { from, first: _ }, SparseEvent::At { offset }) => {
                let gap: u64 = offset.saturating_sub(from);
                (
                    if offset < c.size {
                        go_on(c, gap, SparseStep::SeekHole { from: offset })
                    } else {
                        end(c, gap)
                    },
                    gap,
                )
            },
            (SparseStep::SeekData { from, first }, SparseEvent::NoData) => if first {
                (go_on(c, 0, SparseStep::Finish { total: c.size }), 0)
            } else {
                let tail: u64 = c.size.saturating_sub(from);
                (end(c, tail), tail)
            },
            (SparseStep::SeekData { from: _, first: true }, SparseEvent::NotSupported) => {
                (go_on(c, 0, SparseStep::Unsupported), 0)
            },
            (SparseStep::SeekHole { from }, SparseEvent::At { offset }) => {
                let hole: u64 = if offset < c.size {
                    offset
                } else {
                    c.size
                };
                if hole > from {
                    (
                        go_on(c, 0, SparseStep::Copy { at: from, left: hole - from, end: hole }),
                        0,
                    )
                } else {
                    (pass_data(c, 0, hole), 0)
                }
            },
            (SparseStep::Copy { at, left, end }, SparseEvent::Copied { count }) => if count == 0
                || count > left {
                (go_on(c, 0, SparseStep::Failed { ended_early: true }), 0)
            } else if count < left {
                let at: u64 = at.saturating_add(count);
                (go_on(c, count, SparseStep::Copy { at, left: left - count, end }), count)
            } else {
                (pass_data(c, count, end), count)
            },
            _ => (go_on(c, 0, SparseStep::Failed { ended_early: false }), 0),
        };
        *self = next;
        reported
    }

    /// Whether the bytes accounted for are those before the current offset.
    pub open spec fn in_step(&self) -> bool {
        match self.step {
            SparseStep::SeekData { from, .. } => self.done == from && from < self.size,
            SparseStep::SeekHole { from } => self.done == from && from < self.size,
            SparseStep::Copy { at, left, end } => self.done == at && at + left == end && end
                <= self.size && left > 0,
            SparseStep::Finish { total } => total == self.size,
            _ => true,
        }
    }

    /// A sparse copy accounts for every byte: where offsets are found at or
    /// behind those asked for, the bytes reported are those passed, and a copy
    /// that finishes has come to the size of the file.
    pub proof fn law_every_byte_is_accounted_for(self, e: SparseEvent)
        requires
            self.in_step(),
            e matches SparseEvent::At { offset } ==> (self.step matches SparseStep::SeekData {
                from,
                ..
            } ==> offset >= from) && (self.step matches SparseStep::SeekHole { from } ==> offset
                >= from),
            !(self.step is Finish),
        ensures
            sparse_next(self, e).0.in_step(),
            sparse_next(self, e).0.done == self.done + sparse_next(self, e).1,
            sparse_next(self, e).0.step matches SparseStep::Finish { total } ==> total == self.size,
    {
    }
}

/// How a file's bytes are copied where they cannot be shared.
#[derive(Clone, Copy, Debug, PartialEq, Eq, Structural)]
pub enum CopyStrategy {
    /// By its extents of data.
    Sparse,
    /// By the kernel, with the space reserved first on request.
    Kernel { reserve: bool },
}

/// How a file is copied.
pub open spec fn strategy_of(size: u64, blocks: u64) -> CopyStrategy {
    if runtime::sat_mul(blocks, 512) < size {
        CopyStrategy::Sparse
    } else {
        CopyStrategy::Kernel { reserve: size >= 0x400_0000 }
    }
}

/// Chooses how a file is copied: by extents where it occupies less than its
/// size in blocks of 512 bytes; a large one has its space reserved.
pub fn copy_strategy(size: u64, blocks: u64) -> (r: CopyStrategy)
    ensures
        r == strategy_of(size, blocks),
{
    let occupied: u64 = match blocks.checked_mul(512) {
        Some(n) => n,
        None => u64::MAX,
    };
    if occupied < size {
        CopyStrategy::Sparse
    } else {
        CopyStrategy::Kernel { reserve: size >= 64 * 1024 * 1024 }
    }
}

/// How many bytes the kernel is asked to copy next.
pub fn range_count(size: u64, total: u64) -> (r: u64)
    requires
        total < size,
    ensures
        r == (if size - total < 0x100_0000 {
            (size - total) as u64
        } else {
            0x100_0000
        }),
        0 < r <= size - total,
{
    if size - total < 16 * 1024 * 1024 {
        size - total
    } else {
        16 * 1024 * 1024
    }
}

/// What follows an attempt of the kernel to copy.
#[derive(Clone, Copy, Debug, PartialEq, Eq, Structural)]
pub enum RangeNext {
    Continue { total: u64 },
    Done { total: u64 },
    /// The kernel cannot copy here: read and write instead.
    Fallback,
    EndedEarly,
    Failed,
}

/// What follows an attempt of the kernel to copy.
pub open spec fn range_after(
    size: u64,
    total: u64,
    copied: Option<u64>,
    unsupported: bool,
) -> RangeNext {
    match copied {
        Some(n) => if n == 0 {
            RangeNext::EndedEarly
        } else if total + n < size {
            RangeNext::Continue { total: (total + n) as u64 }
        } else {
            RangeNext::Done { total: size }
        },
        None => if unsupported && total == 0 {
            RangeNext::Fallback
        } else {
            RangeNext::Failed
        },
    }
}

/// Decides what follows an attempt of the kernel to copy: the bytes it copied,
/// or whether its error means that it cannot copy between these files. That
/// is an error once anything was copied.
pub fn range_next(size: u64, total: u64, copied: Option<u64>, unsupported: bool) -> (r: RangeNext)
    requires
        total < size,
        copied is Some ==> copied->0 <= size - total,
    ensures
        r == range_after(size, total, copied, unsupported),
{
    match copied {
        Some(n) => if n == 0 {
            RangeNext::EndedEarly
        } else if n < size - total {
            RangeNext::Continue { total: total + n }
        } else {
            RangeNext::Done { total: size }
        },
        None => if unsupported && total == 0 {
            RangeNext::Fallback
        } else {
            RangeNext::Failed
        },
    }
}

/// When a rotating disk is told to write back, from where, and the next mark.
pub open spec fn paced_writeback(
    media: MediaKind,
    total: u64,
    next_pace_at: u64,
) -> Option<(u64, u64)> {
    if media != MediaKind::Hdd || total < next_pace_at {
        None
    } else {
        Some((domain::sat_sub(total, 0x600_0000), domain::sat_add(total, 0x200_0000)))
    }
}

/// When a rotating disk is told to write back, and from where: every 32
/// mebibytes, from 96 mebibytes behind. `None` means not yet; otherwise the
/// offset and the next mark.
pub fn pace_hdd_writeback(media: MediaKind, total: u64, next_pace_at: u64) -> (r: Option<(u64, u64)>)
    ensures
        r == paced_writeback(media, total, next_pace_at),
{
    let rotates = match media {
        MediaKind::Hdd => true,
        _ => false,
    };
    if !rotates || total < next_pace_at {
        None
    } else {
        Some((total.saturating_sub(96 * 1024 * 1024), total.saturating_add(32 * 1024 * 1024)))
    }
}

/// The permission bits of a mode.
pub fn permission_bits(mode: u32) -> (r: u32)
    ensures
        r == mode & 0o7777,
{
    mode & 0o7777
}

/// The path of the first `n` names of a path.
pub open spec fn prefix_path(parts: Seq<Seq<char>>, n: int) -> Seq<char>
    decreases n,
{
    if n <= 0 {
        if parts.len() > 0 && parts[0] == "/"@ {
            "/"@
        } else {
            "."@
        }
    } else if parts[n - 1] == "/"@ || parts[n - 1] == "."@ {
        prefix_path(parts, n - 1)
    } else {
        paths::joined_path(prefix_path(parts, n - 1), parts[n - 1])
    }
}

/// Whether a component is a name that leads further down.
pub open spec fn leads_down(part: Seq<char>) -> bool {
    part != "/"@ && part != "."@
}

/// The paths at which a symbolic link would lead elsewhere, from the top down.
pub open spec fn ancestors_of(parts: Seq<Seq<char>>, n: int) -> Seq<Seq<char>>
    decreases n,
{
    if n <= 0 {
        Seq::empty()
    } else if leads_down(parts[n - 1]) {
        ancestors_of(parts, n - 1).push(prefix_path(parts, n))
    } else {
        ancestors_of(parts, n - 1)
    }
}

/// Lists the paths at which a symbolic link would lead elsewhere, from the top
/// down, up to a component that leads upwards: nothing may go through one.
/// The second result tells whether there is one.
pub fn ancestors_to_check(path: &str) -> (r: (Vec<String>, bool))
    ensures
        ({
            let parts = paths::comps(path@);
            exists|n: int|
                0 <= n <= parts.len() && text::texts(r.0@) == #[trigger] ancestors_of(parts, n)
                    && (forall|k: int| 0 <= k < n ==> #[trigger] parts[k] != ".."@) && (if r.1 {
                    n < parts.len() && parts[n] == ".."@
                } else {
                    n == parts.len()
                })
        }),
{
    let list = paths::components(text::to_chars(path).as_slice());
    let ghost parts = text::rows(list@);
    let mut current = if list.len() > 0 && text::is_text(list[0].as_slice(), "/") {
        text::copy("/")
    } else {
        text::copy(".")
    };
    assert(list@.len() > 0 ==> parts[0] == list@[0]@);
    let mut out: Vec<String> = Vec::new();
    let mut i: usize = 0;
    assert(text::texts(out@) == ancestors_of(parts, 0));
    while i < list.len()
        invariant
            i <= list@.len(),
            parts == text::rows(list@),
            parts == paths::comps(path@),
            current@ == prefix_path(parts, i as int),
            text::texts(out@) == ancestors_of(parts, i as int),
            forall|k: int| 0 <= k < i ==> #[trigger] parts[k] != ".."@,
        decreases list@.len() - i,
    {
        let part = &list[i];
        assert(parts[i as int] == part@);
        if text::is_text(part.as_slice(), "..") {
            assert(text::texts(out@) == ancestors_of(parts, i as int));
            return (out, true);
        }
        if !text::is_text(part.as_slice(), "/") && !text::is_text(part.as_slice(), ".") {
            let name = text::from_chars(part.as_slice());
            current = paths::join_path(current.as_str(), name.as_str());
            let ghost before = out@;
            out.push(current.clone());
            assert(text::texts(out@) == text::texts(before).push(current@));
        }
        i = i + 1;
    }
    assert(text::texts(out@) == ancestors_of(parts, parts.len() as int));
    (out, false)
}

/// What stands at a path on the way.
#[derive(Clone, Copy, Debug, PartialEq, Eq, Structural)]
pub enum AncestorKind {
    Link,
    Directory,
    Other,
    Missing,
    Unknown,
}

/// Why nothing may go through a path.
#[derive(Clone, Copy, Debug, PartialEq, Eq, Structural)]
pub enum AncestorError {
    Symlink,
    NotADirectory,
    Unreadable,
}

/// Whether a path on the way lets one through.
pub open spec fn ancestor_verdict(kind: AncestorKind) -> Result<(), AncestorError> {
    match kind {
        AncestorKind::Link => Err(AncestorError::Symlink),
        AncestorKind::Other => Err(AncestorError::NotADirectory),
        AncestorKind::Unknown => Err(AncestorError::Unreadable),
        AncestorKind::Directory | AncestorKind::Missing => Ok(()),
    }
}

/// Judges a path on the way: only directories, and what does not exist yet,
/// let one through.
pub fn judge_ancestor(kind: AncestorKind) -> (r: Result<(), AncestorError>)
    ensures
        r == ancestor_verdict(kind),
{
    match kind {
        AncestorKind::Link => Err(AncestorError::Symlink),
        AncestorKind::Other => Err(AncestorError::NotADirectory),
        AncestorKind::Unknown => Err(AncestorError::Unreadable),
        AncestorKind::Directory => Ok(()),
        AncestorKind::Missing => Ok(()),
    }
}

/// What is done to make a path a directory.
#[derive(Clone, Copy, Debug, PartialEq, Eq, Structural)]
pub enum DirectoryStep {
    Nothing,
    Create,
    Replace,
    Fail,
}

/// What is done to make a path a directory.
pub open spec fn directory_step_of(kind: AncestorKind, replace_conflict: bool) -> DirectoryStep {
    match kind {
        AncestorKind::Directory => DirectoryStep::Nothing,
        AncestorKind::Missing => DirectoryStep::Create,
        AncestorKind::Unknown => DirectoryStep::Fail,
        AncestorKind::Link | AncestorKind::Other => if replace_conflict {
            DirectoryStep::Replace
        } else {
            DirectoryStep::Create
        },
    }
}

/// Decides what is done to make a path a directory. What stands in the way is
/// replaced only on request; without it the creation fails by itself.
pub fn directory_step(kind: AncestorKind, replace_conflict: bool) -> (r: DirectoryStep)
    ensures
        r == directory_step_of(kind, replace_conflict),
{
    match kind {
        AncestorKind::Directory => DirectoryStep::Nothing,
        AncestorKind::Missing => DirectoryStep::Create,
        AncestorKind::Unknown => DirectoryStep::Fail,
        _ => if replace_conflict {
            DirectoryStep::Replace
        } else {
            DirectoryStep::Create
        },
    }
}

/// A directory whose times are to be restored.
#[derive(Debug)]
pub struct WalkedDirectory {
    pub path: String,
    pub depth: usize,
    pub atime: i128,
    pub mtime: i128,
}

impl Ranked for WalkedDirectory {
    open spec fn before(self, other: Self) -> bool {
        self.depth > other.depth
    }

    proof fn asymmetric(a: Self, b: Self) {
    }

    proof fn not_before_transitive(a: Self, b: Self, c: Self) {
    }

    fn is_before(&self, other: &Self) -> (r: bool) {
        self.depth > other.depth
    }
}

/// Puts directories in the order in which their times are restored: children
/// before parents, since a change below would touch the parent again.
pub fn order_directories(dirs: Vec<WalkedDirectory>) -> (r: Vec<WalkedDirectory>)
    ensures
        r@ == order::ranked(dirs@),
{
    order::sort(dirs)
}

/// Two files pass by their metadata exactly when both are regular and of one size.
pub proof fn law_metadata_must_agree(a_is_file: bool, b_is_file: bool, a: u64, b: u64)
    ensures
        metadata_verdict(a_is_file, b_is_file, a, b) is Ok <==> a_is_file && b_is_file && a == b,
        a_is_file && b_is_file && a != b <==> metadata_verdict(a_is_file, b_is_file, a, b) == Err::<
            (),
            VerifyError,
        >(VerifyError::SizeDiffers),
{
}

/// A sparse copy passes over a hole without copying it, copies what lies between two holes
/// in full, and ends where the file does.
pub proof fn law_sparse_copies_follow_the_data(c: SparseCopy, offset: u64)
    ensures
        c.step matches SparseStep::SeekData { from, .. } ==> {
            let r = sparse_next(c, SparseEvent::At { offset });
            &&& from <= offset ==> r.1 == offset - from
            &&& offset < c.size ==> r.0.step == (SparseStep::SeekHole { from: offset })
            &&& offset >= c.size ==> r.0.step is Finish
        },
        c.step matches SparseStep::SeekHole { from } ==> {
            let r = sparse_next(c, SparseEvent::At { offset });
            &&& r.1 == 0
            &&& from < offset <= c.size ==> r.0.step == (SparseStep::Copy {
                at: from,
                left: (offset - from) as u64,
                end: offset,
            })
            &&& from < c.size < offset ==> r.0.step == (SparseStep::Copy {
                at: from,
                left: (c.size - from) as u64,
                end: c.size,
            })
        },
{
}

/// Copied bytes are reported as they are, the next ones are copied from where they end, and
/// a copy that gives nothing while bytes are left has failed.
pub proof fn law_copied_bytes_are_passed(c: SparseCopy, count: u64)
    ensures
        c.step matches SparseStep::Copy { at, left, end } ==> {
            let r = sparse_next(c, SparseEvent::Copied { count });
            &&& 0 < count <= left ==> r.1 == count
            &&& 0 < count < left && at + count <= u64::MAX ==> r.0.step == (SparseStep::Copy {
                at: (at + count) as u64,
                left: (left - count) as u64,
                end,
            })
            &&& count == left && count > 0 && end < c.size ==> r.0.step == (SparseStep::SeekData {
                from: end,
                first: false,
            })
            &&& count == left && count > 0 && end >= c.size ==> r.0.step is Finish
            &&& count == 0 ==> r.0.step == (SparseStep::Failed { ended_early: true }) && r.1 == 0
        },
{
}

/// Only the first look for data may find that the file system does not tell data from
/// holes; an error at any step is a failure.
pub proof fn law_errors_end_a_sparse_copy(c: SparseCopy)
    requires
        !(c.step is Finish),
    ensures
        sparse_next(c, SparseEvent::Error).0.step == (SparseStep::Failed { ended_early: false }),
        sparse_next(c, SparseEvent::Error).1 == 0,
        sparse_next(c, SparseEvent::NotSupported).0.step is Unsupported <==> (
        c.step matches SparseStep::SeekData { first, .. } && first),
        c.step matches SparseStep::SeekData { from, first } ==> sparse_next(
            c,
            SparseEvent::NoData,
        ).0.step is Finish,
{
}

/// A sparse copy begins with a look for data from the start, and is done at once for an
/// empty file.
pub proof fn law_sparse_copies_begin_at_the_start(size: u64)
    ensures
        sparse_start(size).size == size && sparse_start(size).done == 0,
        size == 0 ==> sparse_start(size).step == (SparseStep::Finish { total: 0 }),
        size > 0 ==> sparse_start(size).step == (SparseStep::SeekData { from: 0, first: true }),
        sparse_start(size).in_step(),
{
}

/// A file is copied by its extents exactly when its blocks hold less than its size; a file
/// of 64 mebibytes or more that is copied otherwise has its space reserved.
pub proof fn law_only_files_with_holes_are_sparse(size: u64, blocks: u64)
    requires
        blocks * 512 <= u64::MAX,
    ensures
        strategy_of(size, blocks) is Sparse <==> blocks * 512 < size,
        strategy_of(size, blocks) matches CopyStrategy::Kernel { reserve } ==> (reserve <==> size
            >= 64 * 1024 * 1024),
{
}

/// The kernel's copies add up: a copy is done exactly when all of the file is copied, goes
/// on where it stopped, and falls back only before anything was copied.
pub proof fn law_ranges_add_up(size: u64, total: u64, copied: Option<u64>, unsupported: bool)
    requires
        total < size,
        copied is Some ==> copied->0 <= size - total,
    ensures
        ({
            let r = range_after(size, total, copied, unsupported);
            &&& r is Done <==> copied is Some && copied->0 > 0 && total + copied->0 == size
            &&& r matches RangeNext::Done { total: n } ==> n == size
            &&& r matches RangeNext::Continue { total: n } ==> copied is Some && n == total
                + copied->0 && total < n < size
            &&& r is EndedEarly <==> copied == Some(0u64)
            &&& r is Fallback <==> copied is None && unsupported && total == 0
            &&& r is Failed <==> copied is None && !(unsupported && total == 0)
        }),
{
}

/// Nothing goes through a symbolic link or a file, nor where nothing can be known.
pub proof fn law_only_directories_let_through(kind: AncestorKind)
    ensures
        ancestor_verdict(kind) is Ok <==> kind is Directory || kind is Missing,
        kind is Link <==> ancestor_verdict(kind) == Err::<(), AncestorError>(AncestorError::Symlink),
{
}

/// A directory stays, and what stands in its place is replaced only on request.
pub proof fn law_replaced_only_on_request(kind: AncestorKind, replace_conflict: bool)
    ensures
        ({
            let r = directory_step_of(kind, replace_conflict);
            &&& r is Nothing <==> kind is Directory
            &&& r is Replace <==> replace_conflict && (kind is Link || kind is Other)
            &&& r is Fail <==> kind is Unknown
        }),
{
}

/// Only a rotating disk is told to write back, and only once a mark is passed; the next
/// mark lies 32 mebibytes on, and the last 96 mebibytes are left alone.
pub proof fn law_writeback_follows_behind(media: MediaKind, total: u64, next_pace_at: u64)
    ensures
        ({
            let r = paced_writeback(media, total, next_pace_at);
            &&& r is Some <==> media == MediaKind::Hdd && total >= next_pace_at
            &&& r matches Some(x) ==> {
                &&& total >= 96 * 1024 * 1024 ==> x.0 == total - 96 * 1024 * 1024
                &&& total < 96 * 1024 * 1024 ==> x.0 == 0
                &&& total + 32 * 1024 * 1024 <= u64::MAX ==> x.1 == total + 32 * 1024 * 1024
            }
        }),
{
}

/// Every component of a path that leads down is looked at, from the top down.
pub proof fn law_every_step_down_is_looked_at(parts: Seq<Seq<char>>, n: int)
    requires
        0 <= n < parts.len(),
    ensures
        parts[n] != "/"@ && parts[n] != "."@ ==> ancestors_of(parts, n + 1) == ancestors_of(
            parts,
            n,
        ).push(paths::joined_path(prefix_path(parts, n), parts[n])),
        parts[n] == "/"@ || parts[n] == "."@ ==> ancestors_of(parts, n + 1) == ancestors_of(
            parts,
            n,
        ),
{
}

/// Directories get their times children first.
pub proof fn law_deeper_directories_come_first(dirs: Seq<WalkedDirectory>, i: int, j: int)
    requires
        0 <= i <= j < order::ranked(dirs).len(),
    ensures
        order::ranked(dirs)[i].depth >= order::ranked(dirs)[j].depth,
        order::ranked(dirs).to_multiset() == dirs.to_multiset(),
{
    order::law_ranked(dirs);
    assert(!order::ranked(dirs)[j].before(order::ranked(dirs)[i]));
}

/// The directories above an absolute path start at the root, and those above any other where
/// one is.
pub proof fn law_prefixes_start_where_the_path_does(parts: Seq<Seq<char>>)
    requires
        parts.len() > 0,
    ensures
        prefix_path(parts, 0) == "/"@ <==> parts[0] == "/"@,
        prefix_path(parts, 0) == "."@ <==> parts[0] != "/"@,
{
    reveal_strlit("/");
    reveal_strlit(".");
    assert("/"@[0] != "."@[0]);
}

} // verus!
