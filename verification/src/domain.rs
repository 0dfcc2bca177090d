//! Types shared by planning, transfer, telemetry and output.

use vstd::prelude::*;

verus! {

/// Whether the source is kept.
#[derive(Clone, Copy, Debug, PartialEq, Eq, Structural)]
pub enum TransferMode {
    Copy,
    Move,
}

impl TransferMode {
    /// The mode's name as it stands in a sentence.
    pub open spec fn word_text(self) -> Seq<char> {
        match self {
            TransferMode::Copy => "copy"@,
            TransferMode::Move => "move"@,
        }
    }

    /// The mode's name at the start of a sentence.
    pub open spec fn word_cap_text(self) -> Seq<char> {
        match self {
            TransferMode::Copy => "Copy"@,
            TransferMode::Move => "Move"@,
        }
    }

    pub fn word(self) -> (r: &'static str)
        ensures
            r@ == self.word_text(),
    {
        match self {
            TransferMode::Copy => "copy",
            TransferMode::Move => "move",
        }
    }

    pub fn word_cap(self) -> (r: &'static str)
        ensures
            r@ == self.word_cap_text(),
    {
        match self {
            TransferMode::Copy => "Copy",
            TransferMode::Move => "Move",
        }
    }
}

/// Which side a collision rule favours.
#[derive(Clone, Copy, Debug, PartialEq, Eq, Structural)]
pub enum CollisionWinner {
    Source,
    Dest,
}

/// How the conditions of a collision rule combine.
#[derive(Clone, Copy, Debug, PartialEq, Eq, Structural)]
pub enum CollisionCombineMode {
    Any,
    All,
}

/// The conditions of a collision rule.
#[derive(Clone, Copy, Debug, PartialEq, Eq, Structural)]
pub struct CollisionPredicates {
    pub always: bool,
    pub newer: bool,
    pub larger: bool,
    pub size_differs: bool,
}

/// A collision rule: who wins, and on which conditions.
#[derive(Clone, Copy, Debug, PartialEq, Eq, Structural)]
pub struct MergeCollisionPolicy {
    pub winner: CollisionWinner,
    pub combine: CollisionCombineMode,
    pub predicates: CollisionPredicates,
}

/// The rule in force when none is given: the source wins where sizes differ.
pub open spec fn default_policy() -> MergeCollisionPolicy {
    MergeCollisionPolicy {
        winner: CollisionWinner::Source,
        combine: CollisionCombineMode::Any,
        predicates: CollisionPredicates {
            always: false,
            newer: false,
            larger: false,
            size_differs: true,
        },
    }
}

impl Default for MergeCollisionPolicy {
    fn default() -> (r: Self)
        ensures
            r == default_policy(),
    {
        MergeCollisionPolicy {
            winner: CollisionWinner::Source,
            combine: CollisionCombineMode::Any,
            predicates: CollisionPredicates {
                always: false,
                newer: false,
                larger: false,
                size_differs: true,
            },
        }
    }
}

impl MergeCollisionPolicy {
    /// Tests whether equal sizes alone leave a file uncopied, so that its contents are
    /// to be compared.
    pub fn requires_content_identity_check(&self) -> (r: bool)
        ensures
            r == (self.predicates.size_differs && !self.predicates.always
                && !self.predicates.newer && !self.predicates.larger),
    {
        self.predicates.size_differs && !self.predicates.always && !self.predicates.newer
            && !self.predicates.larger
    }

    /// Whether the rule reads modification times.
    pub fn requires_mtime(self) -> (r: bool)
        ensures
            r == self.predicates.newer,
    {
        self.predicates.newer
    }
}

/// What a source path names. A symbolic link counts as a file.
#[derive(Clone, Copy, Debug, PartialEq, Eq, Structural)]
pub enum SrcObjKind {
    File,
    Dir,
}

/// What a destination path names or is to become.
#[derive(Clone, Copy, Debug, PartialEq, Eq, Structural)]
pub enum DstObjKind {
    Dir,
    DirExisting,
    DirNew,
    File,
    FileExistingForDir,
}

/// The storage class of a device.
#[derive(Clone, Copy, Debug, PartialEq, Eq, Structural)]
pub enum MediaKind {
    Nvme,
    Hdd,
    Other,
}

/// Who moves the bytes.
#[derive(Clone, Copy, Debug, PartialEq, Eq, Structural)]
pub enum TransferBackend {
    Rust,
    Rsync,
}

impl TransferBackend {
    /// The backend's name.
    pub open spec fn word_text(self) -> Seq<char> {
        match self {
            TransferBackend::Rust => "rust"@,
            TransferBackend::Rsync => "rsync"@,
        }
    }

    /// Elevated rights need a process of their own.
    pub fn for_rights(sudo: bool) -> (r: TransferBackend)
        ensures
            r == (if sudo {
                TransferBackend::Rsync
            } else {
                TransferBackend::Rust
            }),
    {
        if sudo {
            TransferBackend::Rsync
        } else {
            TransferBackend::Rust
        }
    }

    pub fn word(self) -> (r: &'static str)
        ensures
            r@ == self.word_text(),
    {
        match self {
            TransferBackend::Rust => "rust",
            TransferBackend::Rsync => "rsync",
        }
    }

    /// Tells whether a scan has to list what is to be done: where this backend
    /// works from the list, and for the cleanup of a move.
    pub fn needs_manifest(self, preview_only: bool, mode: TransferMode) -> (r: bool)
        ensures
            r == (!preview_only && (self == TransferBackend::Rust || mode == TransferMode::Move)),
    {
        !preview_only && match (self, mode) {
            (TransferBackend::Rust, _) => true,
            (_, TransferMode::Move) => true,
            _ => false,
        }
    }
}

/// A remote endpoint, `user@host:path`.
#[derive(Debug)]
pub struct RemoteSpec {
    pub user: Option<String>,
    pub host: String,
    pub path: String,
}

/// The model of a remote endpoint.
#[verifier::ext_equal]
pub struct RemoteModel {
    pub user: Option<Seq<char>>,
    pub host: Seq<char>,
    pub path: Seq<char>,
}

impl View for RemoteSpec {
    type V = RemoteModel;

    open spec fn view(&self) -> RemoteModel {
        RemoteModel {
            user: match self.user {
                Some(u) => Some(u@),
                None => None,
            },
            host: self.host@,
            path: self.path@,
        }
    }
}

/// One end of a transfer.
#[derive(Debug)]
pub enum Endpoint {
    Local(String),
    Remote(RemoteSpec),
}

/// How a path differs between source and destination.
#[derive(Clone, Copy, Debug, PartialEq, Eq, Structural)]
pub enum ChangeKind {
    NewFile,
    ModFile,
    RemovedFile,
    NewDir,
    RemovedDir,
}

/// One line of a change preview.
#[derive(Debug)]
pub struct ChangeItem {
    pub kind: ChangeKind,
    pub rel: String,
}

/// How many files stand in each relation of size and time to their
/// destination counterparts.
#[derive(Clone, Copy, Debug, PartialEq, Eq, Structural)]
pub struct FileRelationBreakdown {
    pub same_time_same_size: u64,
    pub same_time_source_larger: u64,
    pub same_time_source_smaller: u64,
    pub same_size_source_newer: u64,
    pub same_size_source_older: u64,
    pub source_older_smaller: u64,
    pub source_older_larger: u64,
    pub source_newer_smaller: u64,
    pub source_newer_larger: u64,
}

/// Sum that stops at the largest 64-bit number.
pub open spec fn sat_add(a: u64, b: u64) -> u64 {
    if a + b > u64::MAX {
        u64::MAX
    } else {
        (a + b) as u64
    }
}

/// Difference that stops at zero.
pub open spec fn sat_sub(a: u64, b: u64) -> u64 {
    if a < b {
        0
    } else {
        (a - b) as u64
    }
}

/// No file counted.
pub open spec fn empty_breakdown() -> FileRelationBreakdown {
    FileRelationBreakdown {
        same_time_same_size: 0,
        same_time_source_larger: 0,
        same_time_source_smaller: 0,
        same_size_source_newer: 0,
        same_size_source_older: 0,
        source_older_smaller: 0,
        source_older_larger: 0,
        source_newer_smaller: 0,
        source_newer_larger: 0,
    }
}

/// The counters of two breakdowns added up, each saturating.
pub open spec fn breakdown_sum(
    a: FileRelationBreakdown,
    b: FileRelationBreakdown,
) -> FileRelationBreakdown {
    FileRelationBreakdown {
        same_time_same_size: sat_add(a.same_time_same_size, b.same_time_same_size),
        same_time_source_larger: sat_add(a.same_time_source_larger, b.same_time_source_larger),
        same_time_source_smaller: sat_add(a.same_time_source_smaller, b.same_time_source_smaller),
        same_size_source_newer: sat_add(a.same_size_source_newer, b.same_size_source_newer),
        same_size_source_older: sat_add(a.same_size_source_older, b.same_size_source_older),
        source_older_smaller: sat_add(a.source_older_smaller, b.source_older_smaller),
        source_older_larger: sat_add(a.source_older_larger, b.source_older_larger),
        source_newer_smaller: sat_add(a.source_newer_smaller, b.source_newer_smaller),
        source_newer_larger: sat_add(a.source_newer_larger, b.source_newer_larger),
    }
}

impl Default for FileRelationBreakdown {
    fn default() -> (r: Self)
        ensures
            r == empty_breakdown(),
    {
        FileRelationBreakdown {
            same_time_same_size: 0,
            same_time_source_larger: 0,
            same_time_source_smaller: 0,
            same_size_source_newer: 0,
            same_size_source_older: 0,
            source_older_smaller: 0,
            source_older_larger: 0,
            source_newer_smaller: 0,
            source_newer_larger: 0,
        }
    }
}

impl FileRelationBreakdown {
    /// Adds the counters of another breakdown.
    pub fn add_assign(&mut self, other: Self)
        ensures
            *final(self) == breakdown_sum(*old(self), other),
    {
        self.same_time_same_size = self.same_time_same_size.saturating_add(
            other.same_time_same_size,
        );
        self.same_time_source_larger = self.same_time_source_larger.saturating_add(
            other.same_time_source_larger,
        );
        self.same_time_source_smaller = self.same_time_source_smaller.saturating_add(
            other.same_time_source_smaller,
        );
        self.same_size_source_newer = self.same_size_source_newer.saturating_add(
            other.same_size_source_newer,
        );
        self.same_size_source_older = self.same_size_source_older.saturating_add(
            other.same_size_source_older,
        );
        self.source_older_smaller = self.source_older_smaller.saturating_add(
            other.source_older_smaller,
        );
        self.source_older_larger = self.source_older_larger.saturating_add(
            other.source_older_larger,
        );
        self.source_newer_smaller = self.source_newer_smaller.saturating_add(
            other.source_newer_smaller,
        );
        self.source_newer_larger = self.source_newer_larger.saturating_add(
            other.source_newer_larger,
        );
    }
}

/// The order in which breakdowns are added makes no difference.
pub proof fn law_breakdown_sum_commutes(a: FileRelationBreakdown, b: FileRelationBreakdown)
    ensures
        breakdown_sum(a, b) == breakdown_sum(b, a),
{
}

/// Neither does their grouping, saturation included.
pub proof fn law_breakdown_sum_associates(
    a: FileRelationBreakdown,
    b: FileRelationBreakdown,
    c: FileRelationBreakdown,
)
    ensures
        breakdown_sum(breakdown_sum(a, b), c) == breakdown_sum(a, breakdown_sum(b, c)),
{
}

/// What a removal pass did.
#[derive(Clone, Copy, Debug, PartialEq, Eq, Structural)]
pub struct DeleteCleanupOutcome {
    pub files: u64,
    pub bytes: u64,
    pub success: bool,
}

impl Default for DeleteCleanupOutcome {
    fn default() -> (r: Self)
        ensures
            r == (DeleteCleanupOutcome { files: 0, bytes: 0, success: true }),
    {
        DeleteCleanupOutcome { files: 0, bytes: 0, success: true }
    }
}

/// A sum that fits is exact, and one that does not is the greatest number; a difference is
/// exact unless it would fall below zero, and then it is zero.
pub proof fn law_sums_stop_at_the_ends(a: u64, b: u64)
    ensures
        sat_add(a, b) == a + b || (a + b > 0xffff_ffff_ffff_ffff && sat_add(a, b)
            == 0xffff_ffff_ffff_ffff),
        a >= b ==> sat_sub(a, b) + b == a,
        a < b ==> sat_sub(a, b) == 0,
        sat_sub(sat_add(a, b), b) == a || a + b > 0xffff_ffff_ffff_ffff,
{
}

/// Every counter of a sum of breakdowns is the sum of the two counters, where that fits.
pub proof fn law_breakdowns_add_up(a: FileRelationBreakdown, b: FileRelationBreakdown)
    ensures
        ({
            let s = breakdown_sum(a, b);
            let top = 0xffff_ffff_ffff_ffffint;
            &&& a.same_time_same_size + b.same_time_same_size <= top ==> s.same_time_same_size
                == a.same_time_same_size + b.same_time_same_size
            &&& a.same_time_source_larger + b.same_time_source_larger <= top
                ==> s.same_time_source_larger == a.same_time_source_larger
                + b.same_time_source_larger
            &&& a.same_time_source_smaller + b.same_time_source_smaller <= top
                ==> s.same_time_source_smaller == a.same_time_source_smaller
                + b.same_time_source_smaller
            &&& a.same_size_source_newer + b.same_size_source_newer <= top
                ==> s.same_size_source_newer == a.same_size_source_newer + b.same_size_source_newer
            &&& a.same_size_source_older + b.same_size_source_older <= top
                ==> s.same_size_source_older == a.same_size_source_older + b.same_size_source_older
            &&& a.source_older_smaller + b.source_older_smaller <= top ==> s.source_older_smaller
                == a.source_older_smaller + b.source_older_smaller
            &&& a.source_older_larger + b.source_older_larger <= top ==> s.source_older_larger
                == a.source_older_larger + b.source_older_larger
            &&& a.source_newer_smaller + b.source_newer_smaller <= top ==> s.source_newer_smaller
                == a.source_newer_smaller + b.source_newer_smaller
            &&& a.source_newer_larger + b.source_newer_larger <= top ==> s.source_newer_larger
                == a.source_newer_larger + b.source_newer_larger
        }),
{
}

} // verus!
