//! The operations of a transfer as an estimate of its duration sees them:
//! directories, files by size class, and metadata.

use crate::domain;
use crate::domain::MediaKind;
use crate::prescan::TransferManifest;
use vstd::prelude::*;

verus! {

/// The number of size classes.
pub const ETA_FILE_BIN_COUNT: usize = 8;

/// The largest size in a class, except for the last class.
pub open spec fn bin_limit(bin: int) -> int {
    if bin == 0 {
        0x1000
    } else if bin == 1 {
        0x4000
    } else if bin == 2 {
        0x1_0000
    } else if bin == 3 {
        0x4_0000
    } else if bin == 4 {
        0x10_0000
    } else if bin == 5 {
        0x40_0000
    } else {
        0x400_0000
    }
}

/// The size class of a file: the first whose limit its size does not exceed.
pub open spec fn file_bin(size: u64) -> int {
    if size <= bin_limit(0) {
        0
    } else if size <= bin_limit(1) {
        1
    } else if size <= bin_limit(2) {
        2
    } else if size <= bin_limit(3) {
        3
    } else if size <= bin_limit(4) {
        4
    } else if size <= bin_limit(5) {
        5
    } else if size <= bin_limit(6) {
        6
    } else {
        7
    }
}

/// Finds the size class of a file.
pub fn eta_file_bin(size: u64) -> (r: usize)
    ensures
        r == file_bin(size),
        r < 8,
{
    if size <= 4 * 1024 {
        0
    } else if size <= 16 * 1024 {
        1
    } else if size <= 64 * 1024 {
        2
    } else if size <= 256 * 1024 {
        3
    } else if size <= 1024 * 1024 {
        4
    } else if size <= 4 * 1024 * 1024 {
        5
    } else if size <= 64 * 1024 * 1024 {
        6
    } else {
        7
    }
}

/// A larger file is never in a lower class.
pub proof fn law_bins_grow(a: u64, b: u64)
    requires
        a <= b,
    ensures
        file_bin(a) <= file_bin(b),
{
}

/// One operation.
#[derive(Clone, Copy, Debug, PartialEq, Eq, Structural)]
pub struct EtaWorkOp {
    pub bytes: u64,
    pub bin: u8,
    pub is_dir: bool,
    pub is_metadata: bool,
}

/// Operations counted by what they are.
#[derive(Clone, Copy, Debug)]
pub struct EtaWorkSummary {
    pub file_bins: [u64; 8],
    pub file_bytes: [u64; 8],
    pub dirs: u64,
    pub metadata: u64,
}

/// The model of a summary.
#[verifier::ext_equal]
pub struct SummaryModel {
    pub bins: Seq<u64>,
    pub bytes: Seq<u64>,
    pub dirs: u64,
    pub metadata: u64,
}

impl View for EtaWorkSummary {
    type V = SummaryModel;

    open spec fn view(&self) -> SummaryModel {
        SummaryModel {
            bins: self.file_bins@,
            bytes: self.file_bytes@,
            dirs: self.dirs,
            metadata: self.metadata,
        }
    }
}

/// No operation.
pub open spec fn empty_summary() -> SummaryModel {
    SummaryModel {
        bins: Seq::new(8, |i: int| 0u64),
        bytes: Seq::new(8, |i: int| 0u64),
        dirs: 0,
        metadata: 0,
    }
}

impl Default for EtaWorkSummary {
    fn default() -> (r: Self)
        ensures
            r@ == empty_summary(),
    {
        let r = EtaWorkSummary {
            file_bins: [0, 0, 0, 0, 0, 0, 0, 0],
            file_bytes: [0, 0, 0, 0, 0, 0, 0, 0],
            dirs: 0,
            metadata: 0,
        };
        assert(r@ == empty_summary());
        r
    }
}

/// The class in which an operation is counted.
pub open spec fn bin_of(op: EtaWorkOp) -> int {
    if op.bin < 8 {
        op.bin as int
    } else {
        7
    }
}

/// A summary with one operation more. A metadata operation is also counted
/// among the files of its class.
pub open spec fn plus_op(s: SummaryModel, op: EtaWorkOp) -> SummaryModel {
    let b = bin_of(op);
    if op.is_dir && !op.is_metadata {
        SummaryModel { dirs: domain::sat_add(s.dirs, 1), ..s }
    } else {
        SummaryModel {
            bins: s.bins.update(b, domain::sat_add(s.bins[b], 1)),
            bytes: s.bytes.update(b, domain::sat_add(s.bytes[b], op.bytes)),
            dirs: s.dirs,
            metadata: if op.is_metadata {
                domain::sat_add(s.metadata, 1)
            } else {
                s.metadata
            },
        }
    }
}

/// Two summaries added up.
pub open spec fn summary_sum(a: SummaryModel, b: SummaryModel) -> SummaryModel {
    SummaryModel {
        bins: Seq::new(8, |i: int| domain::sat_add(a.bins[i], b.bins[i])),
        bytes: Seq::new(8, |i: int| domain::sat_add(a.bytes[i], b.bytes[i])),
        dirs: domain::sat_add(a.dirs, b.dirs),
        metadata: domain::sat_add(a.metadata, b.metadata),
    }
}

impl EtaWorkSummary {
    /// Counts an operation.
    pub fn add_op(&mut self, op: EtaWorkOp)
        ensures
            final(self)@ == plus_op(old(self)@, op),
    {
        if op.is_metadata {
            self.metadata = self.metadata.saturating_add(1);
        } else if op.is_dir {
            self.dirs = self.dirs.saturating_add(1);
            return;
        }
        let bin: usize = if op.bin < 8 {
            op.bin as usize
        } else {
            7
        };
        let count: u64 = self.file_bins[bin].saturating_add(1);
        let bytes: u64 = self.file_bytes[bin].saturating_add(op.bytes);
        self.file_bins[bin] = count;
        self.file_bytes[bin] = bytes;
        assert(self@ == plus_op(old(self)@, op));
    }

    /// Adds another summary.
    pub fn add_assign(&mut self, other: Self)
        ensures
            final(self)@ == summary_sum(old(self)@, other@),
    {
        let ghost before = self@;
        let mut i: usize = 0;
        while i < 8
            invariant
                i <= 8,
                before.bins.len() == 8,
                before.bytes.len() == 8,
                self.dirs == before.dirs,
                self.metadata == before.metadata,
                forall|k: int|
                    0 <= k < i ==> #[trigger] self.file_bins@[k] == domain::sat_add(
                        before.bins[k],
                        other.file_bins@[k],
                    ),
                forall|k: int|
                    0 <= k < i ==> #[trigger] self.file_bytes@[k] == domain::sat_add(
                        before.bytes[k],
                        other.file_bytes@[k],
                    ),
                forall|k: int| i <= k < 8 ==> #[trigger] self.file_bins@[k] == before.bins[k],
                forall|k: int| i <= k < 8 ==> #[trigger] self.file_bytes@[k] == before.bytes[k],
            decreases 8 - i,
        {
            let count: u64 = self.file_bins[i].saturating_add(other.file_bins[i]);
            let bytes: u64 = self.file_bytes[i].saturating_add(other.file_bytes[i]);
            self.file_bins[i] = count;
            self.file_bytes[i] = bytes;
            i = i + 1;
        }
        self.dirs = self.dirs.saturating_add(other.dirs);
        self.metadata = self.metadata.saturating_add(other.metadata);
        assert(self@ == summary_sum(before, other@));
    }
}

/// The summary of a run of operations.
pub open spec fn summary_of(ops: Seq<EtaWorkOp>) -> SummaryModel
    decreases ops.len(),
{
    if ops.len() == 0 {
        empty_summary()
    } else {
        plus_op(summary_of(ops.drop_last()), ops.last())
    }
}

/// Summaries added up.
pub open spec fn sum_of(all: Seq<SummaryModel>) -> SummaryModel
    decreases all.len(),
{
    if all.len() == 0 {
        empty_summary()
    } else {
        summary_sum(sum_of(all.drop_last()), all.last())
    }
}

/// Difference modulo 2 to the 64.
pub open spec fn wrap_sub(a: u64, b: u64) -> u64 {
    if a >= b {
        (a - b) as u64
    } else {
        (a + 0x1_0000_0000_0000_0000 - b) as u64
    }
}

/// A summary with one operation less. What `plus_op` counts of a metadata
/// operation among the files stays.
pub open spec fn minus_op(s: SummaryModel, op: EtaWorkOp) -> SummaryModel {
    let b = bin_of(op);
    if op.is_metadata {
        SummaryModel { metadata: wrap_sub(s.metadata, 1), ..s }
    } else if op.is_dir {
        SummaryModel { dirs: wrap_sub(s.dirs, 1), ..s }
    } else {
        SummaryModel {
            bins: s.bins.update(b, wrap_sub(s.bins[b], 1)),
            bytes: s.bytes.update(b, wrap_sub(s.bytes[b], op.bytes)),
            ..s
        }
    }
}

/// The operations of segment `k`.
pub open spec fn segment<T>(all: Seq<T>, k: int) -> Seq<T> {
    all.subrange(k * 256, if k * 256 + 256 <= all.len() {
        k * 256 + 256
    } else {
        all.len() as int
    })
}

/// How many segments `n` operations make.
pub open spec fn segment_count(n: nat) -> nat {
    (n + 255) / 256
}

/// The sum of a measure over all operations.
pub open spec fn all_sum(ops: Seq<EtaWorkOp>, f: spec_fn(EtaWorkOp) -> nat) -> nat
    decreases ops.len(),
{
    if ops.len() == 0 {
        0
    } else {
        all_sum(ops.drop_last(), f) + f(ops.last())
    }
}

/// The sum of a measure over the operations that are not done.
pub open spec fn open_sum(
    ops: Seq<EtaWorkOp>,
    done: Seq<bool>,
    f: spec_fn(EtaWorkOp) -> nat,
) -> nat
    decreases ops.len(),
{
    if ops.len() == 0 {
        0
    } else {
        open_sum(ops.drop_last(), done.drop_last(), f) + (if done.last() {
            0
        } else {
            f(ops.last())
        })
    }
}

pub open spec fn is_file_op(op: EtaWorkOp) -> bool {
    !op.is_dir && !op.is_metadata
}

/// One for each file of a class.
pub open spec fn file_in(b: int) -> spec_fn(EtaWorkOp) -> nat {
    |op: EtaWorkOp|
        if is_file_op(op) && bin_of(op) == b {
            1nat
        } else {
            0
        }
}

/// One for each metadata operation of a class.
pub open spec fn metadata_in(b: int) -> spec_fn(EtaWorkOp) -> nat {
    |op: EtaWorkOp|
        if op.is_metadata && bin_of(op) == b {
            1nat
        } else {
            0
        }
}

/// The bytes of the files of a class.
pub open spec fn file_bytes_in(b: int) -> spec_fn(EtaWorkOp) -> nat {
    |op: EtaWorkOp|
        if is_file_op(op) && bin_of(op) == b {
            op.bytes as nat
        } else {
            0
        }
}

/// The bytes of the metadata operations of a class.
pub open spec fn metadata_bytes_in(b: int) -> spec_fn(EtaWorkOp) -> nat {
    |op: EtaWorkOp|
        if op.is_metadata && bin_of(op) == b {
            op.bytes as nat
        } else {
            0
        }
}

/// One for each directory.
pub open spec fn dir_op_count() -> spec_fn(EtaWorkOp) -> nat {
    |op: EtaWorkOp|
        if op.is_dir && !op.is_metadata {
            1nat
        } else {
            0
        }
}

/// One for each metadata operation.
pub open spec fn metadata_count() -> spec_fn(EtaWorkOp) -> nat {
    |op: EtaWorkOp|
        if op.is_metadata {
            1nat
        } else {
            0
        }
}

/// Whether a summary counts what is left of its operations: the files that are
/// not done and all metadata operations by class, and the directories and
/// metadata operations that are not done. The bytes are exact where those of
/// the class fit in 64 bits.
pub open spec fn tracks(s: SummaryModel, ops: Seq<EtaWorkOp>, done: Seq<bool>) -> bool {
    &&& s.bins.len() == 8
    &&& s.bytes.len() == 8
    &&& s.dirs == open_sum(ops, done, dir_op_count())
    &&& s.metadata == open_sum(ops, done, metadata_count())
    &&& forall|b: int|
        0 <= b < 8 ==> #[trigger] s.bins[b] == open_sum(ops, done, file_in(b)) + all_sum(
            ops,
            metadata_in(b),
        )
    &&& forall|b: int|
        0 <= b < 8 && all_sum(ops, file_bytes_in(b)) + all_sum(ops, metadata_bytes_in(b))
            <= u64::MAX ==> #[trigger] s.bytes[b] == open_sum(ops, done, file_bytes_in(b))
            + all_sum(ops, metadata_bytes_in(b))
}

proof fn lemma_open_sum_all(ops: Seq<EtaWorkOp>, done: Seq<bool>, f: spec_fn(EtaWorkOp) -> nat)
    requires
        ops.len() == done.len(),
        forall|i: int| 0 <= i < done.len() ==> !done[i],
    ensures
        open_sum(ops, done, f) == all_sum(ops, f),
    decreases ops.len(),
{
    if ops.len() > 0 {
        lemma_open_sum_all(ops.drop_last(), done.drop_last(), f);
    }
}

proof fn lemma_open_sum_mark(
    ops: Seq<EtaWorkOp>,
    done: Seq<bool>,
    f: spec_fn(EtaWorkOp) -> nat,
    i: int,
)
    requires
        ops.len() == done.len(),
        0 <= i < ops.len(),
        !done[i],
    ensures
        open_sum(ops, done, f) == open_sum(ops, done.update(i, true), f) + f(ops[i]),
        open_sum(ops, done, f) <= all_sum(ops, f),
    decreases ops.len(),
{
    let marked = done.update(i, true);
    if i == ops.len() - 1 {
        assert(marked.drop_last() == done.drop_last());
        lemma_open_sum_bound(ops.drop_last(), done.drop_last(), f);
    } else {
        lemma_open_sum_mark(ops.drop_last(), done.drop_last(), f, i);
        assert(marked.drop_last() == done.drop_last().update(i, true));
    }
}

proof fn lemma_open_sum_bound(ops: Seq<EtaWorkOp>, done: Seq<bool>, f: spec_fn(EtaWorkOp) -> nat)
    requires
        ops.len() == done.len(),
    ensures
        open_sum(ops, done, f) <= all_sum(ops, f),
    decreases ops.len(),
{
    if ops.len() > 0 {
        lemma_open_sum_bound(ops.drop_last(), done.drop_last(), f);
    }
}

proof fn lemma_count_bound(ops: Seq<EtaWorkOp>, b: int)
    ensures
        all_sum(ops, file_in(b)) + all_sum(ops, metadata_in(b)) <= ops.len(),
        all_sum(ops, dir_op_count()) <= ops.len(),
        all_sum(ops, metadata_count()) <= ops.len(),
    decreases ops.len(),
{
    if ops.len() > 0 {
        lemma_count_bound(ops.drop_last(), b);
    }
}

proof fn lemma_summary_tracks(ops: Seq<EtaWorkOp>, done: Seq<bool>)
    requires
        ops.len() <= 256,
        ops.len() == done.len(),
        forall|i: int| 0 <= i < done.len() ==> !done[i],
    ensures
        tracks(summary_of(ops), ops, done),
    decreases ops.len(),
{
    let s = summary_of(ops);
    if ops.len() > 0 {
        let rest = ops.drop_last();
        let t = summary_of(rest);
        lemma_summary_tracks(rest, done.drop_last());
        lemma_count_bound(rest, 0);
        assert forall|b: int| 0 <= b < 8 implies #[trigger] s.bins[b] == open_sum(
            ops,
            done,
            file_in(b),
        ) + all_sum(ops, metadata_in(b)) by {
            lemma_count_bound(rest, b);
            lemma_open_sum_bound(rest, done.drop_last(), file_in(b));
            assert(t.bins[b] == open_sum(rest, done.drop_last(), file_in(b)) + all_sum(
                rest,
                metadata_in(b),
            ));
        }
        assert forall|b: int|
            0 <= b < 8 && all_sum(ops, file_bytes_in(b)) + all_sum(ops, metadata_bytes_in(b))
                <= u64::MAX implies #[trigger] s.bytes[b] == open_sum(ops, done, file_bytes_in(b))
            + all_sum(ops, metadata_bytes_in(b)) by {
            lemma_open_sum_bound(rest, done.drop_last(), file_bytes_in(b));
            assert(t.bytes[b] == open_sum(rest, done.drop_last(), file_bytes_in(b)) + all_sum(
                rest,
                metadata_bytes_in(b),
            ));
        }
        lemma_open_sum_bound(rest, done.drop_last(), dir_op_count());
        lemma_open_sum_bound(rest, done.drop_last(), metadata_count());
    }
}

proof fn lemma_mark_tracks(s: SummaryModel, ops: Seq<EtaWorkOp>, done: Seq<bool>, i: int)
    requires
        tracks(s, ops, done),
        ops.len() == done.len(),
        0 <= i < ops.len(),
        !done[i],
    ensures
        tracks(minus_op(s, ops[i]), ops, done.update(i, true)),
{
    let op = ops[i];
    let t = minus_op(s, op);
    let marked = done.update(i, true);
    lemma_open_sum_mark(ops, done, dir_op_count(), i);
    lemma_open_sum_mark(ops, done, metadata_count(), i);
    assert forall|b: int| 0 <= b < 8 implies #[trigger] t.bins[b] == open_sum(
        ops,
        marked,
        file_in(b),
    ) + all_sum(ops, metadata_in(b)) by {
        lemma_open_sum_mark(ops, done, file_in(b), i);
        assert(s.bins[b] == open_sum(ops, done, file_in(b)) + all_sum(ops, metadata_in(b)));
    }
    assert forall|b: int|
        0 <= b < 8 && all_sum(ops, file_bytes_in(b)) + all_sum(ops, metadata_bytes_in(b))
            <= u64::MAX implies #[trigger] t.bytes[b] == open_sum(ops, marked, file_bytes_in(b))
        + all_sum(ops, metadata_bytes_in(b)) by {
        lemma_open_sum_mark(ops, done, file_bytes_in(b), i);
        assert(s.bytes[b] == open_sum(ops, done, file_bytes_in(b)) + all_sum(
            ops,
            metadata_bytes_in(b),
        ));
    }
}

/// What a workload knows: its operations, which of them are done, and what is
/// left, segment by segment.
#[verifier::ext_equal]
pub struct WorkModel {
    pub ops: Seq<EtaWorkOp>,
    pub done: Seq<bool>,
    pub left: Seq<SummaryModel>,
}

/// The operations of a transfer and which of them are done.
pub struct EtaWorkload {
    /// All operations, summarised.
    pub total: EtaWorkSummary,
    pub media: MediaKind,
    pub profile_key: u64,
    pub operations: Vec<EtaWorkOp>,
    pub completed: Vec<bool>,
    /// What is left of each run of operations.
    pub segments: Vec<EtaWorkSummary>,
}

pub open spec fn summaries(v: Seq<EtaWorkSummary>) -> Seq<SummaryModel> {
    v.map_values(|s: EtaWorkSummary| s@)
}

impl View for EtaWorkload {
    type V = WorkModel;

    open spec fn view(&self) -> WorkModel {
        WorkModel {
            ops: self.operations@,
            done: self.completed@,
            left: summaries(self.segments@),
        }
    }
}

/// A workload whose segments count what is left.
pub open spec fn is_consistent(w: WorkModel) -> bool {
    &&& w.done.len() == w.ops.len()
    &&& w.left.len() == segment_count(w.ops.len())
    &&& forall|k: int|
        0 <= k < w.left.len() ==> tracks(#[trigger] w.left[k], segment(w.ops, k), segment(w.done, k))
}

/// A workload of which nothing is done.
pub open spec fn fresh(ops: Seq<EtaWorkOp>) -> WorkModel {
    WorkModel {
        ops,
        done: Seq::new(ops.len(), |i: int| false),
        left: Seq::new(segment_count(ops.len()), |k: int| summary_of(segment(ops, k))),
    }
}

/// The workload after an operation is done. One that is done already, or does
/// not exist, changes nothing.
pub open spec fn marked(w: WorkModel, i: int) -> WorkModel {
    if 0 <= i < w.ops.len() && !w.done[i] {
        WorkModel {
            ops: w.ops,
            done: w.done.update(i, true),
            left: w.left.update(i / 256, minus_op(w.left[i / 256], w.ops[i])),
        }
    } else {
        w
    }
}

/// A workload of which nothing is done counts everything.
pub proof fn law_fresh_is_consistent(ops: Seq<EtaWorkOp>)
    ensures
        is_consistent(fresh(ops)),
{
    let w = fresh(ops);
    assert forall|k: int| 0 <= k < w.left.len() implies tracks(
        #[trigger] w.left[k],
        segment(w.ops, k),
        segment(w.done, k),
    ) by {
        lemma_summary_tracks(segment(w.ops, k), segment(w.done, k));
    }
}

/// Marking keeps the count of what is left.
pub proof fn law_marked_is_consistent(w: WorkModel, i: int)
    requires
        is_consistent(w),
    ensures
        is_consistent(marked(w, i)),
{
    let m = marked(w, i);
    if 0 <= i < w.ops.len() && !w.done[i] {
        let at = i / 256;
        assert forall|k: int| 0 <= k < m.left.len() implies tracks(
            #[trigger] m.left[k],
            segment(m.ops, k),
            segment(m.done, k),
        ) by {
            if k == at {
                assert(tracks(w.left[k], segment(w.ops, k), segment(w.done, k)));
                lemma_mark_tracks(w.left[k], segment(w.ops, k), segment(w.done, k), i - k * 256);
                assert(segment(m.done, k) == segment(w.done, k).update(i - k * 256, true));
            } else {
                assert(tracks(w.left[k], segment(w.ops, k), segment(w.done, k)));
                assert(segment(m.done, k) == segment(w.done, k));
            }
        }
    }
}

/// Marking an operation twice is marking it once.
pub proof fn law_marking_is_idempotent(w: WorkModel, i: int)
    requires
        is_consistent(w),
    ensures
        marked(marked(w, i), i) == marked(w, i),
{
}

/// The order in which operations are marked makes no difference.
pub proof fn law_marking_commutes(w: WorkModel, i: int, j: int)
    requires
        is_consistent(w),
    ensures
        marked(marked(w, i), j) == marked(marked(w, j), i),
{
    let a = marked(marked(w, i), j);
    let b = marked(marked(w, j), i);
    if i != j && 0 <= i < w.ops.len() && 0 <= j < w.ops.len() && !w.done[i] && !w.done[j] {
        assert(a.done == b.done);
        let s = w.left[i / 256];
        if i / 256 == j / 256 {
            let x = minus_op(minus_op(s, w.ops[i]), w.ops[j]);
            let y = minus_op(minus_op(s, w.ops[j]), w.ops[i]);
            assert(tracks(s, segment(w.ops, i / 256), segment(w.done, i / 256)));
            assert(x.bins == y.bins);
            assert(x.bytes == y.bytes);
            assert(x == y);
        }
        assert(a.left == b.left);
    }
}

/// The operations of one directory.
pub open spec fn dir_op() -> EtaWorkOp {
    EtaWorkOp { bytes: 0, bin: 0, is_dir: true, is_metadata: false }
}

/// The operation that restores the times of a directory.
pub open spec fn metadata_op() -> EtaWorkOp {
    EtaWorkOp { bytes: 0, bin: 0, is_dir: false, is_metadata: true }
}

/// The operation that copies a file.
pub open spec fn file_op(size: u64) -> EtaWorkOp {
    EtaWorkOp { bytes: size, bin: file_bin(size) as u8, is_dir: false, is_metadata: false }
}

/// The operations of a manifest: directories, files, directory times.
pub open spec fn manifest_ops(m: TransferManifest, include_root: bool) -> Seq<EtaWorkOp> {
    Seq::new(
        if include_root {
            1
        } else {
            0
        },
        |i: int| dir_op(),
    ) + Seq::new(m.dirs@.len(), |i: int| dir_op()) + Seq::new(
        m.copy_files@.len(),
        |i: int| file_op(m.copy_files@[i].size),
    ) + Seq::new(m.dir_times@.len(), |i: int| metadata_op())
}

fn push_copies(out: &mut Vec<EtaWorkOp>, op: EtaWorkOp, n: usize)
    ensures
        final(out)@ == old(out)@ + Seq::new(n as nat, |i: int| op),
{
    let mut i: usize = 0;
    while i < n
        invariant
            i <= n,
            out@ == old(out)@ + Seq::new(i as nat, |k: int| op),
        decreases n - i,
    {
        out.push(op);
        assert(out@ == old(out)@ + Seq::new((i + 1) as nat, |k: int| op));
        i = i + 1;
    }
}

fn make_file_op(size: u64) -> (r: EtaWorkOp)
    ensures
        r == file_op(size),
{
    let bin: usize = eta_file_bin(size);
    EtaWorkOp { bytes: size, bin: bin as u8, is_dir: false, is_metadata: false }
}

impl EtaWorkload {
    /// A workload of the given operations.
    pub fn from_ops(operations: Vec<EtaWorkOp>, media: MediaKind, profile_key: u64) -> (r: Self)
        ensures
            r@ == fresh(operations@),
            is_consistent(r@),
            r.total@ == sum_of(fresh(operations@).left),
            r.media == media,
            r.profile_key == profile_key,
    {
        let ghost ops = operations@;
        let ghost want = fresh(ops).left;
        let mut segments: Vec<EtaWorkSummary> = Vec::new();
        let mut completed: Vec<bool> = Vec::new();
        let mut total = EtaWorkSummary::default();
        let mut start: usize = 0;
        assert(want.take(0) == Seq::<SummaryModel>::empty());
        while start < operations.len()
            invariant
                operations@ == ops,
                want == fresh(ops).left,
                start <= ops.len(),
                start == segments@.len() * 256 || start == ops.len(),
                segments@.len() == segment_count(start as nat),
                summaries(segments@) == want.take(segments@.len() as int),
                segments@.len() <= want.len(),
                total@ == sum_of(want.take(segments@.len() as int)),
                completed@ == Seq::new(start as nat, |i: int| false),
            decreases ops.len() - start,
        {
            let ghost k = segments@.len() as int;
            let ghost part = segment(ops, k);
            assert(start == k * 256);
            let end: usize = if operations.len() - start > 256 {
                start + 256
            } else {
                operations.len()
            };
            let mut summary = EtaWorkSummary::default();
            let mut i: usize = start;
            assert(part.take(0) == Seq::<EtaWorkOp>::empty());
            while i < end
                invariant
                    operations@ == ops,
                    start == k * 256,
                    start <= i <= end <= ops.len(),
                    part == segment(ops, k),
                    part.len() == end - start,
                    summary@ == summary_of(part.take(i - start)),
                    completed@ == Seq::new(i as nat, |j: int| false),
                decreases end - i,
            {
                assert(part.take(i + 1 - start).drop_last() == part.take(i - start));
                assert(part.take(i + 1 - start).last() == ops[i as int]);
                summary.add_op(operations[i]);
                completed.push(false);
                assert(completed@ == Seq::new((i + 1) as nat, |j: int| false));
                i = i + 1;
            }
            assert(part.take(part.len() as int) == part);
            let ghost before = segments@;
            total.add_assign(summary);
            segments.push(summary);
            assert(want.take(k + 1).drop_last() == want.take(k));
            assert(summaries(segments@) == summaries(before).push(summary@));
            assert(want.take(k + 1) == want.take(k).push(want[k]));
            start = end;
        }
        assert(want.take(want.len() as int) == want);
        let r = EtaWorkload { total, media, profile_key, operations, completed, segments };
        proof {
            law_fresh_is_consistent(ops);
            assert(r@ == fresh(ops));
        }
        r
    }

    /// The workload of a manifest.
    pub fn from_manifest(
        manifest: &TransferManifest,
        include_root: bool,
        media: MediaKind,
        profile_key: u64,
    ) -> (r: Self)
        ensures
            r@ == fresh(manifest_ops(*manifest, include_root)),
            is_consistent(r@),
            r.total@ == sum_of(r@.left),
            r.media == media,
            r.profile_key == profile_key,
    {
        let dir = EtaWorkOp { bytes: 0, bin: 0, is_dir: true, is_metadata: false };
        let metadata = EtaWorkOp { bytes: 0, bin: 0, is_dir: false, is_metadata: true };
        let mut ops: Vec<EtaWorkOp> = Vec::new();
        let roots: usize = if include_root {
            1
        } else {
            0
        };
        push_copies(&mut ops, dir, roots);
        push_copies(&mut ops, dir, manifest.dirs.len());
        let ghost before = ops@;
        let mut i: usize = 0;
        while i < manifest.copy_files.len()
            invariant
                i <= manifest.copy_files@.len(),
                ops@ == before + Seq::new(
                    i as nat,
                    |k: int| file_op(manifest.copy_files@[k].size),
                ),
            decreases manifest.copy_files@.len() - i,
        {
            ops.push(make_file_op(manifest.copy_files[i].size));
            assert(ops@ == before + Seq::new(
                (i + 1) as nat,
                |k: int| file_op(manifest.copy_files@[k].size),
            ));
            i = i + 1;
        }
        push_copies(&mut ops, metadata, manifest.dir_times.len());
        assert(ops@ == manifest_ops(*manifest, include_root));
        EtaWorkload::from_ops(ops, media, profile_key)
    }

    /// The workload of single files.
    pub fn from_file_sizes(sizes: &[u64], media: MediaKind, profile_key: u64) -> (r: Self)
        ensures
            r@ == fresh(file_ops(sizes@)),
            is_consistent(r@),
            r.total@ == sum_of(r@.left),
            r.media == media,
            r.profile_key == profile_key,
    {
        let mut ops: Vec<EtaWorkOp> = Vec::new();
        let mut i: usize = 0;
        while i < sizes.len()
            invariant
                i <= sizes@.len(),
                ops@ == file_ops(sizes@.take(i as int)),
            decreases sizes@.len() - i,
        {
            ops.push(make_file_op(sizes[i]));
            assert(ops@ == file_ops(sizes@.take(i + 1)));
            i = i + 1;
        }
        assert(sizes@.take(sizes@.len() as int) == sizes@);
        EtaWorkload::from_ops(ops, media, profile_key)
    }

    /// The workload of one file.
    pub fn from_file(size: u64, media: MediaKind, profile_key: u64) -> (r: Self)
        ensures
            r@ == fresh(seq![file_op(size)]),
            is_consistent(r@),
            r.total@ == sum_of(r@.left),
            r.media == media,
            r.profile_key == profile_key,
    {
        let mut ops: Vec<EtaWorkOp> = Vec::new();
        ops.push(make_file_op(size));
        assert(ops@ == seq![file_op(size)]);
        EtaWorkload::from_ops(ops, media, profile_key)
    }

    /// Notes that an operation is done.
    pub fn mark_operation(&mut self, operation_index: usize)
        requires
            is_consistent(old(self)@),
        ensures
            final(self)@ == marked(old(self)@, operation_index as int),
            is_consistent(final(self)@),
            final(self).total == old(self).total,
            final(self).media == old(self).media,
            final(self).profile_key == old(self).profile_key,
    {
        proof {
            law_marked_is_consistent(self@, operation_index as int);
        }
        if operation_index >= self.completed.len() || self.completed[operation_index] {
            return;
        }
        let ghost before = self@;
        let op = self.operations[operation_index];
        let at: usize = operation_index / 256;
        let mut s = self.segments[at];
        proof {
            let i = operation_index as int;
            assert(before.left[at as int] == s@);
            assert(tracks(before.left[at as int], segment(before.ops, at as int), segment(
                before.done,
                at as int,
            )));
            let f = if op.is_metadata {
                metadata_count()
            } else if op.is_dir {
                dir_op_count()
            } else {
                file_in(bin_of(op))
            };
            lemma_open_sum_mark(
                segment(before.ops, at as int),
                segment(before.done, at as int),
                f,
                i - at * 256,
            );
        }
        if op.is_metadata {
            s.metadata = s.metadata - 1;
        } else if op.is_dir {
            s.dirs = s.dirs - 1;
        } else {
            let bin: usize = if op.bin < 8 {
                op.bin as usize
            } else {
                7
            };
            assert(before.left[at as int].bins[bin as int] == s.file_bins@[bin as int]);
            let count: u64 = s.file_bins[bin] - 1;
            let bytes: u64 = s.file_bytes[bin].wrapping_sub(op.bytes);
            s.file_bins[bin] = count;
            s.file_bytes[bin] = bytes;
        }
        assert(s@ == minus_op(before.left[at as int], op));
        self.completed.set(operation_index, true);
        self.segments.set(at, s);
        assert(summaries(self.segments@) == before.left.update(at as int, s@));
        assert(self@ == marked(before, operation_index as int));
    }
    /// What is left, segment by segment. `progress` counts what is done of a
    /// workload that lists no operations.
    pub fn remaining_segments(&self, progress: EtaProgressTotals) -> (r: Vec<EtaWorkSummary>)
        ensures
            summaries(r@) == remaining_parts(self@, self.total@, progress@),
    {
        let mut out: Vec<EtaWorkSummary> = Vec::new();
        if self.operations.len() == 0 {
            let metadata = self.total.metadata;
            let p = EtaProgressTotals {
                file_bins: self.total.file_bins,
                file_bytes: self.total.file_bytes,
                dirs: self.total.dirs,
                metadata,
            };
            let d = p.delta(progress);
            let s = EtaWorkSummary {
                file_bins: d.file_bins,
                file_bytes: d.file_bytes,
                dirs: d.dirs,
                metadata,
            };
            out.push(s);
            assert(summaries(out@) == seq![s@]);
            return out;
        }
        let ghost all = summaries(self.segments@);
        let ghost keep = |s: SummaryModel| has_work(s);
        let mut i: usize = 0;
        proof {
            reveal(Seq::filter);
            assert(all.take(0) == Seq::<SummaryModel>::empty());
        }
        while i < self.segments.len()
            invariant
                i <= self.segments@.len(),
                all == summaries(self.segments@),
                keep == (|s: SummaryModel| has_work(s)),
                summaries(out@) == all.take(i as int).filter(keep),
            decreases self.segments@.len() - i,
        {
            let s = self.segments[i];
            proof {
                reveal(Seq::filter);
                assert(all.take(i + 1).drop_last() == all.take(i as int));
                assert(all.take(i + 1).last() == s@);
            }
            if s.is_busy() {
                let ghost before = out@;
                out.push(s);
                assert(summaries(out@) == summaries(before).push(s@));
            }
            i = i + 1;
        }
        assert(all.take(all.len() as int) == all);
        out
    }

    /// What is left in all.
    pub fn remaining_ordered(&self, progress: EtaProgressTotals) -> (r: EtaWorkSummary)
        ensures
            r@ == sum_of(remaining_parts(self@, self.total@, progress@)),
    {
        let parts = self.remaining_segments(progress);
        let ghost all = summaries(parts@);
        let mut sum = EtaWorkSummary::default();
        let mut i: usize = 0;
        assert(all.take(0) == Seq::<SummaryModel>::empty());
        while i < parts.len()
            invariant
                i <= parts@.len(),
                all == summaries(parts@),
                sum@ == sum_of(all.take(i as int)),
            decreases parts@.len() - i,
        {
            assert(all.take(i + 1).drop_last() == all.take(i as int));
            sum.add_assign(parts[i]);
            i = i + 1;
        }
        assert(all.take(all.len() as int) == all);
        sum
    }
}

/// Whether a summary counts anything.
pub open spec fn has_work(s: SummaryModel) -> bool {
    ||| s.dirs > 0
    ||| s.metadata > 0
    ||| exists|i: int| 0 <= i < 8 && #[trigger] s.bins[i] > 0
    ||| exists|i: int| 0 <= i < 8 && #[trigger] s.bytes[i] > 0
}

/// What is left of a workload, in parts.
pub open spec fn remaining_parts(w: WorkModel, total: SummaryModel, progress: SummaryModel) -> Seq<
    SummaryModel,
> {
    if w.ops.len() == 0 {
        seq![SummaryModel { metadata: total.metadata, ..summary_delta(total, progress) }]
    } else {
        w.left.filter(|s: SummaryModel| has_work(s))
    }
}

proof fn lemma_sums_append(
    a: Seq<EtaWorkOp>,
    da: Seq<bool>,
    b: Seq<EtaWorkOp>,
    db: Seq<bool>,
    f: spec_fn(EtaWorkOp) -> nat,
)
    requires
        a.len() == da.len(),
        b.len() == db.len(),
    ensures
        open_sum(a + b, da + db, f) == open_sum(a, da, f) + open_sum(b, db, f),
        all_sum(a + b, f) == all_sum(a, f) + all_sum(b, f),
    decreases b.len(),
{
    if b.len() == 0 {
        assert(a + b == a);
        assert(da + db == da);
    } else {
        lemma_sums_append(a, da, b.drop_last(), db.drop_last(), f);
        assert((a + b).drop_last() == a + b.drop_last());
        assert((da + db).drop_last() == da + db.drop_last());
    }
}

proof fn lemma_tracks_append(
    s: SummaryModel,
    t: SummaryModel,
    a: Seq<EtaWorkOp>,
    da: Seq<bool>,
    b: Seq<EtaWorkOp>,
    db: Seq<bool>,
)
    requires
        tracks(s, a, da),
        tracks(t, b, db),
        a.len() == da.len(),
        b.len() == db.len(),
        a.len() + b.len() <= u64::MAX,
    ensures
        tracks(summary_sum(s, t), a + b, da + db),
{
    let r = summary_sum(s, t);
    let ops = a + b;
    let done = da + db;
    lemma_sums_append(a, da, b, db, dir_op_count());
    lemma_sums_append(a, da, b, db, metadata_count());
    lemma_count_bound(ops, 0);
    lemma_open_sum_bound(ops, done, dir_op_count());
    lemma_open_sum_bound(ops, done, metadata_count());
    assert forall|c: int| 0 <= c < 8 implies #[trigger] r.bins[c] == open_sum(ops, done, file_in(c))
        + all_sum(ops, metadata_in(c)) by {
        lemma_sums_append(a, da, b, db, file_in(c));
        lemma_sums_append(a, da, b, db, metadata_in(c));
        lemma_count_bound(ops, c);
        lemma_open_sum_bound(ops, done, file_in(c));
        assert(s.bins[c] == open_sum(a, da, file_in(c)) + all_sum(a, metadata_in(c)));
        assert(t.bins[c] == open_sum(b, db, file_in(c)) + all_sum(b, metadata_in(c)));
    }
    assert forall|c: int|
        0 <= c < 8 && all_sum(ops, file_bytes_in(c)) + all_sum(ops, metadata_bytes_in(c))
            <= u64::MAX implies #[trigger] r.bytes[c] == open_sum(ops, done, file_bytes_in(c))
        + all_sum(ops, metadata_bytes_in(c)) by {
        lemma_sums_append(a, da, b, db, file_bytes_in(c));
        lemma_sums_append(a, da, b, db, metadata_bytes_in(c));
        lemma_open_sum_bound(ops, done, file_bytes_in(c));
        assert(s.bytes[c] == open_sum(a, da, file_bytes_in(c)) + all_sum(a, metadata_bytes_in(c)));
        assert(t.bytes[c] == open_sum(b, db, file_bytes_in(c)) + all_sum(b, metadata_bytes_in(c)));
    }
}

proof fn lemma_idle_adds_nothing(s: SummaryModel, t: SummaryModel)
    requires
        s.bins.len() == 8 && s.bytes.len() == 8,
        t.bins.len() == 8 && t.bytes.len() == 8,
        !has_work(t),
    ensures
        summary_sum(s, t) == s,
{
    let r = summary_sum(s, t);
    assert forall|c: int| 0 <= c < 8 implies r.bins[c] == s.bins[c] && r.bytes[c] == s.bytes[c] by {
        assert(!(t.bins[c] > 0));
        assert(!(t.bytes[c] > 0));
    }
    assert(r.bins == s.bins);
    assert(r.bytes == s.bytes);
}

proof fn lemma_sum_shape(all: Seq<SummaryModel>)
    ensures
        sum_of(all).bins.len() == 8,
        sum_of(all).bytes.len() == 8,
{
}

/// What has no work adds nothing to a sum.
proof fn lemma_busy_parts(all: Seq<SummaryModel>)
    requires
        forall|k: int|
            0 <= k < all.len() ==> (#[trigger] all[k]).bins.len() == 8 && all[k].bytes.len() == 8,
    ensures
        sum_of(all.filter(|s: SummaryModel| has_work(s))) == sum_of(all),
    decreases all.len(),
{
    reveal(Seq::filter);
    let keep = |s: SummaryModel| has_work(s);
    if all.len() > 0 {
        let front = all.drop_last();
        assert forall|k: int| 0 <= k < front.len() implies (#[trigger] front[k]).bins.len() == 8
            && front[k].bytes.len() == 8 by {
            assert(front[k] == all[k]);
        }
        lemma_busy_parts(front);
        let kept = front.filter(keep);
        if has_work(all.last()) {
            assert(kept.push(all.last()).drop_last() == kept);
        } else {
            assert(all[all.len() - 1].bins.len() == 8);
            lemma_sum_shape(front);
            lemma_idle_adds_nothing(sum_of(front), all.last());
        }
    }
}

proof fn lemma_first_segments(w: WorkModel, k: int)
    requires
        is_consistent(w),
        w.ops.len() <= u64::MAX,
        0 <= k <= w.left.len(),
    ensures
        ({
            let n = if k * 256 <= w.ops.len() {
                k * 256
            } else {
                w.ops.len() as int
            };
            tracks(sum_of(w.left.take(k)), w.ops.take(n), w.done.take(n))
        }),
    decreases k,
{
    let n = if k * 256 <= w.ops.len() {
        k * 256
    } else {
        w.ops.len() as int
    };
    if k == 0 {
        assert(w.left.take(0) == Seq::<SummaryModel>::empty());
        assert(w.ops.take(0) == Seq::<EtaWorkOp>::empty());
    } else {
        lemma_first_segments(w, k - 1);
        let m = (k - 1) * 256;
        assert(m < w.ops.len());
        assert(w.left.take(k).drop_last() == w.left.take(k - 1));
        let ops = segment(w.ops, k - 1);
        let done = segment(w.done, k - 1);
        assert(tracks(w.left[k - 1], ops, done));
        lemma_tracks_append(
            sum_of(w.left.take(k - 1)),
            w.left[k - 1],
            w.ops.take(m),
            w.done.take(m),
            ops,
            done,
        );
        assert(w.ops.take(m) + ops == w.ops.take(n));
        assert(w.done.take(m) + done == w.done.take(n));
    }
}

/// What is left in all is what is left of the operations that are not done, over all
/// segments together.
pub proof fn law_remaining_is_what_is_open(
    w: WorkModel,
    total: SummaryModel,
    progress: SummaryModel,
)
    requires
        is_consistent(w),
        0 < w.ops.len() <= u64::MAX,
    ensures
        tracks(sum_of(remaining_parts(w, total, progress)), w.ops, w.done),
{
    let k = w.left.len() as int;
    lemma_first_segments(w, k);
    assert(w.left.take(k) == w.left);
    assert(w.ops.take(w.ops.len() as int) == w.ops);
    assert(w.done.take(w.done.len() as int) == w.done);
    assert forall|i: int| 0 <= i < w.left.len() implies (#[trigger] w.left[i]).bins.len() == 8
        && w.left[i].bytes.len() == 8 by {
        assert(tracks(w.left[i], segment(w.ops, i), segment(w.done, i)));
    }
    lemma_busy_parts(w.left);
}

/// The workload after some operations are done, one after another. Some may be named
/// twice, and some may not exist.
pub open spec fn all_marked(w: WorkModel, marks: Seq<int>) -> WorkModel
    decreases marks.len(),
{
    if marks.len() == 0 {
        w
    } else {
        marked(all_marked(w, marks.drop_last()), marks.last())
    }
}

/// The operations of single files.
pub open spec fn file_ops(sizes: Seq<u64>) -> Seq<EtaWorkOp> {
    sizes.map_values(|n: u64| file_op(n))
}

/// How many of the first `n` operations are not named.
pub open spec fn unmarked_count(marks: Seq<int>, n: int) -> nat
    decreases n,
{
    if n <= 0 {
        0
    } else {
        unmarked_count(marks, n - 1) + (if marks.contains(n - 1) {
            0nat
        } else {
            1nat
        })
    }
}

/// The bytes of those of the first `n` files that are not named.
pub open spec fn unmarked_bytes(sizes: Seq<u64>, marks: Seq<int>, n: int) -> nat
    decreases n,
{
    if n <= 0 {
        0
    } else {
        unmarked_bytes(sizes, marks, n - 1) + (if marks.contains(n - 1) {
            0
        } else {
            sizes[n - 1] as nat
        })
    }
}

/// Exactly the operations that were named are done.
pub proof fn law_marks_are_done(ops: Seq<EtaWorkOp>, marks: Seq<int>)
    ensures
        ({
            let w = all_marked(fresh(ops), marks);
            &&& is_consistent(w)
            &&& w.ops == ops
            &&& forall|i: int| 0 <= i < ops.len() ==> #[trigger] w.done[i] == marks.contains(i)
        }),
    decreases marks.len(),
{
    if marks.len() == 0 {
        law_fresh_is_consistent(ops);
    } else {
        let front = marks.drop_last();
        let before = all_marked(fresh(ops), front);
        let w = all_marked(fresh(ops), marks);
        law_marks_are_done(ops, front);
        law_marked_is_consistent(before, marks.last());
        assert forall|i: int| 0 <= i < ops.len() implies #[trigger] w.done[i] == marks.contains(i) by {
            assert(before.done[i] == front.contains(i));
            if front.contains(i) {
                let k = choose|k: int| 0 <= k < front.len() && front[k] == i;
                assert(marks[k] == i);
            }
            if marks.contains(i) && i != marks.last() {
                let k = choose|k: int| 0 <= k < marks.len() && marks[k] == i;
                assert(front[k] == i);
            }
            if i == marks.last() {
                assert(marks[marks.len() - 1] == i);
            }
        }
    }
}

spec fn class_sum(sizes: Seq<u64>, done: Seq<bool>, c: int) -> nat
    decreases c,
{
    if c <= 0 {
        0
    } else {
        class_sum(sizes, done, c - 1) + open_sum(file_ops(sizes), done, file_in(c - 1))
    }
}

spec fn class_bytes(sizes: Seq<u64>, done: Seq<bool>, c: int) -> nat
    decreases c,
{
    if c <= 0 {
        0
    } else {
        class_bytes(sizes, done, c - 1) + open_sum(file_ops(sizes), done, file_bytes_in(c - 1))
    }
}

/// Every open file is in one class: the last one adds its own to the classes up to
/// `c` where it is in one of them.
proof fn lemma_class_step(sizes: Seq<u64>, done: Seq<bool>, c: int)
    requires
        sizes.len() == done.len(),
        sizes.len() > 0,
        0 <= c <= 8,
    ensures
        ({
            let counts = !done.last() && bin_of(file_op(sizes.last())) < c;
            &&& class_sum(sizes, done, c) == class_sum(sizes.drop_last(), done.drop_last(), c) + (
            if counts {
                1nat
            } else {
                0nat
            })
            &&& class_bytes(sizes, done, c) == class_bytes(sizes.drop_last(), done.drop_last(), c)
                + (if counts {
                sizes.last() as nat
            } else {
                0
            })
        }),
    decreases c,
{
    if c > 0 {
        lemma_class_step(sizes, done, c - 1);
        assert(file_ops(sizes).drop_last() == file_ops(sizes.drop_last()));
        assert(file_ops(sizes).last() == file_op(sizes.last()));
    }
}

proof fn lemma_classes(sizes: Seq<u64>, done: Seq<bool>, marks: Seq<int>)
    requires
        sizes.len() == done.len(),
        forall|i: int| 0 <= i < done.len() ==> #[trigger] done[i] == marks.contains(i),
    ensures
        class_sum(sizes, done, 8) == unmarked_count(marks, sizes.len() as int),
        class_bytes(sizes, done, 8) == unmarked_bytes(sizes, marks, sizes.len() as int),
    decreases sizes.len(),
{
    if sizes.len() == 0 {
        lemma_no_classes(sizes, done, 8);
    } else {
        let front = sizes.drop_last();
        let before = done.drop_last();
        assert forall|i: int| 0 <= i < before.len() implies #[trigger] before[i] == marks.contains(
            i,
        ) by {
            assert(before[i] == done[i]);
        }
        lemma_classes(front, before, marks);
        lemma_class_step(sizes, done, 8);
        lemma_same_unmarked(sizes, front, marks, front.len() as int);
        assert(done.last() == done[done.len() - 1]);
    }
}

proof fn lemma_same_unmarked(a: Seq<u64>, b: Seq<u64>, marks: Seq<int>, n: int)
    requires
        n <= a.len(),
        n <= b.len(),
        forall|i: int| 0 <= i < n ==> a[i] == b[i],
    ensures
        unmarked_bytes(a, marks, n) == unmarked_bytes(b, marks, n),
        sum_counts(a, n) == sum_counts(b, n),
    decreases n,
{
    if n > 0 {
        lemma_same_unmarked(a, b, marks, n - 1);
    }
}

proof fn lemma_no_classes(sizes: Seq<u64>, done: Seq<bool>, c: int)
    requires
        sizes.len() == 0,
    ensures
        class_sum(sizes, done, c) == 0,
        class_bytes(sizes, done, c) == 0,
    decreases c,
{
    if c > 0 {
        lemma_no_classes(sizes, done, c - 1);
        assert(file_ops(sizes).len() == 0);
    }
}

proof fn lemma_class_fits(sizes: Seq<u64>, c: int)
    ensures
        all_sum(file_ops(sizes), file_bytes_in(c)) <= sum_counts(sizes, sizes.len() as int),
        all_sum(file_ops(sizes), metadata_bytes_in(c)) == 0,
        all_sum(file_ops(sizes), metadata_in(c)) == 0,
        all_sum(file_ops(sizes), dir_op_count()) == 0,
        all_sum(file_ops(sizes), metadata_count()) == 0,
    decreases sizes.len(),
{
    if sizes.len() > 0 {
        let front = sizes.drop_last();
        lemma_class_fits(front, c);
        lemma_same_unmarked(sizes, front, Seq::empty(), front.len() as int);
        assert(file_ops(sizes).drop_last() == file_ops(front));
        assert(file_ops(sizes).last() == file_op(sizes.last()));
    }
}

proof fn lemma_sum_of_classes(r: SummaryModel, sizes: Seq<u64>, done: Seq<bool>, c: int)
    requires
        tracks(r, file_ops(sizes), done),
        sizes.len() == done.len(),
        sum_counts(sizes, sizes.len() as int) <= u64::MAX,
        0 <= c <= 8,
    ensures
        sum_counts(r.bins, c) == class_sum(sizes, done, c),
        sum_counts(r.bytes, c) == class_bytes(sizes, done, c),
    decreases c,
{
    if c > 0 {
        lemma_sum_of_classes(r, sizes, done, c - 1);
        lemma_class_fits(sizes, c - 1);
        assert(r.bins[c - 1] == open_sum(file_ops(sizes), done, file_in(c - 1)) + all_sum(
            file_ops(sizes),
            metadata_in(c - 1),
        ));
        assert(r.bytes[c - 1] == open_sum(file_ops(sizes), done, file_bytes_in(c - 1)) + all_sum(
            file_ops(sizes),
            metadata_bytes_in(c - 1),
        ));
    }
}

proof fn lemma_nothing_left(r: SummaryModel, c: int)
    requires
        forall|i: int| 0 <= i < 8 ==> #[trigger] r.bins[i] == 0,
        forall|i: int| 0 <= i < 8 ==> #[trigger] r.bytes[i] == 0,
        c <= 8,
    ensures
        sum_counts(r.bins, c) == 0,
        sum_counts(r.bytes, c) == 0,
    decreases c,
{
    if c > 0 {
        lemma_nothing_left(r, c - 1);
        assert(r.bins[c - 1] == 0 && r.bytes[c - 1] == 0);
    }
}

/// Whichever files were marked, in whatever order and however often, what is left is
/// the files that were not: their number, their bytes, and nothing else.
pub proof fn law_remaining_files(sizes: Seq<u64>, marks: Seq<int>, progress: SummaryModel)
    requires
        sizes.len() <= u64::MAX,
        sum_counts(sizes, sizes.len() as int) <= u64::MAX,
    ensures
        ({
            let start = fresh(file_ops(sizes));
            let r = sum_of(
                remaining_parts(all_marked(start, marks), sum_of(start.left), progress),
            );
            &&& sum_counts(r.bins, 8) == unmarked_count(marks, sizes.len() as int)
            &&& sum_counts(r.bytes, 8) == unmarked_bytes(sizes, marks, sizes.len() as int)
            &&& r.dirs == 0
            &&& r.metadata == 0
        }),
{
    let ops = file_ops(sizes);
    let start = fresh(ops);
    let w = all_marked(start, marks);
    let parts = remaining_parts(w, sum_of(start.left), progress);
    let r = sum_of(parts);
    law_marks_are_done(ops, marks);
    if sizes.len() == 0 {
        assert(start.left == Seq::<SummaryModel>::empty());
        assert(parts.drop_last() == Seq::<SummaryModel>::empty());
        assert(r == summary_sum(empty_summary(), parts[0]));
        assert forall|i: int| 0 <= i < 8 implies #[trigger] r.bins[i] == 0 by {}
        assert forall|i: int| 0 <= i < 8 implies #[trigger] r.bytes[i] == 0 by {}
        lemma_nothing_left(r, 8);
    } else {
        law_remaining_is_what_is_open(w, sum_of(start.left), progress);
        lemma_classes(sizes, w.done, marks);
        lemma_sum_of_classes(r, sizes, w.done, 8);
        lemma_class_fits(sizes, 0);
        lemma_open_sum_bound(ops, w.done, dir_op_count());
        lemma_open_sum_bound(ops, w.done, metadata_count());
    }
}

/// The counts of `a` beyond those of `b`.
pub open spec fn summary_delta(a: SummaryModel, b: SummaryModel) -> SummaryModel {
    SummaryModel {
        bins: Seq::new(8, |i: int| domain::sat_sub(a.bins[i], b.bins[i])),
        bytes: Seq::new(8, |i: int| domain::sat_sub(a.bytes[i], b.bytes[i])),
        dirs: domain::sat_sub(a.dirs, b.dirs),
        metadata: domain::sat_sub(a.metadata, b.metadata),
    }
}

fn any_positive(v: [u64; 8]) -> (r: bool)
    ensures
        r == exists|i: int| 0 <= i < 8 && #[trigger] v@[i] > 0,
{
    let mut i: usize = 0;
    while i < 8
        invariant
            i <= 8,
            forall|k: int| 0 <= k < i ==> #[trigger] v@[k] == 0,
        decreases 8 - i,
    {
        if v[i] > 0 {
            assert(v@[i as int] > 0);
            return true;
        }
        i = i + 1;
    }
    false
}

impl EtaWorkSummary {
    /// Tests whether anything is counted.
    pub fn is_busy(&self) -> (r: bool)
        ensures
            r == has_work(self@),
    {
        let files = any_positive(self.file_bins);
        let bytes = any_positive(self.file_bytes);
        proof {
            let s = self@;
            assert(forall|i: int| 0 <= i < 8 ==> #[trigger] s.bins[i] == self.file_bins@[i]);
            assert(forall|i: int| 0 <= i < 8 ==> #[trigger] s.bytes[i] == self.file_bytes@[i]);
            if files {
                let i = choose|i: int| 0 <= i < 8 && #[trigger] self.file_bins@[i] > 0;
                assert(s.bins[i] > 0);
            }
            if bytes {
                let i = choose|i: int| 0 <= i < 8 && #[trigger] self.file_bytes@[i] > 0;
                assert(s.bytes[i] > 0);
            }
        }
        self.dirs > 0 || self.metadata > 0 || files || bytes
    }
}

/// What is done, counted by what it was.
#[derive(Clone, Copy, Debug)]
pub struct EtaProgressTotals {
    pub file_bins: [u64; 8],
    pub file_bytes: [u64; 8],
    pub dirs: u64,
    pub metadata: u64,
}

impl View for EtaProgressTotals {
    type V = SummaryModel;

    open spec fn view(&self) -> SummaryModel {
        SummaryModel {
            bins: self.file_bins@,
            bytes: self.file_bytes@,
            dirs: self.dirs,
            metadata: self.metadata,
        }
    }
}

impl Default for EtaProgressTotals {
    fn default() -> (r: Self)
        ensures
            r@ == empty_summary(),
    {
        let r = EtaProgressTotals {
            file_bins: [0, 0, 0, 0, 0, 0, 0, 0],
            file_bytes: [0, 0, 0, 0, 0, 0, 0, 0],
            dirs: 0,
            metadata: 0,
        };
        assert(r@ == empty_summary());
        r
    }
}

/// The sum of the first `n` counts.
pub open spec fn sum_counts(counts: Seq<u64>, n: int) -> nat
    decreases n,
{
    if n <= 0 {
        0
    } else {
        sum_counts(counts, n - 1) + counts[n - 1] as nat
    }
}

proof fn lemma_sum_counts_grows(counts: Seq<u64>, a: int, b: int)
    requires
        0 <= a <= b,
    ensures
        sum_counts(counts, a) <= sum_counts(counts, b),
    decreases b - a,
{
    if a < b {
        lemma_sum_counts_grows(counts, a, b - 1);
    }
}

/// Sum modulo 2 to the 64.
pub open spec fn wrap_add(a: u64, b: u64) -> u64 {
    if a + b <= u64::MAX {
        (a + b) as u64
    } else {
        (a + b - 0x1_0000_0000_0000_0000) as u64
    }
}

impl EtaProgressTotals {
    /// How many files are done.
    pub fn file_count(self) -> (r: u64)
        requires
            sum_counts(self@.bins, 8) <= u64::MAX,
        ensures
            r == sum_counts(self@.bins, 8),
    {
        let mut n: u64 = 0;
        let mut i: usize = 0;
        while i < 8
            invariant
                i <= 8,
                n == sum_counts(self.file_bins@, i as int),
                sum_counts(self.file_bins@, 8) <= u64::MAX,
            decreases 8 - i,
        {
            proof {
                lemma_sum_counts_grows(self.file_bins@, i + 1, 8);
            }
            n = n + self.file_bins[i];
            i = i + 1;
        }
        n
    }

    /// What was done since.
    pub fn delta(self, previous: Self) -> (r: Self)
        ensures
            r@ == summary_delta(self@, previous@),
    {
        let mut r = self;
        let mut i: usize = 0;
        while i < 8
            invariant
                i <= 8,
                r.dirs == self.dirs,
                r.metadata == self.metadata,
                forall|k: int|
                    0 <= k < i ==> #[trigger] r.file_bins@[k] == domain::sat_sub(
                        self.file_bins@[k],
                        previous.file_bins@[k],
                    ),
                forall|k: int|
                    0 <= k < i ==> #[trigger] r.file_bytes@[k] == domain::sat_sub(
                        self.file_bytes@[k],
                        previous.file_bytes@[k],
                    ),
                forall|k: int| i <= k < 8 ==> #[trigger] r.file_bins@[k] == self.file_bins@[k],
                forall|k: int| i <= k < 8 ==> #[trigger] r.file_bytes@[k] == self.file_bytes@[k],
            decreases 8 - i,
        {
            let count: u64 = r.file_bins[i].saturating_sub(previous.file_bins[i]);
            let bytes: u64 = r.file_bytes[i].saturating_sub(previous.file_bytes[i]);
            r.file_bins[i] = count;
            r.file_bytes[i] = bytes;
            i = i + 1;
        }
        r.dirs = r.dirs.saturating_sub(previous.dirs);
        r.metadata = r.metadata.saturating_sub(previous.metadata);
        assert(r@ == summary_delta(self@, previous@));
        r
    }

    /// Counts a file that is done.
    pub fn mark_file(&mut self, size: u64)
        ensures
            final(self)@ == (SummaryModel {
                bins: old(self)@.bins.update(
                    file_bin(size),
                    wrap_add(old(self)@.bins[file_bin(size)], 1),
                ),
                bytes: old(self)@.bytes.update(
                    file_bin(size),
                    wrap_add(old(self)@.bytes[file_bin(size)], size),
                ),
                ..old(self)@
            }),
    {
        let bin: usize = eta_file_bin(size);
        let count: u64 = self.file_bins[bin].wrapping_add(1);
        let bytes: u64 = self.file_bytes[bin].wrapping_add(size);
        self.file_bins[bin] = count;
        self.file_bytes[bin] = bytes;
    }

    /// Counts a directory that is done.
    pub fn mark_dir(&mut self)
        ensures
            final(self)@ == (SummaryModel { dirs: wrap_add(old(self)@.dirs, 1), ..old(self)@ }),
    {
        self.dirs = self.dirs.wrapping_add(1);
    }

    /// Counts metadata operations that are done.
    pub fn mark_metadata(&mut self, count: u64)
        ensures
            final(self)@ == (SummaryModel {
                metadata: wrap_add(old(self)@.metadata, count),
                ..old(self)@
            }),
    {
        self.metadata = self.metadata.wrapping_add(count);
    }
}

/// The classes end at 4, 16, 64 and 256 KiB and at 1, 4 and 64 MiB: a file is in the first
/// class whose end its size does not exceed.
pub proof fn law_classes_by_size(size: u64)
    ensures
        file_bin(size) == 0 <==> size <= 4 * 1024,
        file_bin(size) == 1 <==> 4 * 1024 < size <= 16 * 1024,
        file_bin(size) == 2 <==> 16 * 1024 < size <= 64 * 1024,
        file_bin(size) == 3 <==> 64 * 1024 < size <= 256 * 1024,
        file_bin(size) == 4 <==> 256 * 1024 < size <= 1024 * 1024,
        file_bin(size) == 5 <==> 1024 * 1024 < size <= 4 * 1024 * 1024,
        file_bin(size) == 6 <==> 4 * 1024 * 1024 < size <= 64 * 1024 * 1024,
        file_bin(size) == 7 <==> size > 64 * 1024 * 1024,
{
}

/// An operation adds one to what it is: a directory to the directories, a file to its class
/// with its bytes, and nothing to any other class.
pub proof fn law_every_operation_counts_once(s: SummaryModel, op: EtaWorkOp, b: int)
    requires
        s.bins.len() == 8 && s.bytes.len() == 8,
        op.bin < 8,
        0 <= b < 8,
        s.dirs < u64::MAX && s.metadata < u64::MAX,
        s.bins[b] < u64::MAX && s.bytes[b] + op.bytes <= u64::MAX,
    ensures
        ({
            let r = plus_op(s, op);
            let of_class = op.bin == b && (!op.is_dir || op.is_metadata);
            &&& r.dirs == s.dirs + (if op.is_dir && !op.is_metadata {
                1int
            } else {
                0
            })
            &&& r.metadata == s.metadata + (if op.is_metadata {
                1int
            } else {
                0
            })
            &&& r.bins[b] == s.bins[b] + (if of_class {
                1int
            } else {
                0
            })
            &&& r.bytes[b] == s.bytes[b] + (if of_class {
                op.bytes as int
            } else {
                0
            })
        }),
{
}

/// A manifest makes one operation of each of its directories, the root included where it is
/// kept, of each file that is copied, with its size, and of each directory whose times are
/// restored.
pub proof fn law_a_manifest_makes_operations(m: TransferManifest, include_root: bool, i: int)
    ensures
        ({
            let ops = manifest_ops(m, include_root);
            let first = m.dirs@.len() + (if include_root {
                1int
            } else {
                0
            });
            &&& ops.len() == first + m.copy_files@.len() + m.dir_times@.len()
            &&& 0 <= i < first ==> ops[i].is_dir && !ops[i].is_metadata
            &&& 0 <= i < m.copy_files@.len() ==> !ops[first + i].is_dir && !ops[first
                + i].is_metadata && ops[first + i].bytes == m.copy_files@[i].size && ops[first
                + i].bin == file_bin(m.copy_files@[i].size)
            &&& 0 <= i < m.dir_times@.len() ==> ops[first + m.copy_files@.len() + i].is_metadata
        }),
{
}

/// What is beyond what was there before is the difference, count by count, and nothing
/// where there is less.
pub proof fn law_differences_are_count_by_count(a: SummaryModel, b: SummaryModel, i: int)
    requires
        0 <= i < 8,
    ensures
        ({
            let d = summary_delta(a, b);
            &&& a.bins[i] >= b.bins[i] ==> d.bins[i] == a.bins[i] - b.bins[i]
            &&& a.bins[i] < b.bins[i] ==> d.bins[i] == 0
            &&& a.bytes[i] >= b.bytes[i] ==> d.bytes[i] == a.bytes[i] - b.bytes[i]
            &&& a.bytes[i] < b.bytes[i] ==> d.bytes[i] == 0
            &&& a.dirs >= b.dirs ==> d.dirs == a.dirs - b.dirs
            &&& a.metadata >= b.metadata ==> d.metadata == a.metadata - b.metadata
        }),
{
}

/// A sum that wraps is the sum up to a multiple of what a number of its size can hold.
pub proof fn law_wrapped_sums(a: u64, b: u64)
    ensures
        wrap_add(a, b) == (a + b) % 0x1_0000_0000_0000_0000,
        wrap_add(a, b) == wrap_add(b, a),
{
}

} // verus!
