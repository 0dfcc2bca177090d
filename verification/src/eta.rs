//! Decisions of the estimate of the time that is left.

use crate::changes;
use crate::domain::MediaKind;
use crate::paths;
use crate::showall;
use crate::text;
use crate::workload;
use crate::workload::EtaProgressTotals;
use vstd::prelude::*;

verus! {

/// What a transfer is held up by.
#[derive(Clone, Copy, Debug, PartialEq, Eq, Structural)]
pub enum EtaActivity {
    WarmingUp,
    Active,
    WorkloadBound,
    PipelineBound,
    TransientStall,
    Stalled,
    Complete,
}

/// What an activity is called.
pub open spec fn activity_label(a: EtaActivity) -> Seq<char> {
    match a {
        EtaActivity::WarmingUp => "warming-up"@,
        EtaActivity::Active => "active"@,
        EtaActivity::WorkloadBound => "workload-bound"@,
        EtaActivity::PipelineBound => "pipeline-bound"@,
        EtaActivity::TransientStall => "stalled briefly"@,
        EtaActivity::Stalled => "stalled"@,
        EtaActivity::Complete => "complete"@,
    }
}

impl EtaActivity {
    /// Names an activity.
    pub fn label(self) -> (r: &'static str)
        ensures
            r@ == activity_label(self),
    {
        match self {
            EtaActivity::WarmingUp => "warming-up",
            EtaActivity::Active => "active",
            EtaActivity::WorkloadBound => "workload-bound",
            EtaActivity::PipelineBound => "pipeline-bound",
            EtaActivity::TransientStall => "stalled briefly",
            EtaActivity::Stalled => "stalled",
            EtaActivity::Complete => "complete",
        }
    }
}

/// What a running transfer is held up by.
pub open spec fn activity_of(pipeline_bound: bool, workload_bound: bool) -> EtaActivity {
    if pipeline_bound {
        EtaActivity::PipelineBound
    } else if workload_bound {
        EtaActivity::WorkloadBound
    } else {
        EtaActivity::Active
    }
}

/// Tells what a running transfer is held up by.
pub fn running_activity(pipeline_bound: bool, workload_bound: bool) -> (r: EtaActivity)
    ensures
        r == activity_of(pipeline_bound, workload_bound),
{
    if pipeline_bound {
        EtaActivity::PipelineBound
    } else if workload_bound {
        EtaActivity::WorkloadBound
    } else {
        EtaActivity::Active
    }
}

/// Counters of what went through the stages of a transfer.
#[derive(Clone, Copy, Debug, PartialEq, Eq, Structural)]
pub struct EtaTelemetry {
    pub write_bytes: Option<u64>,
    pub write_complete: Option<u64>,
    pub read_bytes: Option<u64>,
    pub read_complete: Option<u64>,
    /// All four counters start where the transfer does. Counters of a process
    /// and of a device do not, and are not subtracted from each other.
    pub aligned_pipeline_counters: bool,
}

/// What waits between two stages.
pub open spec fn backlog_of(aligned: bool, submitted: Option<u64>, completed: Option<u64>) -> int {
    match (submitted, completed) {
        (Some(s), Some(c)) => if aligned && s > c {
            s - c
        } else {
            0
        },
        _ => 0,
    }
}

fn backlog(aligned: bool, submitted: Option<u64>, completed: Option<u64>) -> (r: u64)
    ensures
        r == backlog_of(aligned, submitted, completed),
{
    match (submitted, completed) {
        (Some(s), Some(c)) => if aligned && s > c {
            s - c
        } else {
            0
        },
        _ => 0,
    }
}

/// What waits to be written, and to be read.
#[derive(Clone, Copy, Debug, PartialEq, Eq, Structural)]
pub struct Backlogs {
    pub write: u64,
    pub read: u64,
}

impl EtaTelemetry {
    /// Finds what waits between the stages.
    pub fn backlogs(self) -> (r: Backlogs)
        ensures
            r.write == backlog_of(
                self.aligned_pipeline_counters,
                self.write_bytes,
                self.write_complete,
            ),
            r.read == backlog_of(
                self.aligned_pipeline_counters,
                self.read_bytes,
                self.read_complete,
            ),
    {
        Backlogs {
            write: backlog(self.aligned_pipeline_counters, self.write_bytes, self.write_complete),
            read: backlog(self.aligned_pipeline_counters, self.read_bytes, self.read_complete),
        }
    }
}

/// Counters that do not start together are never made into a backlog.
pub proof fn law_unaligned_counters_make_no_backlog(
    submitted: Option<u64>,
    completed: Option<u64>,
)
    ensures
        backlog_of(false, submitted, completed) == 0,
{
}

/// Which rate of a stage counts.
#[derive(Clone, Copy, Debug, PartialEq, Eq, Structural)]
pub enum RateChoice {
    Unknown,
    /// The rate that was measured last.
    Measured,
    /// The mean over the whole transfer.
    Mean,
    /// The lesser of the two.
    Lesser,
}

/// The rate of a stage: the one measured last, or else the mean. Where the
/// counters are aligned, a mean below the measured rate counts.
pub open spec fn rate_choice_of(measured: bool, mean: bool, held_to_mean: bool) -> RateChoice {
    if measured && mean && held_to_mean {
        RateChoice::Lesser
    } else if measured {
        RateChoice::Measured
    } else if mean {
        RateChoice::Mean
    } else {
        RateChoice::Unknown
    }
}

/// Chooses the rate of a stage. Told is whether each rate is there, that is,
/// above zero.
pub fn rate_choice(measured: bool, mean: bool, held_to_mean: bool) -> (r: RateChoice)
    ensures
        r == rate_choice_of(measured, mean, held_to_mean),
{
    if measured {
        if mean && held_to_mean {
            RateChoice::Lesser
        } else {
            RateChoice::Measured
        }
    } else if mean {
        RateChoice::Mean
    } else {
        RateChoice::Unknown
    }
}

/// How much is left.
#[derive(Clone, Copy, Debug, PartialEq, Eq, Structural)]
pub enum EtaGoal {
    /// Not known.
    Unknown,
    Complete,
    Left { done: u64, remain: u64 },
}

/// What is left of a total.
pub open spec fn goal_of(done: Option<u64>, total: u64) -> EtaGoal {
    match done {
        None => EtaGoal::Unknown,
        Some(d) => if total == 0 {
            EtaGoal::Unknown
        } else if d >= total {
            EtaGoal::Complete
        } else {
            EtaGoal::Left { done: d, remain: (total - d) as u64 }
        },
    }
}

/// Finds how much is left.
pub fn eta_goal(done: Option<u64>, total: u64) -> (r: EtaGoal)
    ensures
        r == goal_of(done, total),
{
    match done {
        None => EtaGoal::Unknown,
        Some(d) => if total == 0 {
            EtaGoal::Unknown
        } else if d >= total {
            EtaGoal::Complete
        } else {
            EtaGoal::Left { done: d, remain: total - d }
        },
    }
}

/// Whether bytes went through as in one large file: much of them, and in files
/// of a MiB or more. Where the files are not known, always.
pub open spec fn is_sequential(known_work: bool, bytes: u64, files: u64) -> bool {
    !known_work || (bytes >= 0x40_0000 && (files == 0 || bytes / files >= 0x10_0000))
}

/// What one stretch of time tells the models.
#[derive(Clone, Copy, Debug)]
pub enum ModelStep {
    /// The first sample: there is nothing to hold it against.
    First,
    /// The stretch is not over.
    Wait,
    /// Bytes went through.
    Moved { bytes: u64, progress: EtaProgressTotals, sequential: bool, costs: bool },
    /// No bytes went through.
    Idle { progress: EtaProgressTotals, costs: bool },
}

/// A sample of how far a transfer is.
#[derive(Clone, Copy, Debug)]
pub struct WorkSample {
    pub bytes: u64,
    pub progress: EtaProgressTotals,
}

/// Whether a step is what a stretch of time tells.
pub open spec fn is_model_step(
    r: ModelStep,
    previous: Option<WorkSample>,
    current: WorkSample,
    over: bool,
    known_work: bool,
) -> bool {
    match previous {
        None => r is First,
        Some(p) => {
            let delta = workload::summary_delta(current.progress@, p.progress@);
            let files = workload::sum_counts(delta.bins, 8);
            if !over {
                r is Wait
            } else if current.bytes > p.bytes {
                match r {
                    ModelStep::Moved { bytes, progress, sequential, costs } => {
                        &&& bytes == current.bytes - p.bytes
                        &&& progress@ == delta
                        &&& sequential == is_sequential(known_work, bytes, files as u64)
                        &&& costs == known_work
                    },
                    _ => false,
                }
            } else {
                match r {
                    ModelStep::Idle { progress, costs } => progress@ == delta && costs == (
                    known_work && (files > 0 || delta.dirs > 0)),
                    _ => false,
                }
            }
        },
    }
}

/// Finds what a stretch of time tells the models.
pub fn model_step(
    previous: Option<WorkSample>,
    current: WorkSample,
    over: bool,
    known_work: bool,
) -> (r: ModelStep)
    requires
        previous is Some ==> workload::sum_counts(
            workload::summary_delta(current.progress@, previous->0.progress@).bins,
            8,
        ) <= u64::MAX,
    ensures
        is_model_step(r, previous, current, over, known_work),
{
    let p = match previous {
        Some(p) => p,
        None => {
            return ModelStep::First;
        },
    };
    if !over {
        return ModelStep::Wait;
    }
    let progress = current.progress.delta(p.progress);
    let files: u64 = progress.file_count();
    if current.bytes > p.bytes {
        let bytes: u64 = current.bytes - p.bytes;
        let sequential = !known_work || (bytes >= 0x40_0000 && (files == 0 || bytes / files
            >= 0x10_0000));
        ModelStep::Moved { bytes, progress, sequential, costs: known_work }
    } else {
        ModelStep::Idle { progress, costs: known_work && (files > 0 || progress.dirs > 0) }
    }
}

/// What decides what is said of the time that is left.
#[derive(Clone, Copy, Debug, PartialEq, Eq, Structural)]
pub struct TurnFacts {
    /// For how long nothing went through, in nanoseconds.
    pub idle_ns: u64,
    /// An end has been shown before.
    pub has_finish: bool,
    pub has_rate: bool,
    /// The samples do not reach back far enough yet.
    pub warming_up: bool,
    /// The models agree on a time above zero.
    pub has_model: bool,
}

/// What is said of the time that is left.
#[derive(Clone, Copy, Debug, PartialEq, Eq, Structural)]
pub enum EtaTurn {
    /// Nothing is known: the transfer does not move.
    Stalled,
    /// The end that was shown moves away while nothing goes through.
    TransientStall,
    WarmingUp,
    /// Nothing is said, and what was said before stands.
    Silent,
    Estimate,
}

/// Five seconds without progress is a stall.
pub const STALL_NS: u64 = 5_000_000_000;

/// So long without progress, nothing is estimated.
pub const PAUSE_NS: u64 = 1_500_000_000;

/// What is said of the time that is left.
pub open spec fn turn_of(f: TurnFacts) -> EtaTurn {
    if f.idle_ns >= STALL_NS {
        EtaTurn::Stalled
    } else if f.idle_ns > 0 && f.has_finish {
        EtaTurn::TransientStall
    } else if f.idle_ns >= PAUSE_NS {
        EtaTurn::Silent
    } else if !f.has_rate && f.warming_up {
        EtaTurn::WarmingUp
    } else if !f.has_rate || !f.has_model {
        EtaTurn::Silent
    } else {
        EtaTurn::Estimate
    }
}

/// Decides what is said of the time that is left.
pub fn eta_turn(f: TurnFacts) -> (r: EtaTurn)
    ensures
        r == turn_of(f),
{
    if f.idle_ns >= STALL_NS {
        EtaTurn::Stalled
    } else if f.idle_ns > 0 && f.has_finish {
        EtaTurn::TransientStall
    } else if f.idle_ns >= PAUSE_NS {
        EtaTurn::Silent
    } else if !f.has_rate {
        if f.warming_up {
            EtaTurn::WarmingUp
        } else {
            EtaTurn::Silent
        }
    } else if !f.has_model {
        EtaTurn::Silent
    } else {
        EtaTurn::Estimate
    }
}

/// Nothing is estimated while nothing goes through, once an end was shown.
pub proof fn law_no_estimate_while_idle(f: TurnFacts)
    requires
        f.idle_ns > 0,
        f.has_finish || f.idle_ns >= PAUSE_NS,
    ensures
        turn_of(f) != EtaTurn::Estimate,
        f.idle_ns >= STALL_NS ==> turn_of(f) == EtaTurn::Stalled,
{
}

/// Finds which of some sorted samples stands for a percentage.
pub fn percentile_index(len: usize, percent: usize) -> (r: usize)
    requires
        percent <= 100,
        len <= usize::MAX / 100,
    ensures
        r == len * percent / 100,
{
    assert(len * percent <= len * 100) by (nonlinear_arith)
        requires
            percent <= 100,
    ;
    len * percent / 100
}

/// A source of numbers that look random.
#[derive(Clone, Copy, Debug, PartialEq, Eq, Structural)]
pub struct EtaRng {
    pub state: u64,
}

/// The number that follows another.
pub open spec fn next_state(s: u64) -> u64 {
    let a = s ^ (s << 7);
    let b = a ^ (a >> 9);
    b ^ (b << 8)
}

impl EtaRng {
    /// The source as it starts.
    pub fn new() -> (r: EtaRng)
        ensures
            r.state == 0x9e37_79b9_7f4a_7c15,
    {
        EtaRng { state: 0x9e37_79b9_7f4a_7c15 }
    }

    /// Draws a number.
    pub fn next_u64(&mut self) -> (r: u64)
        ensures
            r == next_state(old(self).state),
            final(self).state == r,
    {
        let s: u64 = self.state;
        let a: u64 = s ^ (s << 7);
        let b: u64 = a ^ (a >> 9);
        let c: u64 = b ^ (b << 8);
        self.state = c;
        c
    }
}

/// The source never runs dry: from a state other than zero it never comes to
/// zero.
pub proof fn law_numbers_never_vanish(s: u64)
    requires
        s != 0,
    ensures
        next_state(s) != 0,
{
    let a = s ^ (s << 7);
    let b = a ^ (a >> 9);
    let c = b ^ (b << 8);
    assert(a != 0) by (bit_vector)
        requires
            s != 0,
            a == s ^ (s << 7),
    ;
    assert(b != 0) by (bit_vector)
        requires
            a != 0,
            b == a ^ (a >> 9),
    ;
    assert(c != 0) by (bit_vector)
        requires
            b != 0,
            c == b ^ (b << 8),
    ;
}

/// How far a transfer was at a time.
#[derive(Clone, Copy, Debug, PartialEq, Eq, Structural)]
pub struct Sample {
    /// Nanoseconds since the start.
    pub at: u64,
    pub bytes: u64,
}

/// How long samples are kept.
pub const RETENTION_NS: u64 = 90_000_000_000;

/// What an estimate keeps of the past.
pub struct ClockModel {
    pub samples: Seq<Sample>,
    pub last: Option<Sample>,
    pub idle_ns: u64,
}

/// Nothing kept.
pub open spec fn fresh_clock() -> ClockModel {
    ClockModel { samples: Seq::empty(), last: None, idle_ns: 0 }
}

/// The samples that are not too old.
pub open spec fn recent(samples: Seq<Sample>, now: u64) -> Seq<Sample>
    decreases samples.len(),
{
    if samples.len() > 0 && samples[0].at + RETENTION_NS < now {
        recent(samples.skip(1), now)
    } else {
        samples
    }
}

/// The time since the last sample.
pub open spec fn time_since(c: ClockModel, at: u64) -> int {
    match c.last {
        Some(l) => if at >= l.at {
            at - l.at
        } else {
            0
        },
        None => 0,
    }
}

/// What is kept with one sample more.
pub open spec fn ticked(c: ClockModel, s: Sample) -> ClockModel {
    let idle = match c.last {
        Some(l) => if l.bytes == s.bytes {
            c.idle_ns + time_since(c, s.at)
        } else {
            0
        },
        None => 0,
    };
    ClockModel {
        samples: recent(c.samples.push(s), s.at),
        last: Some(s),
        idle_ns: if idle > u64::MAX {
            u64::MAX
        } else {
            idle as u64
        },
    }
}

/// Whether time went back since the last sample.
pub open spec fn went_back(c: ClockModel, at: u64) -> bool {
    c.last is Some && at < c.last->0.at
}

/// What an estimate keeps of the past.
pub struct EtaClock {
    samples: Vec<Sample>,
    last: Option<Sample>,
    idle_ns: u64,
}

impl View for EtaClock {
    type V = ClockModel;

    closed spec fn view(&self) -> ClockModel {
        ClockModel { samples: self.samples@, last: self.last, idle_ns: self.idle_ns }
    }
}

/// What a sample tells.
#[derive(Clone, Copy, Debug, PartialEq, Eq, Structural)]
pub struct Tick {
    /// Time went back: all that was kept is void.
    pub reset: bool,
    /// Nanoseconds since the last sample.
    pub dt: u64,
}

/// The samples are in the order of their times.
pub open spec fn in_time(samples: Seq<Sample>) -> bool {
    forall|i: int, j: int|
        0 <= i <= j < samples.len() ==> (#[trigger] samples[i]).at <= (#[trigger] samples[j]).at
}

/// Whether `k` opens a stretch of time that ends with the last sample: the last
/// one up to `cutoff`, or else the first one from `start` on.
pub open spec fn opens(samples: Seq<Sample>, start: u64, cutoff: u64, k: int) -> bool {
    &&& 0 <= k < samples.len()
    &&& samples[k].at >= start
    &&& if samples[k].at <= cutoff {
        forall|j: int| k < j < samples.len() ==> (#[trigger] samples[j]).at > cutoff
    } else {
        forall|j: int| 0 <= j < k ==> (#[trigger] samples[j]).at < start
    }
}

/// Where a stretch of time of a length begins.
pub open spec fn cutoff_of(start: u64, now: u64, window: u64) -> u64 {
    if now - window > start {
        (now - window) as u64
    } else {
        start
    }
}

/// How many bytes went through in a stretch of time.
#[derive(Clone, Copy, Debug, PartialEq, Eq, Structural)]
pub struct Stretch {
    pub ns: u64,
    pub bytes: u64,
}

/// The stretch from one sample to another.
pub open spec fn stretch_between(a: Sample, b: Sample) -> Stretch {
    Stretch {
        ns: (b.at - a.at) as u64,
        bytes: if b.bytes > a.bytes {
            (b.bytes - a.bytes) as u64
        } else {
            0
        },
    }
}

proof fn lemma_recent(samples: Seq<Sample>, now: u64)
    requires
        in_time(samples),
        samples.len() > 0,
        samples.last().at == now,
    ensures
        in_time(recent(samples, now)),
        recent(samples, now).len() > 0,
        recent(samples, now).last() == samples.last(),
    decreases samples.len(),
{
    if samples[0].at + RETENTION_NS < now {
        let rest = samples.skip(1);
        assert(samples.len() > 1);
        assert forall|i: int, j: int| 0 <= i <= j < rest.len() implies (#[trigger] rest[i]).at <= (
        #[trigger] rest[j]).at by {
            assert(rest[i] == samples[i + 1] && rest[j] == samples[j + 1]);
        }
        assert(rest.last() == samples.last());
        lemma_recent(rest, now);
    }
}

proof fn lemma_recent_skip(samples: Seq<Sample>, now: u64, k: int)
    requires
        0 <= k < samples.len(),
        forall|i: int| 0 <= i < k ==> (#[trigger] samples[i]).at + RETENTION_NS < now,
        samples[k].at + RETENTION_NS >= now,
    ensures
        recent(samples, now) == samples.skip(k),
    decreases k,
{
    if k > 0 {
        let rest = samples.skip(1);
        assert(samples[0].at + RETENTION_NS < now);
        assert forall|i: int| 0 <= i < k - 1 implies (#[trigger] rest[i]).at + RETENTION_NS < now by {
            assert(rest[i] == samples[i + 1]);
        }
        lemma_recent_skip(rest, now, k - 1);
        assert(rest.skip(k - 1) == samples.skip(k));
    } else {
        assert(samples.skip(0) == samples);
    }
}

impl EtaClock {
    /// The samples are in order, and none is behind the last one.
    pub closed spec fn wf(&self) -> bool {
        &&& in_time(self.samples@)
        &&& match self.last {
            Some(l) => self.samples@.len() > 0 && self.samples@.last() == l,
            None => self.samples@.len() == 0,
        }
    }

    /// Nothing kept.
    pub fn new() -> (r: EtaClock)
        ensures
            r.wf(),
            r@ == fresh_clock(),
    {
        let r = EtaClock { samples: Vec::new(), last: None, idle_ns: 0 };
        assert(r@ == fresh_clock());
        r
    }

    /// For how long nothing went through.
    pub fn idle_ns(&self) -> (r: u64)
        ensures
            r == self@.idle_ns,
    {
        self.idle_ns
    }

    /// Takes a sample.
    pub fn tick(&mut self, s: Sample) -> (r: Tick)
        requires
            old(self).wf(),
        ensures
            final(self).wf(),
            r.reset == went_back(old(self)@, s.at),
            r.dt == time_since(old(self)@, s.at),
            final(self)@ == ticked(
                if r.reset {
                    fresh_clock()
                } else {
                    old(self)@
                },
                s,
            ),
    {
        let reset = match self.last {
            Some(l) => s.at < l.at,
            None => false,
        };
        if reset {
            self.samples = Vec::new();
            self.last = None;
            self.idle_ns = 0;
        }
        let ghost base = self@;
        let mut dt: u64 = 0;
        match self.last {
            Some(l) => {
                dt = s.at - l.at;
                self.idle_ns = if l.bytes == s.bytes {
                    self.idle_ns.saturating_add(dt)
                } else {
                    0
                };
            },
            None => {
                self.idle_ns = 0;
            },
        }
        self.last = Some(s);
        let ghost kept = self.samples@;
        self.samples.push(s);
        let ghost all = self.samples@;
        assert(in_time(all)) by {
            assert forall|i: int, j: int| 0 <= i <= j < all.len() implies (#[trigger] all[i]).at
                <= (#[trigger] all[j]).at by {
                if j < kept.len() {
                    assert(all[i] == kept[i] && all[j] == kept[j]);
                } else if i < kept.len() {
                    assert(kept[i].at <= kept[kept.len() - 1].at);
                    assert(kept.last().at <= s.at);
                }
            }
        }
        assert(all.len() == self.samples.len());
        let mut k: usize = 0;
        while self.samples[k].at < s.at && s.at - self.samples[k].at > RETENTION_NS
            invariant
                self.samples@ == all,
                all.len() > 0,
                all.last() == s,
                k < all.len() <= usize::MAX,
                forall|i: int| 0 <= i < k ==> (#[trigger] all[i]).at + RETENTION_NS < s.at,
            decreases all.len() - k,
        {
            k = k + 1;
        }
        proof {
            lemma_recent(all, s.at);
            lemma_recent_skip(all, s.at, k as int);
        }
        if k > 0 {
            let mut rest: Vec<Sample> = Vec::new();
            let mut i: usize = k;
            while i < self.samples.len()
                invariant
                    self.samples@ == all,
                    k <= i <= all.len(),
                    rest@ == all.subrange(k as int, i as int),
                decreases all.len() - i,
            {
                rest.push(self.samples[i]);
                assert(rest@ == all.subrange(k as int, i + 1));
                i = i + 1;
            }
            assert(rest@ == all.skip(k as int));
            self.samples = rest;
        } else {
            assert(all.skip(0) == all);
        }
        assert(self@ == ticked(base, s));
        Tick { reset, dt }
    }

    /// How long the samples reach back from the last one.
    pub fn span_ns(&self) -> (r: u64)
        requires
            self.wf(),
        ensures
            r == (if self@.samples.len() == 0 {
                0
            } else {
                self@.samples.last().at - self@.samples[0].at
            }),
    {
        let n: usize = self.samples.len();
        if n == 0 {
            0
        } else {
            self.samples[n - 1].at - self.samples[0].at
        }
    }

    /// Finds how many bytes went through in the last stretch of time of a length,
    /// from samples not before `start`. Nothing, where the samples lie too close
    /// together.
    pub fn stretch(&self, start: u64, now: u64, window: u64) -> (r: Option<Stretch>)
        requires
            self.wf(),
        ensures
            ({
                let samples = self@.samples;
                let cutoff = cutoff_of(start, now, window);
                match r {
                    Some(w) => exists|k: int| #[trigger]
                        opens(samples, start, cutoff, k) && w == stretch_between(
                            samples[k],
                            samples.last(),
                        ) && w.ns > 1000,
                    None => forall|k: int| #[trigger]
                        opens(samples, start, cutoff, k) ==> samples.last().at - samples[k].at
                            <= 1000,
                }
            }),
    {
        let ghost samples = self.samples@;
        let cutoff: u64 = if now >= window && now - window > start {
            now - window
        } else {
            start
        };
        let n: usize = self.samples.len();
        let mut first: usize = 0;
        while first < n && self.samples[first].at < start
            invariant
                first <= n,
                n == samples.len(),
                samples == self.samples@,
                in_time(samples),
                forall|j: int| 0 <= j < first ==> (#[trigger] samples[j]).at < start,
            decreases n - first,
        {
            first = first + 1;
        }
        if first == n {
            return None;
        }
        let ghost from = first;
        if self.samples[first].at <= cutoff {
            while first + 1 < n && self.samples[first + 1].at <= cutoff
                invariant
                    from <= first < n,
                    n == samples.len(),
                    samples == self.samples@,
                    in_time(samples),
                    samples[first as int].at <= cutoff,
                    samples[from as int].at >= start,
                decreases n - first,
            {
                first = first + 1;
            }
            assert(samples[from as int].at <= samples[first as int].at);
            assert(first + 1 < n ==> samples[first + 1].at > cutoff);
            assert forall|j: int| first < j < samples.len() implies (#[trigger] samples[j]).at
                > cutoff by {
                assert(samples[first + 1].at <= samples[j].at);
            }
        }
        assert(opens(samples, start, cutoff, first as int));
        let a = self.samples[first];
        let b = self.samples[n - 1];
        assert(a.at <= b.at);
        assert forall|k: int| #[trigger] opens(samples, start, cutoff, k) implies k == first by {
            if k < first {
                assert(samples[k].at <= samples[first as int].at);
            } else if first < k {
                assert(samples[first as int].at <= samples[k].at);
            }
        }
        let ns: u64 = b.at - a.at;
        if ns <= 1000 {
            return None;
        }
        let bytes: u64 = b.bytes.saturating_sub(a.bytes);
        let w = Stretch { ns, bytes };
        assert(w == stretch_between(samples[first as int], samples.last()));
        assert(opens(self@.samples, start, cutoff_of(start, now, window), first as int));
        Some(w)
    }
}

/// How a kind of storage is written down.
pub open spec fn media_text(media: MediaKind) -> Seq<char> {
    match media {
        MediaKind::Hdd => "hdd"@,
        MediaKind::Nvme => "nvme"@,
        MediaKind::Other => "other"@,
    }
}

fn media_key(media: MediaKind) -> (r: &'static str)
    ensures
        r@ == media_text(media),
{
    match media {
        MediaKind::Hdd => "hdd",
        MediaKind::Nvme => "nvme",
        MediaKind::Other => "other",
    }
}

/// Where what was learnt is kept.
pub open spec fn prior_path_of(
    disabled: bool,
    state_home: Option<Seq<char>>,
    home: Option<Seq<char>>,
) -> Option<Seq<char>> {
    if disabled {
        None
    } else {
        match (state_home, home) {
            (Some(s), _) => Some(paths::joined_path(s, "copy-rs/eta-priors.v2"@)),
            (None, Some(h)) => Some(
                paths::joined_path(h, ".local/state/copy-rs/eta-priors.v2"@),
            ),
            (None, None) => None,
        }
    }
}

pub open spec fn opt_view(s: Option<&str>) -> Option<Seq<char>> {
    match s {
        Some(t) => Some(t@),
        None => None,
    }
}

/// Finds where what was learnt is kept.
pub fn eta_prior_path(disabled: bool, state_home: Option<&str>, home: Option<&str>) -> (r: Option<
    String,
>)
    ensures
        paths::opt_text(r) == prior_path_of(disabled, opt_view(state_home), opt_view(home)),
{
    if disabled {
        return None;
    }
    match state_home {
        Some(s) => Some(paths::join_path(s, "copy-rs/eta-priors.v2")),
        None => match home {
            Some(h) => Some(paths::join_path(h, ".local/state/copy-rs/eta-priors.v2")),
            None => None,
        },
    }
}

/// What the line of a profile begins with.
pub open spec fn prefix_of(profile_key: u64, media: MediaKind) -> Seq<char> {
    "v2|"@ + text::decimal(profile_key as nat) + "|"@ + media_text(media) + "|"@
}

fn prior_prefix(profile_key: u64, media: MediaKind) -> (r: Vec<char>)
    ensures
        r@ == prefix_of(profile_key, media),
{
    let mut out = text::to_chars("v2|");
    text::extend(&mut out, text::number(profile_key).as_slice());
    text::extend(&mut out, text::to_chars("|").as_slice());
    text::extend(&mut out, text::to_chars(media_key(media)).as_slice());
    text::extend(&mut out, text::to_chars("|").as_slice());
    out
}

/// The values of the first line that begins with a prefix.
pub open spec fn values_in(lines: Seq<Seq<char>>, prefix: Seq<char>) -> Option<Seq<Seq<char>>>
    decreases lines.len(),
{
    if lines.len() == 0 {
        None
    } else if text::begins(lines[0], prefix) {
        Some(text::split_on(lines[0].skip(prefix.len() as int), '|'))
    } else {
        values_in(lines.skip(1), prefix)
    }
}

/// What was learnt of a profile.
pub open spec fn prior_of(contents: Seq<char>, profile_key: u64, media: MediaKind) -> Option<
    Seq<Seq<char>>,
> {
    values_in(text::lines_of(contents), prefix_of(profile_key, media))
}

/// Reads what was learnt of a profile, value by value.
pub fn prior_values(contents: &str, profile_key: u64, media: MediaKind) -> (r: Option<Vec<String>>)
    ensures
        match r {
            Some(v) => prior_of(contents@, profile_key, media) == Some(text::texts(v@)),
            None => prior_of(contents@, profile_key, media) is None,
        },
{
    let prefix = prior_prefix(profile_key, media);
    let lines = text::lines(text::to_chars(contents).as_slice());
    let ghost all = text::rows(lines@);
    let mut i: usize = 0;
    assert(all.skip(0) == all);
    while i < lines.len()
        invariant
            i <= lines@.len(),
            all == text::rows(lines@),
            prefix@ == prefix_of(profile_key, media),
            all == text::lines_of(contents@),
            prior_of(contents@, profile_key, media) == values_in(all.skip(i as int), prefix@),
        decreases lines@.len() - i,
    {
        let ghost rest = all.skip(i as int);
        assert(rest[0] == lines@[i as int]@);
        assert(rest.skip(1) == all.skip(i + 1));
        if text::begins_with(lines[i].as_slice(), prefix.as_slice()) {
            let tail = text::part(lines[i].as_slice(), prefix.len(), lines[i].len());
            assert(tail@ == rest[0].skip(prefix@.len() as int));
            let pieces = text::split(tail.as_slice(), '|');
            let ghost want = text::rows(pieces@);
            let mut out: Vec<String> = Vec::new();
            let mut k: usize = 0;
            assert(text::texts(out@) == want.take(0));
            while k < pieces.len()
                invariant
                    k <= pieces@.len(),
                    want == text::rows(pieces@),
                    text::texts(out@) == want.take(k as int),
                decreases pieces@.len() - k,
            {
                let ghost before = text::texts(out@);
                out.push(text::from_chars(pieces[k].as_slice()));
                assert(want[k as int] == pieces@[k as int]@);
                assert(text::texts(out@) == before.push(want[k as int]));
                assert(want.take(k + 1) == want.take(k as int).push(want[k as int]));
                k = k + 1;
            }
            assert(want.take(want.len() as int) == want);
            return Some(out);
        }
        i = i + 1;
    }
    None
}

/// The lines that do not begin with a prefix.
pub open spec fn other_lines(lines: Seq<Seq<char>>, prefix: Seq<char>) -> Seq<Seq<char>>
    decreases lines.len(),
{
    if lines.len() == 0 {
        lines
    } else {
        let rest = other_lines(lines.drop_last(), prefix);
        if text::begins(lines.last(), prefix) {
            rest
        } else {
            rest.push(lines.last())
        }
    }
}

/// The contents with what was learnt of a profile put in.
pub open spec fn with_prior(
    contents: Seq<char>,
    profile_key: u64,
    media: MediaKind,
    values: Seq<Seq<char>>,
) -> Seq<char> {
    let prefix = prefix_of(profile_key, media);
    showall::text_of_lines(
        other_lines(text::lines_of(contents), prefix).push(prefix + text::joined(values, "|"@)),
    )
}

/// Puts what was learnt of a profile in place of what was known of it.
pub fn updated_priors(contents: &str, profile_key: u64, media: MediaKind, values: &Vec<String>) -> (r:
    String)
    ensures
        r@ == with_prior(contents@, profile_key, media, text::texts(values@)),
{
    let prefix = prior_prefix(profile_key, media);
    let lines = text::lines(text::to_chars(contents).as_slice());
    let ghost all = text::rows(lines@);
    let mut kept: Vec<String> = Vec::new();
    let mut i: usize = 0;
    assert(all.take(0) == Seq::<Seq<char>>::empty());
    assert(text::texts(kept@) == Seq::<Seq<char>>::empty());
    while i < lines.len()
        invariant
            i <= lines@.len(),
            all == text::rows(lines@),
            text::texts(kept@) == other_lines(all.take(i as int), prefix@),
        decreases lines@.len() - i,
    {
        let ghost step = all.take(i + 1);
        assert(step.drop_last() == all.take(i as int));
        assert(step.last() == lines@[i as int]@);
        if !text::begins_with(lines[i].as_slice(), prefix.as_slice()) {
            let ghost before = text::texts(kept@);
            kept.push(text::from_chars(lines[i].as_slice()));
            assert(text::texts(kept@) == before.push(step.last()));
        }
        i = i + 1;
    }
    assert(all.take(all.len() as int) == all);
    let mut line = prefix;
    let mut parts: Vec<Vec<char>> = Vec::new();
    let mut i: usize = 0;
    assert(text::rows(parts@) == text::texts(values@).take(0));
    while i < values.len()
        invariant
            i <= values@.len(),
            text::rows(parts@) == text::texts(values@).take(i as int),
        decreases values@.len() - i,
    {
        let ghost before = text::rows(parts@);
        parts.push(text::to_chars(values[i].as_str()));
        assert(text::rows(parts@) == before.push(values@[i as int]@));
        assert(text::texts(values@).take(i + 1) == text::texts(values@).take(i as int).push(
            values@[i as int]@,
        ));
        i = i + 1;
    }
    assert(text::texts(values@).take(values@.len() as int) == text::texts(values@));
    let joined = text::join(parts.as_slice(), text::to_chars("|").as_slice());
    text::extend(&mut line, joined.as_slice());
    let ghost before = text::texts(kept@);
    kept.push(text::from_chars(line.as_slice()));
    assert(text::texts(kept@) == before.push(line@));
    showall::write_lines(&kept)
}

proof fn lemma_lines_of_lines(lines: Seq<Seq<char>>)
    requires
        forall|i: int| 0 <= i < lines.len() ==> !(#[trigger] lines[i]).contains('\n'),
    ensures
        text::split_on(showall::text_of_lines(lines), '\n') == lines.push(Seq::empty()),
    decreases lines.len(),
{
    let t = showall::text_of_lines(lines);
    if lines.len() == 0 {
        assert(text::split_on(t, '\n') == lines.push(Seq::empty()));
    } else {
        let front = lines.drop_last();
        let last = lines.last();
        assert forall|i: int| 0 <= i < front.len() implies !(#[trigger] front[i]).contains('\n') by {
            assert(front[i] == lines[i]);
        }
        lemma_lines_of_lines(front);
        let head = showall::text_of_lines(front);
        assert(!lines[lines.len() - 1].contains('\n'));
        changes::lemma_split_append(head, last, '\n');
        let mid = head + last;
        assert(front.push(Seq::<char>::empty()).drop_last() == front);
        assert(Seq::<char>::empty() + last == last);
        assert(text::split_on(mid, '\n') == front.push(last));
        assert(front.push(last) == lines);
        assert(t.drop_last() == mid);
        assert(t.last() == '\n');
    }
}

proof fn lemma_joined_has_none(values: Seq<Seq<char>>, c: char)
    requires
        c != '|',
        forall|i: int| 0 <= i < values.len() ==> !(#[trigger] values[i]).contains(c),
    ensures
        !text::joined(values, "|"@).contains(c),
    decreases values.len(),
{
    reveal_strlit("|");
    let t = text::joined(values, "|"@);
    if values.len() == 1 {
        assert(!values[0].contains(c));
    } else if values.len() > 1 {
        let front = values.drop_last();
        assert forall|i: int| 0 <= i < front.len() implies !(#[trigger] front[i]).contains(c) by {
            assert(front[i] == values[i]);
        }
        lemma_joined_has_none(front, c);
        let head = text::joined(front, "|"@);
        assert(!values[values.len() - 1].contains(c));
        if t.contains(c) {
            let k = choose|k: int| 0 <= k < t.len() && t[k] == c;
            if k < head.len() {
                assert(head[k] == c);
            } else if k > head.len() {
                assert(values.last()[k - head.len() - 1] == c);
            }
        }
    }
}

proof fn lemma_split_bars(parts: Seq<Seq<char>>)
    requires
        parts.len() > 0,
        forall|i: int| 0 <= i < parts.len() ==> !(#[trigger] parts[i]).contains('|'),
    ensures
        text::split_on(text::joined(parts, "|"@), '|') == parts,
    decreases parts.len(),
{
    reveal_strlit("|");
    let last = parts.last();
    assert(!parts[parts.len() - 1].contains('|'));
    if parts.len() == 1 {
        changes::lemma_split_append(Seq::empty(), last, '|');
        assert(Seq::<char>::empty() + last == last);
        assert(text::split_on(last, '|') == parts);
    } else {
        let front = parts.drop_last();
        assert forall|i: int| 0 <= i < front.len() implies !(#[trigger] front[i]).contains('|') by {
            assert(front[i] == parts[i]);
        }
        lemma_split_bars(front);
        let head = text::joined(front, "|"@);
        let with = head.push('|');
        assert(head + "|"@ == with);
        assert(with.drop_last() == head);
        assert(text::split_on(with, '|') == front.push(Seq::empty()));
        changes::lemma_split_append(with, last, '|');
        assert(front.push(Seq::empty()).drop_last() == front);
        assert(Seq::<char>::empty() + last == last);
        assert(front.push(last) == parts);
    }
}

proof fn lemma_others(lines: Seq<Seq<char>>, prefix: Seq<char>)
    requires
        forall|i: int| 0 <= i < lines.len() ==> !(#[trigger] lines[i]).contains('\n'),
    ensures
        forall|i: int|
            0 <= i < other_lines(lines, prefix).len() ==> !(#[trigger] other_lines(
                lines,
                prefix,
            )[i]).contains('\n') && !text::begins(other_lines(lines, prefix)[i], prefix),
    decreases lines.len(),
{
    if lines.len() > 0 {
        let front = lines.drop_last();
        assert forall|i: int| 0 <= i < front.len() implies !(#[trigger] front[i]).contains('\n') by {
            assert(front[i] == lines[i]);
        }
        lemma_others(front, prefix);
        assert(!lines[lines.len() - 1].contains('\n'));
        let rest = other_lines(front, prefix);
        let all = other_lines(lines, prefix);
        assert forall|i: int| 0 <= i < all.len() implies !(#[trigger] all[i]).contains('\n')
            && !text::begins(all[i], prefix) by {
            if i < rest.len() {
                assert(all[i] == rest[i]);
            }
        }
    }
}

proof fn lemma_lines_have_no_feed(s: Seq<char>)
    ensures
        forall|i: int| 0 <= i < text::lines_of(s).len() ==> !(#[trigger] text::lines_of(
            s,
        )[i]).contains('\n'),
{
    changes::lemma_pieces_have_no_separator(s, '\n');
    text::lemma_split_on_nonempty(s, '\n');
    let pieces = text::split_on(s, '\n');
    let lines = text::lines_of(s);
    assert forall|i: int| 0 <= i < lines.len() implies !(#[trigger] lines[i]).contains('\n') by {
        assert(!pieces[i].contains('\n'));
        if lines[i].contains('\n') {
            let k = choose|k: int| 0 <= k < lines[i].len() && lines[i][k] == '\n';
            if i < pieces.len() - 1 {
                assert(lines[i] == text::strip_cr(pieces[i]));
                assert(pieces[i][k] == '\n');
            } else {
                assert(lines[i] == pieces[i]);
            }
        }
    }
}

proof fn lemma_values_behind(lines: Seq<Seq<char>>, prefix: Seq<char>)
    requires
        lines.len() > 0,
        forall|i: int| 0 <= i < lines.len() - 1 ==> !text::begins(#[trigger] lines[i], prefix),
        text::begins(lines.last(), prefix),
    ensures
        values_in(lines, prefix) == Some(
            text::split_on(lines.last().skip(prefix.len() as int), '|'),
        ),
    decreases lines.len(),
{
    if lines.len() > 1 {
        let rest = lines.skip(1);
        assert(!text::begins(lines[0], prefix));
        assert forall|i: int| 0 <= i < rest.len() - 1 implies !text::begins(
            #[trigger] rest[i],
            prefix,
        ) by {
            assert(rest[i] == lines[i + 1]);
        }
        assert(rest.last() == lines.last());
        lemma_values_behind(rest, prefix);
    }
}

/// What is put in is what is read afterwards, whatever was there before.
pub proof fn law_priors_are_read_back(
    contents: Seq<char>,
    profile_key: u64,
    media: MediaKind,
    values: Seq<Seq<char>>,
)
    requires
        values.len() > 0,
        forall|i: int|
            0 <= i < values.len() ==> !(#[trigger] values[i]).contains('|') && !values[i].contains(
                '\n',
            ) && !values[i].contains('\r'),
    ensures
        prior_of(with_prior(contents, profile_key, media, values), profile_key, media) == Some(
            values,
        ),
{
    let prefix = prefix_of(profile_key, media);
    let old_lines = text::lines_of(contents);
    lemma_lines_have_no_feed(contents);
    lemma_others(old_lines, prefix);
    let kept = other_lines(old_lines, prefix);
    let tail = text::joined(values, "|"@);
    lemma_joined_has_none(values, '\n');
    lemma_joined_has_none(values, '\r');
    lemma_split_bars(values);
    let line = prefix + tail;
    lemma_prefix_is_plain(profile_key, media);
    assert(!line.contains('\n')) by {
        if line.contains('\n') {
            let k = choose|k: int| 0 <= k < line.len() && line[k] == '\n';
            if k < prefix.len() {
                assert(prefix[k] == '\n');
            } else {
                assert(tail[k - prefix.len()] == '\n');
            }
        }
    }
    let all = kept.push(line);
    assert forall|i: int| 0 <= i < all.len() implies !(#[trigger] all[i]).contains('\n') by {
        if i < kept.len() {
            assert(all[i] == kept[i]);
        }
    }
    lemma_lines_of_lines(all);
    let t = showall::text_of_lines(all);
    let pieces = text::split_on(t, '\n');
    assert(pieces == all.push(Seq::empty()));
    assert(pieces.drop_last() == all);
    let f = |p: Seq<char>| text::strip_cr(p);
    let lines = text::lines_of(t);
    assert(lines == all.map_values(f));
    assert(text::strip_cr(line) == line) by {
        if line.last() == '\r' {
            if tail.len() > 0 {
                assert(tail[tail.len() - 1] == '\r');
            } else {
                assert(prefix[prefix.len() - 1] == '\r');
            }
        }
    }
    assert(lines.last() == line);
    assert(line.take(prefix.len() as int) == prefix);
    assert(line.skip(prefix.len() as int) == tail);
    assert forall|i: int| 0 <= i < lines.len() - 1 implies !text::begins(
        #[trigger] lines[i],
        prefix,
    ) by {
        assert(lines[i] == text::strip_cr(kept[i]));
        assert(!text::begins(kept[i], prefix));
        if text::begins(lines[i], prefix) {
            assert(kept[i].take(prefix.len() as int) == lines[i].take(prefix.len() as int));
        }
    }
    lemma_values_behind(lines, prefix);
}

proof fn lemma_prefix_is_plain(profile_key: u64, media: MediaKind)
    ensures
        !prefix_of(profile_key, media).contains('\n'),
        !prefix_of(profile_key, media).contains('\r'),
        prefix_of(profile_key, media).len() > 0,
{
    reveal_strlit("v2|");
    reveal_strlit("|");
    reveal_strlit("hdd");
    reveal_strlit("nvme");
    reveal_strlit("other");
    text::lemma_decimal_value(profile_key as nat);
    let d = text::decimal(profile_key as nat);
    let p = prefix_of(profile_key, media);
    assert forall|i: int| 0 <= i < p.len() implies p[i] != '\n' && p[i] != '\r' by {
        if 3 <= i < 3 + d.len() {
            assert(p[i] == d[i - 3]);
            assert(text::is_digit(d[i - 3]));
        }
    }
}

/// A transfer is held up by the pipeline before the workload, and by neither it is active.
pub proof fn law_the_pipeline_comes_first(pipeline_bound: bool, workload_bound: bool)
    ensures
        pipeline_bound <==> activity_of(pipeline_bound, workload_bound) is PipelineBound,
        !pipeline_bound && workload_bound <==> activity_of(pipeline_bound, workload_bound)
            is WorkloadBound,
        !pipeline_bound && !workload_bound <==> activity_of(pipeline_bound, workload_bound)
            is Active,
{
}

/// What waits between two stages is what was handed in and has not come out, where both
/// counters start together.
pub proof fn law_backlogs_are_what_is_under_way(submitted: u64, completed: u64)
    ensures
        submitted >= completed ==> backlog_of(true, Some(submitted), Some(completed)) == submitted
            - completed,
        submitted < completed ==> backlog_of(true, Some(submitted), Some(completed)) == 0,
        backlog_of(true, None, Some(completed)) == 0,
        backlog_of(true, Some(submitted), None) == 0,
{
}

/// The measured rate counts where there is one, the mean where there is none, and the
/// lesser only where the measured one is held to the mean.
pub proof fn law_rates_that_are_there_count(measured: bool, mean: bool, held_to_mean: bool)
    ensures
        ({
            let r = rate_choice_of(measured, mean, held_to_mean);
            &&& r is Unknown <==> !measured && !mean
            &&& r is Mean <==> !measured && mean
            &&& r is Lesser <==> measured && mean && held_to_mean
            &&& r is Measured <==> measured && !(mean && held_to_mean)
        }),
{
}

/// A transfer is complete exactly when all of a known total is done, and what is left and
/// what is done are together the total.
pub proof fn law_done_and_left_are_all(done: Option<u64>, total: u64)
    ensures
        ({
            let r = goal_of(done, total);
            &&& r is Complete <==> done is Some && total > 0 && done->0 >= total
            &&& r is Unknown <==> done is None || total == 0
            &&& r matches EtaGoal::Left { done: d, remain } ==> Some(d) == done && d + remain == total
                && remain > 0
        }),
{
}

/// What is said of the time that is left: nothing moves for five seconds and it is stalled;
/// an end that was shown is kept while nothing moves for less; and there is an estimate only
/// where there are a rate and a model.
pub proof fn law_estimates_need_a_rate_and_a_model(f: TurnFacts)
    ensures
        turn_of(f) is Stalled <==> f.idle_ns >= 5_000_000_000,
        turn_of(f) is TransientStall <==> 0 < f.idle_ns < 5_000_000_000 && f.has_finish,
        turn_of(f) is Estimate <==> f.has_rate && f.has_model && (f.idle_ns == 0 || (!f.has_finish
            && f.idle_ns < 1_500_000_000)),
        turn_of(f) is WarmingUp <==> !f.has_rate && f.warming_up && (f.idle_ns == 0 || (
        !f.has_finish && f.idle_ns < 1_500_000_000)),
{
}

/// Bytes went through as in one large file only where there were 4 MiB of them and the mean
/// file had one MiB.
pub proof fn law_sequential_means_much_in_large_files(bytes: u64, files: u64)
    ensures
        is_sequential(false, bytes, files),
        is_sequential(true, bytes, files) ==> bytes >= 4 * 1024 * 1024,
        is_sequential(true, bytes, 0) <==> bytes >= 4 * 1024 * 1024,
        files > 0 ==> (is_sequential(true, bytes, files) <==> bytes >= 4 * 1024 * 1024 && bytes
            / files >= 1024 * 1024),
{
}

/// While the bytes stand still the idle time grows by the time between the samples; once
/// they move it starts anew. The last sample is kept.
pub proof fn law_idle_time_grows_while_nothing_moves(c: ClockModel, s: Sample)
    ensures
        ({
            let r = ticked(c, s);
            &&& r.last == Some(s)
            &&& c.last is None ==> r.idle_ns == 0
            &&& c.last matches Some(l) ==> {
                &&& l.bytes != s.bytes ==> r.idle_ns == 0
                &&& l.bytes == s.bytes && s.at >= l.at && c.idle_ns + (s.at - l.at) <= u64::MAX
                    ==> r.idle_ns == c.idle_ns + (s.at - l.at)
                &&& l.bytes == s.bytes && s.at < l.at ==> r.idle_ns == c.idle_ns
            }
        }),
{
}

/// Samples are kept for 90 seconds: the first that is kept is no older, and only older ones
/// are dropped.
pub proof fn law_only_old_samples_are_dropped(samples: Seq<Sample>, now: u64)
    ensures
        recent(samples, now).len() <= samples.len(),
        recent(samples, now) == samples.skip(samples.len() - recent(samples, now).len()),
        recent(samples, now).len() > 0 ==> recent(samples, now)[0].at + 90_000_000_000 >= now,
        forall|i: int|
            0 <= i < samples.len() - recent(samples, now).len() ==> (#[trigger] samples[i]).at
                + 90_000_000_000 < now,
    decreases samples.len(),
{
    let kept = recent(samples, now);
    if samples.len() > 0 && samples[0].at + RETENTION_NS < now {
        let rest = samples.skip(1);
        law_only_old_samples_are_dropped(rest, now);
        assert(rest.skip(rest.len() - kept.len()) == samples.skip(samples.len() - kept.len()));
        assert forall|i: int| 0 <= i < samples.len() - kept.len() implies (#[trigger] samples[i]).at
            + 90_000_000_000 < now by {
            if i > 0 {
                assert(rest[i - 1] == samples[i]);
            }
        }
    } else {
        assert(samples.skip(0) == samples);
    }
}

/// A stretch is as long as the time between its samples, with the bytes that came in it.
pub proof fn law_stretches_hold_what_came(a: Sample, b: Sample)
    requires
        a.at <= b.at,
    ensures
        stretch_between(a, b).ns == b.at - a.at,
        a.bytes <= b.bytes ==> stretch_between(a, b).bytes == b.bytes - a.bytes,
        a.bytes > b.bytes ==> stretch_between(a, b).bytes == 0,
{
}

/// What was learnt is kept nowhere where that is switched off, below the directory for
/// states where that is set, and else below the home directory.
pub proof fn law_where_what_was_learnt_is_kept(
    state_home: Option<Seq<char>>,
    home: Option<Seq<char>>,
)
    ensures
        prior_path_of(true, state_home, home) is None,
        state_home matches Some(s) ==> prior_path_of(false, state_home, home) == Some(
            paths::joined_path(s, "copy-rs/eta-priors.v2"@),
        ),
        state_home is None ==> (home matches Some(h) ==> prior_path_of(false, state_home, home)
            == Some(paths::joined_path(h, ".local/state/copy-rs/eta-priors.v2"@))),
        state_home is None && home is None ==> prior_path_of(false, state_home, home) is None,
{
}

/// A stretch of time begins no earlier than the start and no longer ago than its length,
/// and as early as that allows.
pub proof fn law_stretches_are_as_long_as_they_may_be(start: u64, now: u64, window: u64)
    requires
        start <= now,
    ensures
        ({
            let from = cutoff_of(start, now, window);
            &&& start <= from <= now
            &&& now - from <= window
            &&& from == start || now - from == window
        }),
{
}

/// Only one of some samples in order of time opens a stretch.
pub proof fn law_one_sample_opens(samples: Seq<Sample>, start: u64, cutoff: u64, a: int, b: int)
    requires
        forall|i: int, j: int|
            0 <= i <= j < samples.len() ==> (#[trigger] samples[i]).at <= (#[trigger] samples[j]).at,
        opens(samples, start, cutoff, a),
        opens(samples, start, cutoff, b),
    ensures
        a == b,
{
    if a < b {
        assert(samples[a].at <= samples[b].at);
    }
    if b < a {
        assert(samples[b].at <= samples[a].at);
    }
}

/// The sample that opens a stretch is from the start on. None behind it is at or before the
/// cutoff, and where it is itself behind the cutoff, none before it is from the start on.
pub proof fn law_the_opening_sample_is_the_nearest(
    samples: Seq<Sample>,
    start: u64,
    cutoff: u64,
    k: int,
    j: int,
)
    requires
        opens(samples, start, cutoff, k),
        0 <= j < samples.len(),
        start <= samples[j].at,
    ensures
        start <= samples[k].at,
        samples[j].at <= cutoff && samples[k].at <= cutoff ==> j <= k,
        samples[k].at > cutoff ==> k <= j,
{
}

/// The first sample tells nothing. From a stretch that is over, what went through is the
/// difference of the bytes, and nothing did where they did not grow; and the costs of an
/// idle stretch are known only with known work, of which something was done.
pub proof fn law_steps_tell_what_went_through(
    r: ModelStep,
    previous: Option<WorkSample>,
    current: WorkSample,
    over: bool,
    known_work: bool,
)
    requires
        is_model_step(r, previous, current, over, known_work),
    ensures
        r is First <==> previous is None,
        r is Wait <==> previous is Some && !over,
        previous matches Some(p) ==> over ==> (r is Moved <==> current.bytes > p.bytes),
        previous matches Some(p) ==> (r matches ModelStep::Moved { bytes, costs, .. } ==> p.bytes
            + bytes == current.bytes && costs == known_work),
        r matches ModelStep::Idle { costs, .. } ==> costs ==> known_work,
{
}

} // verus!
