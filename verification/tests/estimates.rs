use fsx_tools::domain::MediaKind;
use fsx_tools::eta::{
    eta_goal, eta_prior_path, eta_turn, model_step, percentile_index, prior_values, rate_choice,
    running_activity, updated_priors, Backlogs, EtaActivity, EtaClock, EtaGoal, EtaRng,
    EtaTelemetry, EtaTurn, ModelStep, RateChoice, Sample, TurnFacts, WorkSample, PAUSE_NS,
    STALL_NS,
};
use fsx_tools::workload::{
    eta_file_bin, EtaProgressTotals, EtaWorkOp, EtaWorkSummary, EtaWorkload,
};

fn totals() -> EtaProgressTotals {
    EtaProgressTotals { file_bins: [0; 8], file_bytes: [0; 8], dirs: 0, metadata: 0 }
}

#[test]
fn files_fall_into_bins_by_size() {
    assert_eq!(eta_file_bin(0), 0);
    let mut last = 0;
    for shift in 0..50 {
        let bin = eta_file_bin(1u64 << shift);
        assert!(bin >= last && bin < 8);
        last = bin;
    }
    assert_eq!(last, 7);
}

#[test]
fn what_is_left_is_what_was_not_marked() {
    let mut work = EtaWorkload::from_file_sizes(&[10, 20, 30], MediaKind::Other, 1);
    work.mark_operation(1);
    work.mark_operation(1);
    let mut done = totals();
    done.mark_file(20);
    let left: EtaWorkSummary = work.remaining_ordered(done);
    assert_eq!(left.file_bytes.iter().sum::<u64>(), 40);
    assert_eq!(left.file_bins.iter().sum::<u64>(), 2);
    let op = EtaWorkOp { bytes: 5, bin: 0, is_dir: true, is_metadata: false };
    let dirs = EtaWorkload::from_ops(vec![op, op], MediaKind::Hdd, 2);
    assert_eq!(dirs.total.dirs, 2);
}

#[test]
fn progress_is_compared_between_samples() {
    let mut earlier = totals();
    earlier.mark_file(7);
    let mut later = earlier;
    later.mark_file(9);
    later.mark_dir();
    later.mark_metadata(3);
    let delta = later.delta(earlier);
    assert_eq!(delta.file_count(), 1);
    assert_eq!(delta.file_bytes.iter().sum::<u64>(), 9);
    assert_eq!((delta.dirs, delta.metadata), (1, 3));
    let at = |bytes, progress| WorkSample { bytes, progress };
    assert!(matches!(model_step(None, at(0, earlier), false, true), ModelStep::First));
    match model_step(Some(at(100, earlier)), at(150, later), true, true) {
        ModelStep::Moved { bytes, progress, .. } => {
            assert_eq!(bytes, 50);
            assert_eq!(progress.dirs, 1);
        }
        other => panic!("{:?}", other),
    }
    assert!(matches!(
        model_step(Some(at(100, earlier)), at(100, earlier), false, true),
        ModelStep::Wait
    ));
}

#[test]
fn goals_are_known_or_not() {
    assert_eq!(eta_goal(None, 10), EtaGoal::Unknown);
    assert_eq!(eta_goal(Some(10), 10), EtaGoal::Complete);
    assert_eq!(eta_goal(Some(4), 10), EtaGoal::Left { done: 4, remain: 6 });
    assert_eq!(rate_choice(true, true, true), RateChoice::Lesser);
    assert_eq!(rate_choice(true, false, true), RateChoice::Measured);
    assert_eq!(rate_choice(false, true, false), RateChoice::Mean);
    assert_eq!(rate_choice(false, false, false), RateChoice::Unknown);
}

#[test]
fn nothing_is_estimated_while_idle() {
    let f = TurnFacts {
        idle_ns: 0,
        has_finish: true,
        has_rate: true,
        warming_up: false,
        has_model: true,
    };
    assert_eq!(eta_turn(f), EtaTurn::Estimate);
    assert_eq!(eta_turn(TurnFacts { idle_ns: STALL_NS, ..f }), EtaTurn::Stalled);
    assert_eq!(eta_turn(TurnFacts { idle_ns: PAUSE_NS, ..f }), EtaTurn::TransientStall);
    assert_eq!(running_activity(true, true).label(), EtaActivity::PipelineBound.label());
    assert_eq!(running_activity(false, true), EtaActivity::WorkloadBound);
    assert_eq!(running_activity(false, false).label(), "active");
}

#[test]
fn backlogs_need_aligned_counters() {
    let t = EtaTelemetry {
        write_bytes: Some(10),
        write_complete: Some(4),
        read_bytes: Some(3),
        read_complete: Some(9),
        aligned_pipeline_counters: true,
    };
    assert_eq!(t.backlogs(), Backlogs { write: 6, read: 0 });
    let apart = EtaTelemetry { aligned_pipeline_counters: false, ..t };
    assert_eq!(apart.backlogs(), Backlogs { write: 0, read: 0 });
}

#[test]
fn the_clock_measures_stretches_and_pauses() {
    let mut clock = EtaClock::new();
    let s = 1_000_000_000u64;
    clock.tick(Sample { at: 0, bytes: 0 });
    let tick = clock.tick(Sample { at: s, bytes: 100 });
    assert_eq!((tick.reset, tick.dt), (false, s));
    assert_eq!(clock.idle_ns(), 0);
    clock.tick(Sample { at: 2 * s, bytes: 100 });
    assert_eq!(clock.idle_ns(), s);
    assert_eq!(clock.span_ns(), 2 * s);
    let whole = clock.stretch(0, 2 * s, 10 * s).unwrap();
    assert_eq!((whole.ns, whole.bytes), (2 * s, 100));
    let back = clock.tick(Sample { at: s, bytes: 5 });
    assert!(back.reset);
}

#[test]
fn draws_repeat_from_the_same_seed() {
    let mut a = EtaRng::new();
    let mut b = EtaRng::new();
    let first = a.next_u64();
    assert_eq!(first, b.next_u64());
    assert_ne!(first, a.next_u64());
    assert_eq!(percentile_index(101, 50), 50);
    assert_eq!(percentile_index(1, 90), 0);
}

#[test]
fn priors_are_read_back() {
    assert_eq!(eta_prior_path(true, Some("/s"), Some("/h")), None);
    assert_eq!(
        eta_prior_path(false, Some("/s"), Some("/h")),
        Some("/s/copy-rs/eta-priors.v2".to_string())
    );
    let values = vec!["1.5".to_string(), "2".to_string()];
    let text = updated_priors("", 77, MediaKind::Nvme, &values);
    assert_eq!(prior_values(&text, 77, MediaKind::Nvme), Some(values));
    assert_eq!(prior_values(&text, 78, MediaKind::Nvme), None);
    assert_eq!(prior_values(&text, 77, MediaKind::Hdd), None);
    let newer = vec!["3".to_string(), "4".to_string()];
    let text = updated_priors(&text, 77, MediaKind::Nvme, &newer);
    assert_eq!(prior_values(&text, 77, MediaKind::Nvme), Some(newer));
}
