use fsx_tools::domain::MediaKind;
use fsx_tools::workload::{EtaProgressTotals, EtaWorkload};

#[test]
fn ordered_workload_tracks_out_of_order_completion() {
    let mut workload = EtaWorkload::from_file_sizes(
        &vec![4 * 1024, 8 * 1024, 2 * 1024 * 1024],
        MediaKind::Hdd,
        42,
    );
    let mut progress = EtaProgressTotals::default();
    assert_eq!(
        workload
            .remaining_ordered(progress)
            .file_bins
            .iter()
            .sum::<u64>(),
        3
    );

    workload.mark_operation(1);
    let remaining = workload.remaining_ordered(progress);
    assert_eq!(remaining.file_bins.iter().sum::<u64>(), 2);
    assert_eq!(remaining.file_bytes[0], 4 * 1024);
    assert_eq!(remaining.file_bytes[5], 2 * 1024 * 1024);

    workload.mark_operation(0);
    progress.file_bins[0] = 2;
    progress.file_bytes[0] = 12 * 1024;
    assert_eq!(
        workload
            .remaining_ordered(progress)
            .file_bins
            .iter()
            .sum::<u64>(),
        1
    );
    workload.mark_operation(2);
    assert_eq!(
        workload
            .remaining_ordered(progress)
            .file_bins
            .iter()
            .sum::<u64>(),
        0
    );
}

#[test]
fn unmarked_files_are_left_over_all_segments() {
    let sizes: Vec<u64> = (0..600).map(|i| i * 1024).collect();
    let mut workload = EtaWorkload::from_file_sizes(&sizes, MediaKind::Hdd, 1);
    let marks = [599, 3, 300, 3, 900, 0, 255, 256];
    for i in marks {
        workload.mark_operation(i);
    }
    let left: Vec<u64> =
        (0..600).filter(|i| !marks.contains(i)).map(|i| sizes[i as usize]).collect();
    let remaining = workload.remaining_ordered(EtaProgressTotals::default());
    assert_eq!(remaining.file_bins.iter().sum::<u64>(), left.len() as u64);
    assert_eq!(remaining.file_bytes.iter().sum::<u64>(), left.iter().sum::<u64>());
    assert_eq!((remaining.dirs, remaining.metadata), (0, 0));
}
