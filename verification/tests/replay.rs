use std::time::Duration;
use vissort::sorting_algorithms::{SortingAlgorithmKind, SortingAlgorithmReplay};
use vissort::stats::SortStats;

fn all_kinds() -> Vec<SortingAlgorithmKind> {
    vec![
        SortingAlgorithmKind::BubbleSort,
        SortingAlgorithmKind::QuickSort,
        SortingAlgorithmKind::InsertionSort,
        SortingAlgorithmKind::SelectionSort,
        SortingAlgorithmKind::MergeSort,
        SortingAlgorithmKind::HeapSort,
        SortingAlgorithmKind::ShellSort,
        SortingAlgorithmKind::IntroSort,
        SortingAlgorithmKind::TimSort,
        SortingAlgorithmKind::CocktailSort,
        SortingAlgorithmKind::CombSort,
        SortingAlgorithmKind::GnomeSort,
    ]
}

#[test]
fn display_names() {
    let names: Vec<&str> = all_kinds().iter().map(|kind| kind.display_name()).collect();
    assert_eq!(
        names,
        vec![
            "Bubble Sort",
            "Quick Sort",
            "Insertion Sort",
            "Selection Sort",
            "Merge Sort",
            "Heap Sort",
            "Shell Sort",
            "Intro Sort",
            "Tim Sort",
            "Cocktail Shaker Sort",
            "Comb Sort",
            "Gnome Sort"
        ]
    );
}

#[test]
fn stats_keep_measurements() {
    let stats = SortStats::from_measurements(42, Duration::from_millis(1500));
    assert_eq!(stats.total_steps(), 42);
    assert_eq!(stats.duration(), Duration::from_millis(1500));
}

#[test]
fn replay_counts_frames_as_steps() {
    for kind in all_kinds() {
        let replay = SortingAlgorithmReplay::new(kind, &[5, 3, 4, 1, 2]);
        assert_eq!(replay.name(), kind.display_name());
        let (first, _) = replay.frame_at(0);
        assert_eq!(first, vec![5, 3, 4, 1, 2]);
        let steps = replay.stats_snapshot().total_steps() as usize;
        assert!(steps >= 2);
        let (last, finished) = replay.frame_at(steps - 1);
        assert!(finished);
        assert_eq!(last, vec![1, 2, 3, 4, 5]);
        let (before_last, finished) = replay.frame_at(steps - 2);
        assert!(!finished);
        assert_ne!(before_last.len(), 0);
    }
}

#[test]
fn replay_of_no_values_has_one_empty_frame() {
    for kind in all_kinds() {
        let replay = SortingAlgorithmReplay::new(kind, &[]);
        assert_eq!(replay.stats_snapshot().total_steps(), 1);
        assert_eq!(replay.frame_at(0), (vec![], true));
        assert_eq!(replay.frame_at(5), (vec![], true));
    }
}

#[test]
fn from_recording_replaces_empty_recording() {
    let replay = SortingAlgorithmReplay::from_recording(
        SortingAlgorithmKind::HeapSort,
        &[4, 2],
        Vec::new(),
        Duration::from_secs(2),
    );
    assert_eq!(replay.name(), "Heap Sort");
    assert_eq!(replay.frame_at(0), (vec![4, 2], true));
    assert_eq!(replay.stats_snapshot().total_steps(), 1);
    assert_eq!(replay.stats_snapshot().duration(), Duration::from_secs(2));
}

#[test]
fn from_recording_keeps_frames() {
    let replay = SortingAlgorithmReplay::from_recording(
        SortingAlgorithmKind::BubbleSort,
        &[2, 1],
        vec![vec![2, 1], vec![1, 2]],
        Duration::from_millis(3),
    );
    assert_eq!(replay.stats_snapshot().total_steps(), 2);
    assert_eq!(replay.frame_at(0), (vec![2, 1], false));
    assert_eq!(replay.frame_at(1), (vec![1, 2], true));
}

#[test]
fn frame_at_clamps() {
    let replay = SortingAlgorithmReplay::new(SortingAlgorithmKind::BubbleSort, &[3, 1, 2]);
    assert_eq!(replay.frame_at(0), (vec![3, 1, 2], false));
    assert_eq!(replay.frame_at(1), (vec![1, 3, 2], false));
    assert_eq!(replay.frame_at(2), (vec![1, 2, 3], true));
    assert_eq!(replay.frame_at(3), (vec![1, 2, 3], true));
    assert_eq!(replay.frame_at(usize::MAX), (vec![1, 2, 3], true));
}

#[test]
fn replays_of_different_lengths_in_lockstep() {
    let shorter = SortingAlgorithmReplay::new(SortingAlgorithmKind::BubbleSort, &[3, 1, 2]);
    let longer = SortingAlgorithmReplay::new(SortingAlgorithmKind::MergeSort, &[3, 1, 2]);
    let short_len = shorter.stats_snapshot().total_steps() as usize;
    let long_len = longer.stats_snapshot().total_steps() as usize;
    assert_eq!(short_len, 3);
    assert_eq!(long_len, 6);
    assert!(shorter.frame_at(short_len).1);
    assert!(!longer.frame_at(short_len).1);
    for tick in (long_len - 1)..(long_len + 3) {
        assert_eq!(shorter.frame_at(tick), (vec![1, 2, 3], true));
        assert_eq!(longer.frame_at(tick), (vec![1, 2, 3], true));
    }
    assert!(!longer.frame_at(long_len - 2).1);
}
