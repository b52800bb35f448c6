use vissort::sorting_algorithms::bubble_sort::bubble_sort_with_recording;
use vissort::sorting_algorithms::cocktail_sort::cocktail_sort_with_recording;
use vissort::sorting_algorithms::comb_sort::{comb_sort_with_recording, shrink_gap};
use vissort::sorting_algorithms::gnome_sort::gnome_sort_with_recording;
use vissort::sorting_algorithms::heap_sort::heap_sort_with_recording;
use vissort::sorting_algorithms::insertion_sort::insertion_sort_with_recording;
use vissort::sorting_algorithms::intro_sort::{depth_limit_for, intro_sort_with_recording};
use vissort::sorting_algorithms::merge_sort::merge_sort_with_recording;
use vissort::sorting_algorithms::quick_sort::quick_sort_with_recording;
use vissort::sorting_algorithms::selection_sort::selection_sort_with_recording;
use vissort::sorting_algorithms::shell_sort::shell_sort_with_recording;
use vissort::sorting_algorithms::tim_sort::tim_sort_with_recording;

type Recorder = fn(&[u32], &mut Vec<Vec<u32>>);

fn all_recorders() -> Vec<(&'static str, Recorder, bool)> {
    vec![
        ("bubble", bubble_sort_with_recording as Recorder, true),
        ("cocktail", cocktail_sort_with_recording as Recorder, true),
        ("comb", comb_sort_with_recording as Recorder, true),
        ("gnome", gnome_sort_with_recording as Recorder, true),
        ("heap", heap_sort_with_recording as Recorder, true),
        ("insertion", insertion_sort_with_recording as Recorder, false),
        ("intro", intro_sort_with_recording as Recorder, true),
        ("merge", merge_sort_with_recording as Recorder, false),
        ("quick", quick_sort_with_recording as Recorder, true),
        ("selection", selection_sort_with_recording as Recorder, true),
        ("shell", shell_sort_with_recording as Recorder, true),
        ("tim", tim_sort_with_recording as Recorder, false),
    ]
}

fn scrambled(count: usize, seed: u64) -> Vec<u32> {
    let mut state = seed;
    let mut values = Vec::new();
    for _ in 0..count {
        state = state.wrapping_mul(6364136223846793005).wrapping_add(1442695040888963407);
        values.push(((state >> 33) % 97) as u32);
    }
    values
}

fn in_order(values: &[u32]) -> Vec<u32> {
    let mut copy = values.to_vec();
    copy.sort();
    copy
}

fn record(recorder: Recorder, input: &[u32]) -> Vec<Vec<u32>> {
    let mut frames = Vec::new();
    recorder(input, &mut frames);
    frames
}

#[test]
fn empty_input_gives_empty_recording() {
    for (name, recorder, _) in all_recorders() {
        let frames = record(recorder, &[]);
        assert!(frames.is_empty(), "{}", name);
    }
}

#[test]
fn single_value_gives_single_frame() {
    for (name, recorder, _) in all_recorders() {
        let frames = record(recorder, &[7]);
        assert_eq!(frames, vec![vec![7]], "{}", name);
    }
}

#[test]
fn two_values_in_order() {
    let expected_single = ["bubble", "cocktail", "comb", "gnome", "insertion", "quick", "selection", "shell", "tim", "intro"];
    for (name, recorder, _) in all_recorders() {
        let frames = record(recorder, &[1, 2]);
        assert_eq!(frames.first(), Some(&vec![1, 2]), "{}", name);
        assert_eq!(frames.last(), Some(&vec![1, 2]), "{}", name);
        if expected_single.contains(&name) {
            assert_eq!(frames.len(), 1, "{}", name);
        }
    }
}

#[test]
fn two_values_out_of_order() {
    for (name, recorder, _) in all_recorders() {
        let frames = record(recorder, &[2, 1]);
        assert_eq!(frames.first(), Some(&vec![2, 1]), "{}", name);
        assert_eq!(frames.last(), Some(&vec![1, 2]), "{}", name);
        assert!(frames.len() >= 2, "{}", name);
    }
}

#[test]
fn recordings_start_with_input_and_end_sorted() {
    for (name, recorder, rearranges) in all_recorders() {
        for (count, seed) in [(50usize, 1u64), (50, 2), (70, 3), (33, 4), (129, 5)] {
            let input = scrambled(count, seed);
            let frames = record(recorder, &input);
            assert_eq!(frames[0], input, "{}", name);
            assert_eq!(frames[frames.len() - 1], in_order(&input), "{}", name);
            for frame in frames.iter() {
                assert_eq!(frame.len(), input.len(), "{}", name);
                if rearranges {
                    assert_eq!(in_order(frame), in_order(&input), "{}", name);
                }
            }
        }
    }
}

#[test]
fn recordings_go_on_from_earlier_frames() {
    for (name, recorder, _) in all_recorders() {
        let mut frames = vec![vec![9, 9, 9]];
        recorder(&[2, 3, 1], &mut frames);
        assert_eq!(frames[0], vec![9, 9, 9], "{}", name);
        assert_eq!(frames[1], vec![2, 3, 1], "{}", name);
        assert_eq!(frames[frames.len() - 1], vec![1, 2, 3], "{}", name);
    }
}

#[test]
fn neighbour_exchanges_only() {
    for recorder in [
        bubble_sort_with_recording as Recorder,
        cocktail_sort_with_recording as Recorder,
        gnome_sort_with_recording as Recorder,
    ] {
        let input = scrambled(40, 11);
        let frames = record(recorder, &input);
        for pair in frames.windows(2) {
            let changed: Vec<usize> = (0..input.len()).filter(|&k| pair[0][k] != pair[1][k]).collect();
            assert_eq!(changed.len(), 2);
            assert_eq!(changed[0] + 1, changed[1]);
            assert!(pair[0][changed[0]] > pair[0][changed[1]]);
            assert_eq!(pair[0][changed[0]], pair[1][changed[1]]);
            assert_eq!(pair[0][changed[1]], pair[1][changed[0]]);
        }
    }
}

#[test]
fn sorted_input_rests() {
    let sorted_input: Vec<u32> = vec![1, 2, 2, 3, 5, 8, 8, 13];
    for recorder in [
        bubble_sort_with_recording as Recorder,
        cocktail_sort_with_recording as Recorder,
        comb_sort_with_recording as Recorder,
        gnome_sort_with_recording as Recorder,
        insertion_sort_with_recording as Recorder,
        selection_sort_with_recording as Recorder,
        shell_sort_with_recording as Recorder,
        tim_sort_with_recording as Recorder,
    ] {
        let frames = record(recorder, &sorted_input);
        assert_eq!(frames, vec![sorted_input.clone()]);
    }
}

#[test]
fn quick_sort_rests_on_increasing_input() {
    let frames = record(quick_sort_with_recording, &[1, 2, 3, 5, 8, 13]);
    assert_eq!(frames, vec![vec![1, 2, 3, 5, 8, 13]]);
}

#[test]
fn quick_sort_moves_equal_pivot() {
    let frames = record(quick_sort_with_recording, &[1, 1]);
    assert_eq!(frames, vec![vec![1, 1], vec![1, 1]]);
}

#[test]
fn merge_sort_records_every_write() {
    let frames = record(merge_sort_with_recording, &[1, 2]);
    assert_eq!(frames, vec![vec![1, 2], vec![1, 2], vec![1, 2]]);
}

#[test]
fn heap_sort_moves_sorted_input() {
    let frames = record(heap_sort_with_recording, &[1, 2]);
    assert_eq!(frames, vec![vec![1, 2], vec![2, 1], vec![1, 2]]);
}

#[test]
fn bubble_sort_example() {
    let frames = record(bubble_sort_with_recording, &[3, 1, 2]);
    assert_eq!(frames, vec![vec![3, 1, 2], vec![1, 3, 2], vec![1, 2, 3]]);
}

#[test]
fn selection_sort_example() {
    let frames = record(selection_sort_with_recording, &[3, 1, 2]);
    assert_eq!(frames, vec![vec![3, 1, 2], vec![1, 3, 2], vec![1, 2, 3]]);
}

#[test]
fn cocktail_sort_example() {
    let frames = record(cocktail_sort_with_recording, &[3, 1, 2]);
    assert_eq!(frames, vec![vec![3, 1, 2], vec![1, 3, 2], vec![1, 2, 3]]);
    let frames = record(cocktail_sort_with_recording, &[2, 3, 1]);
    assert_eq!(frames, vec![vec![2, 3, 1], vec![2, 1, 3], vec![1, 2, 3]]);
}

#[test]
fn comb_sort_example() {
    let frames = record(comb_sort_with_recording, &[3, 1, 2]);
    assert_eq!(frames, vec![vec![3, 1, 2], vec![2, 1, 3], vec![1, 2, 3]]);
}

#[test]
fn comb_gap_shrinks_by_thirteen_tenths() {
    assert_eq!(shrink_gap(0), 1);
    assert_eq!(shrink_gap(1), 1);
    assert_eq!(shrink_gap(2), 1);
    assert_eq!(shrink_gap(3), 2);
    assert_eq!(shrink_gap(13), 10);
    assert_eq!(shrink_gap(14), 10);
    assert_eq!(shrink_gap(26), 20);
    assert_eq!(shrink_gap(100), 76);
    assert_eq!(shrink_gap(2500), 1923);
}

#[test]
fn gnome_sort_example() {
    let frames = record(gnome_sort_with_recording, &[3, 1, 2]);
    assert_eq!(frames, vec![vec![3, 1, 2], vec![1, 3, 2], vec![1, 2, 3]]);
    let frames = record(gnome_sort_with_recording, &[3, 2, 1]);
    assert_eq!(
        frames,
        vec![vec![3, 2, 1], vec![2, 3, 1], vec![2, 1, 3], vec![1, 2, 3]]
    );
}

#[test]
fn shell_sort_example() {
    let frames = record(shell_sort_with_recording, &[3, 1, 2]);
    assert_eq!(frames, vec![vec![3, 1, 2], vec![1, 3, 2], vec![1, 2, 3]]);
    let frames = record(shell_sort_with_recording, &[4, 3, 2, 1]);
    assert_eq!(
        frames,
        vec![
            vec![4, 3, 2, 1],
            vec![2, 3, 4, 1],
            vec![2, 1, 4, 3],
            vec![1, 2, 4, 3],
            vec![1, 2, 3, 4]
        ]
    );
}

#[test]
fn insertion_sort_example() {
    let frames = record(insertion_sort_with_recording, &[3, 1, 2]);
    assert_eq!(
        frames,
        vec![vec![3, 1, 2], vec![3, 3, 2], vec![1, 3, 3], vec![1, 2, 3]]
    );
}

#[test]
fn merge_sort_example() {
    let frames = record(merge_sort_with_recording, &[3, 1, 2]);
    assert_eq!(
        frames,
        vec![
            vec![3, 1, 2],
            vec![3, 1, 2],
            vec![3, 1, 2],
            vec![1, 1, 2],
            vec![1, 2, 2],
            vec![1, 2, 3]
        ]
    );
}

#[test]
fn quick_sort_example() {
    let frames = record(quick_sort_with_recording, &[3, 1, 2]);
    assert_eq!(frames, vec![vec![3, 1, 2], vec![1, 3, 2], vec![1, 2, 3]]);
}

#[test]
fn heap_sort_example() {
    let frames = record(heap_sort_with_recording, &[3, 1, 2]);
    assert_eq!(frames, vec![vec![3, 1, 2], vec![2, 1, 3], vec![1, 2, 3]]);
    let frames = record(heap_sort_with_recording, &[1, 2, 3]);
    assert_eq!(
        frames,
        vec![vec![1, 2, 3], vec![3, 2, 1], vec![1, 2, 3], vec![2, 1, 3], vec![1, 2, 3]]
    );
}

#[test]
fn tim_sort_example() {
    let frames = record(tim_sort_with_recording, &[3, 1, 2]);
    assert_eq!(
        frames,
        vec![vec![3, 1, 2], vec![3, 3, 2], vec![1, 3, 3], vec![1, 2, 3]]
    );
}

#[test]
fn tim_sort_merges_runs_of_thirty_two() {
    let mut input: Vec<u32> = (0..32).collect();
    input.extend(0..8u32);
    let frames = record(tim_sort_with_recording, &input);
    assert_eq!(frames.len(), 1 + 40);
    assert_eq!(frames[0], input);
    assert_eq!(frames[1][0], 0);
    assert_eq!(frames[2][1], 0);
    assert_eq!(frames[40], in_order(&input));
}

#[test]
fn intro_sort_example() {
    let frames = record(intro_sort_with_recording, &[3, 1, 2]);
    assert_eq!(frames, vec![vec![3, 1, 2], vec![1, 3, 2], vec![1, 2, 3]]);
}

#[test]
fn intro_sort_falls_back_to_heap() {
    let frames = record(intro_sort_with_recording, &[1, 2, 3, 4, 5, 6, 7, 8]);
    assert_eq!(
        frames,
        vec![
            vec![1, 2, 3, 4, 5, 6, 7, 8],
            vec![2, 1, 3, 4, 5, 6, 7, 8],
            vec![1, 2, 3, 4, 5, 6, 7, 8]
        ]
    );
    let frames = record(intro_sort_with_recording, &[1, 2, 3, 4, 5, 6]);
    assert_eq!(frames, vec![vec![1, 2, 3, 4, 5, 6]]);
}

#[test]
fn depth_limit_is_twice_the_logarithm_rounded_down() {
    assert_eq!(depth_limit_for(0), 0);
    assert_eq!(depth_limit_for(1), 0);
    assert_eq!(depth_limit_for(2), 2);
    assert_eq!(depth_limit_for(3), 3);
    assert_eq!(depth_limit_for(4), 4);
    assert_eq!(depth_limit_for(5), 4);
    assert_eq!(depth_limit_for(6), 5);
    assert_eq!(depth_limit_for(8), 6);
    assert_eq!(depth_limit_for(1000), 19);
    assert_eq!(depth_limit_for(1024), 20);
}
