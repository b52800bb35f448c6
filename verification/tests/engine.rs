use vissort::engine::{
    frame_interval_millis, ordered_base_values, remaining_pause, shuffled_base_values, AfterStep,
    EngineConfig, EngineRun, EngineSharedState, EngineState, RunPhase,
};
use vissort::sorting_algorithms::SortingAlgorithmKind;

fn published(run: &mut EngineRun, stop: bool) -> (Option<EngineSharedState>, AfterStep) {
    let step = run.advance(stop);
    (step.published, step.after)
}

#[test]
fn default_state_is_idle_and_empty() {
    assert_eq!(EngineState::default(), EngineState::Idle);
    let state = EngineSharedState::default();
    assert_eq!(state.engine_state, EngineState::Idle);
    assert!(state.algorithm_states.is_empty());
}

#[test]
fn state_without_snapshots() {
    let state = EngineSharedState::without_snapshots(EngineState::Running);
    assert_eq!(state.engine_state, EngineState::Running);
    assert!(state.algorithm_states.is_empty());
    let state = EngineSharedState::without_snapshots(EngineState::Preparing {
        algorithms_completed: 2,
        algorithms_total: 5,
    });
    assert_eq!(
        state.engine_state,
        EngineState::Preparing { algorithms_completed: 2, algorithms_total: 5 }
    );
}

#[test]
fn ordered_base_values_count_up() {
    assert_eq!(ordered_base_values(0), Vec::<u32>::new());
    assert_eq!(ordered_base_values(1), vec![0]);
    assert_eq!(ordered_base_values(5), vec![0, 1, 2, 3, 4]);
}

#[test]
fn shuffled_base_values_are_a_rearrangement() {
    let values = shuffled_base_values(1000);
    assert_ne!(values, ordered_base_values(1000));
    let mut sorted = values.clone();
    sorted.sort();
    assert_eq!(sorted, ordered_base_values(1000));
    assert_eq!(shuffled_base_values(0), Vec::<u32>::new());
    assert_eq!(shuffled_base_values(1), vec![0]);
}

#[test]
fn frame_interval_divides_a_second() {
    assert_eq!(frame_interval_millis(60), 16);
    assert_eq!(frame_interval_millis(10), 100);
    assert_eq!(frame_interval_millis(120), 8);
    assert_eq!(frame_interval_millis(1), 1000);
    assert_eq!(frame_interval_millis(0), 1000);
    assert_eq!(frame_interval_millis(1000), 1);
    assert_eq!(frame_interval_millis(1001), 0);
}

#[test]
fn remaining_pause_never_negative() {
    assert_eq!(remaining_pause(16, 5), 11);
    assert_eq!(remaining_pause(16, 16), 0);
    assert_eq!(remaining_pause(16, 40), 0);
    assert_eq!(remaining_pause(0, 0), 0);
}

#[test]
fn run_goes_from_preparing_to_running_to_idle() {
    let mut run = EngineRun::new(
        vec![SortingAlgorithmKind::BubbleSort, SortingAlgorithmKind::MergeSort],
        vec![3, 1, 2],
    );
    assert_eq!(run.phase(), RunPhase::Announcing);

    for completed in 0..=2usize {
        let (state, after) = published(&mut run, false);
        let state = state.unwrap();
        assert_eq!(
            state.engine_state,
            EngineState::Preparing { algorithms_completed: completed, algorithms_total: 2 }
        );
        assert!(state.algorithm_states.is_empty());
        assert_eq!(after, AfterStep::Continue);
        assert_eq!(run.phase(), RunPhase::Preparing);
    }

    let (state, after) = published(&mut run, false);
    let state = state.unwrap();
    assert_eq!(state.engine_state, EngineState::Running);
    assert!(state.algorithm_states.is_empty());
    assert_eq!(after, AfterStep::Continue);
    assert_eq!(run.phase(), RunPhase::Playing);

    let bubble = [vec![3, 1, 2], vec![1, 3, 2], vec![1, 2, 3], vec![1, 2, 3], vec![1, 2, 3], vec![1, 2, 3]];
    let merge = [vec![3, 1, 2], vec![3, 1, 2], vec![3, 1, 2], vec![1, 1, 2], vec![1, 2, 2], vec![1, 2, 3]];
    for tick in 0..6usize {
        let (state, after) = published(&mut run, false);
        let state = state.unwrap();
        assert_eq!(after, AfterStep::Pause);
        assert_eq!(state.algorithm_states.len(), 2);
        assert_eq!(state.algorithm_states[0].algorithm_name, "Bubble Sort");
        assert_eq!(state.algorithm_states[1].algorithm_name, "Merge Sort");
        assert_eq!(state.algorithm_states[0].current_values, bubble[tick]);
        assert_eq!(state.algorithm_states[1].current_values, merge[tick]);
        assert_eq!(state.algorithm_states[0].is_finished, tick >= 2);
        assert_eq!(state.algorithm_states[1].is_finished, tick >= 5);
        assert_eq!(state.algorithm_states[0].stats.total_steps(), 3);
        assert_eq!(state.algorithm_states[1].stats.total_steps(), 6);
        if tick < 5 {
            assert_eq!(state.engine_state, EngineState::Running);
            assert_eq!(run.phase(), RunPhase::Playing);
        } else {
            assert_eq!(state.engine_state, EngineState::Idle);
            assert_eq!(run.phase(), RunPhase::Finished);
        }
    }

    for _ in 0..3 {
        let (state, after) = published(&mut run, false);
        assert!(state.is_none());
        assert_eq!(after, AfterStep::Exit);
        assert_eq!(run.phase(), RunPhase::Finished);
    }
}

#[test]
fn run_without_algorithms_is_idle_at_once() {
    let mut run = EngineRun::new(Vec::new(), vec![2, 1]);
    let (state, after) = published(&mut run, false);
    assert_eq!(
        state.unwrap().engine_state,
        EngineState::Preparing { algorithms_completed: 0, algorithms_total: 0 }
    );
    assert_eq!(after, AfterStep::Continue);
    let (state, after) = published(&mut run, false);
    let state = state.unwrap();
    assert_eq!(state.engine_state, EngineState::Idle);
    assert!(state.algorithm_states.is_empty());
    assert_eq!(after, AfterStep::Exit);
    assert_eq!(run.phase(), RunPhase::Finished);
}

#[test]
fn run_without_values_finishes_with_first_tick() {
    let mut run = EngineRun::new(
        vec![SortingAlgorithmKind::HeapSort, SortingAlgorithmKind::TimSort],
        Vec::new(),
    );
    for _ in 0..4 {
        let (_, after) = published(&mut run, false);
        assert_eq!(after, AfterStep::Continue);
    }
    let (state, after) = published(&mut run, false);
    let state = state.unwrap();
    assert_eq!(after, AfterStep::Pause);
    assert_eq!(state.engine_state, EngineState::Idle);
    assert_eq!(state.algorithm_states.len(), 2);
    for snapshot in state.algorithm_states.iter() {
        assert!(snapshot.is_finished);
        assert!(snapshot.current_values.is_empty());
        assert_eq!(snapshot.stats.total_steps(), 1);
    }
    assert_eq!(run.phase(), RunPhase::Finished);
}

#[test]
fn cancelled_while_preparing() {
    let mut run = EngineRun::new(
        vec![SortingAlgorithmKind::BubbleSort, SortingAlgorithmKind::QuickSort],
        vec![3, 1, 2],
    );
    published(&mut run, false);
    published(&mut run, false);
    let (state, after) = published(&mut run, true);
    let state = state.unwrap();
    assert_eq!(state.engine_state, EngineState::Idle);
    assert!(state.algorithm_states.is_empty());
    assert_eq!(after, AfterStep::Exit);
    assert_eq!(run.phase(), RunPhase::Finished);
    let (state, after) = published(&mut run, true);
    assert!(state.is_none());
    assert_eq!(after, AfterStep::Exit);
}

#[test]
fn cancelled_while_playing() {
    let mut run = EngineRun::new(vec![SortingAlgorithmKind::BubbleSort], vec![3, 1, 2]);
    for _ in 0..3 {
        published(&mut run, false);
    }
    assert_eq!(run.phase(), RunPhase::Playing);
    let (state, _) = published(&mut run, false);
    assert_eq!(state.unwrap().algorithm_states.len(), 1);
    let (state, after) = published(&mut run, true);
    let state = state.unwrap();
    assert_eq!(state.engine_state, EngineState::Idle);
    assert!(state.algorithm_states.is_empty());
    assert_eq!(after, AfterStep::Exit);
    assert_eq!(run.phase(), RunPhase::Finished);
}

#[test]
fn cancelled_from_the_start() {
    let mut run = EngineRun::new(vec![SortingAlgorithmKind::GnomeSort], vec![2, 1]);
    let (state, after) = published(&mut run, true);
    assert_eq!(
        state.unwrap().engine_state,
        EngineState::Preparing { algorithms_completed: 0, algorithms_total: 1 }
    );
    assert_eq!(after, AfterStep::Continue);
    let (state, after) = published(&mut run, true);
    assert_eq!(state.unwrap().engine_state, EngineState::Idle);
    assert_eq!(after, AfterStep::Exit);
}

#[test]
fn started_run_keeps_order_and_duplicates_of_selection() {
    let mut run = EngineRun::start(EngineConfig {
        number_of_values: 20,
        selected_algorithms: vec![
            SortingAlgorithmKind::ShellSort,
            SortingAlgorithmKind::BubbleSort,
            SortingAlgorithmKind::ShellSort,
        ],
        frames_per_second: 60,
    });
    for _ in 0..5 {
        published(&mut run, false);
    }
    let (state, _) = published(&mut run, false);
    let state = state.unwrap();
    let names: Vec<&str> = state.algorithm_states.iter().map(|s| s.algorithm_name.as_str()).collect();
    assert_eq!(names, vec!["Shell Sort", "Bubble Sort", "Shell Sort"]);
    let first = state.algorithm_states[0].current_values.clone();
    assert_eq!(state.algorithm_states[1].current_values, first);
    assert_eq!(state.algorithm_states[2].current_values, first);
    let mut sorted = first.clone();
    sorted.sort();
    assert_eq!(sorted, ordered_base_values(20));

    let mut last = state;
    loop {
        let step = run.advance(false);
        match step.published {
            Some(state) => last = state,
            None => break,
        }
    }
    assert_eq!(last.engine_state, EngineState::Idle);
    for snapshot in last.algorithm_states.iter() {
        assert!(snapshot.is_finished);
        assert_eq!(snapshot.current_values, ordered_base_values(20));
    }
}
