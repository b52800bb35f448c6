use vstd::prelude::*;
use crate::engine::{AfterStep, EngineState, RunPhase, RunView, SharedView, StepView};
use crate::order::{lemma_sorted_unique, same_values, sorted};
use crate::sorting_algorithms::ReplayView;

verus! {

/// The number of frames of the longest of the replays; 0 where there is
/// none.
pub open spec fn longest(replays: Seq<ReplayView>) -> nat
    decreases replays.len(),
{
    if replays.len() == 0 {
        0
    } else if replays.last().frames.len() > longest(replays.drop_last()) {
        replays.last().frames.len()
    } else {
        longest(replays.drop_last())
    }
}

/// All replays show their last frame at `tick`.
pub open spec fn all_finished_at(replays: Seq<ReplayView>, tick: int) -> bool {
    forall|i: int| 0 <= i < replays.len() ==> (#[trigger] replays[i]).finished_at(tick)
}

/// All replays have finished from the tick one less than the length of the
/// longest on, and not before.
pub proof fn law_all_finished(replays: Seq<ReplayView>, tick: int)
    requires
        replays.len() > 0,
        forall|i: int| 0 <= i < replays.len() ==> (#[trigger] replays[i]).frames.len() > 0,
    ensures
        all_finished_at(replays, tick) <==> tick >= longest(replays) - 1,
        longest(replays) > 0,
    decreases replays.len(),
{
    let front = replays.drop_last();
    if front.len() == 0 {
        assert(replays[replays.len() - 1] == replays.last());
        if tick >= longest(replays) - 1 {
            assert(all_finished_at(replays, tick));
        }
    } else {
        assert forall|i: int| 0 <= i < front.len() implies (#[trigger] front[i]).frames.len() > 0 by {
            assert(front[i] == replays[i]);
        }
        law_all_finished(front, tick);
        if all_finished_at(replays, tick) {
            assert(replays[replays.len() - 1].finished_at(tick));
            assert forall|i: int| 0 <= i < front.len() implies (#[trigger] front[i]).finished_at(
                tick,
            ) by {
                assert(front[i] == replays[i]);
            }
        }
        if tick >= longest(replays) - 1 {
            assert forall|i: int| 0 <= i < replays.len() implies (#[trigger] replays[i]).finished_at(
                tick,
            ) by {
                if i < front.len() {
                    assert(front[i] == replays[i]);
                    assert(front[i].finished_at(tick));
                }
            }
        }
    }
}

/// At tick 0 every replay of a run shows the base values.
pub proof fn law_first_snapshots(run: RunView, i: int)
    requires
        run.valid(),
        run.tick == 0,
        0 <= i < run.replays.len(),
    ensures
        run.snapshot(i).values == run.base,
{
    assert(run.replay_fits(i));
    run.algorithms[i].law_replay_frames(run.base);
}

/// At a tick at which all replays of a run have finished, every replay
/// shows the base values in non-decreasing order, and so all show the same
/// arrangement.
pub proof fn law_last_snapshots(run: RunView, i: int, j: int)
    requires
        run.valid(),
        run.all_finished(),
        0 <= i < run.replays.len(),
        0 <= j < run.replays.len(),
    ensures
        sorted(run.snapshot(i).values),
        same_values(run.snapshot(i).values, run.base),
        run.snapshot(i).is_finished,
        run.snapshot(i).values == run.snapshot(j).values,
{
    assert(run.replay_fits(i));
    assert(run.replay_fits(j));
    assert(run.replays[i].finished_at(run.tick as int));
    assert(run.replays[j].finished_at(run.tick as int));
    run.algorithms[i].law_replay_frames(run.base);
    run.algorithms[j].law_replay_frames(run.base);
    lemma_sorted_unique(run.replays[i].frames.last(), run.replays[j].frames.last());
}

/// A step keeps a run valid, and where it publishes that the run prepares,
/// the number of replays made is the number after the step, which is not
/// less than the number before it and not greater than the number of
/// algorithms selected.
pub proof fn law_progress(run: RunView, stop_requested: bool, next: RunView, step: StepView)
    requires
        run.valid(),
        run.steps_to(stop_requested, next, step),
    ensures
        next.valid(),
        next.algorithms == run.algorithms,
        next.base == run.base,
        run.replays.len() <= next.replays.len(),
        forall|completed: usize, total: usize|
            step.published == Some(
                SharedView::bare(
                    (EngineState::Preparing {
                        algorithms_completed: completed,
                        algorithms_total: total,
                    }),
                ),
            ) ==> total == run.total() && completed == next.replays.len() && completed <= total,
{
    assert forall|i: int| 0 <= i < next.replays.len() implies #[trigger] next.replay_fits(i) by {
        if i < run.replays.len() {
            assert(run.replay_fits(i));
            if next.replays.len() > run.replays.len() {
                assert(next.replays.drop_last()[i] == next.replays[i]);
            }
        }
    }
}

/// A run that is told to stop while it makes replays or plays them back
/// publishes the idle state without snapshots, is finished and leaves.
pub proof fn law_cancel(run: RunView, next: RunView, step: StepView)
    requires
        run.valid(),
        run.steps_to(true, next, step),
        run.phase == RunPhase::Playing || (run.phase == RunPhase::Preparing && run.replays.len()
            < run.total()),
    ensures
        step.published == Some(SharedView::bare(EngineState::Idle)),
        step.after == AfterStep::Exit,
        next.phase == RunPhase::Finished,
{
}

/// A finished run stays as it is, publishes nothing and leaves.
pub proof fn law_finished(run: RunView, stop_requested: bool, next: RunView, step: StepView)
    requires
        run.phase == RunPhase::Finished,
        run.steps_to(stop_requested, next, step),
    ensures
        next == run,
        step.published == None::<SharedView>,
        step.after == AfterStep::Exit,
{
}

/// `states`, `stops` and `steps` tell of steps taken one after the other:
/// each step leads from one state to the next.
pub open spec fn is_trace(states: Seq<RunView>, stops: Seq<bool>, steps: Seq<StepView>) -> bool {
    &&& states.len() == steps.len() + 1
    &&& stops.len() == steps.len()
    &&& forall|k: int|
        0 <= k < steps.len() ==> (#[trigger] states[k]).steps_to(stops[k], states[k + 1], steps[k])
}

/// With every step told to stop, a run that is not finished publishes the
/// idle state without snapshots with its first or its second step and
/// leaves; afterwards it is finished and publishes nothing.
pub proof fn law_cancel_soon(states: Seq<RunView>, stops: Seq<bool>, steps: Seq<StepView>)
    requires
        is_trace(states, stops, steps),
        steps.len() >= 2,
        states[0].valid(),
        states[0].phase != RunPhase::Finished,
        forall|k: int| 0 <= k < stops.len() ==> stops[k],
    ensures
        exists|k: int|
            0 <= k < 2 && (#[trigger] steps[k]).published == Some(
                SharedView::bare(EngineState::Idle),
            ) && steps[k].after == AfterStep::Exit,
        forall|k: int| 2 <= k < steps.len() ==> (#[trigger] steps[k]).published == None::<SharedView>,
        forall|k: int| 2 <= k < states.len() ==> (#[trigger] states[k]).phase == RunPhase::Finished,
{
    assert(states[0].steps_to(stops[0], states[1], steps[0]));
    assert(states[1].steps_to(stops[1], states[2], steps[1]));
    law_progress(states[0], stops[0], states[1], steps[0]);
    let first_leaves = steps[0].published == Some(SharedView::bare(EngineState::Idle)) && steps[0].after
        == AfterStep::Exit;
    if !first_leaves {
        assert(steps[1].published == Some(SharedView::bare(EngineState::Idle)) && steps[1].after
            == AfterStep::Exit);
    }
    assert(states[2].phase == RunPhase::Finished);
    assert forall|k: int| 2 <= k < states.len() implies (#[trigger] states[k]).phase
        == RunPhase::Finished by {
        lemma_stays_finished(states, stops, steps, 2, k);
    }
    assert forall|k: int| 2 <= k < steps.len() implies (#[trigger] steps[k]).published
        == None::<SharedView> by {
        lemma_stays_finished(states, stops, steps, 2, k);
    }
}

/// From a finished state on, the states stay the same and the steps publish
/// nothing.
proof fn lemma_stays_finished(
    states: Seq<RunView>,
    stops: Seq<bool>,
    steps: Seq<StepView>,
    from: int,
    k: int,
)
    requires
        is_trace(states, stops, steps),
        0 <= from <= k < states.len(),
        states[from].phase == RunPhase::Finished,
    ensures
        states[k] == states[from],
        k < steps.len() ==> steps[k].published == None::<SharedView> && steps[k].after
            == AfterStep::Exit,
    decreases k - from,
{
    if k > from {
        lemma_stays_finished(states, stops, steps, from, k - 1);
        assert(states[k - 1].steps_to(stops[k - 1], states[k - 1 + 1], steps[k - 1]));
    }
    if k < steps.len() {
        assert(states[k].steps_to(stops[k], states[k + 1], steps[k]));
    }
}

/// No replay is longer than the longest.
proof fn lemma_longest_within(replays: Seq<ReplayView>, bound: nat)
    requires
        forall|i: int| 0 <= i < replays.len() ==> (#[trigger] replays[i]).frames.len() <= bound,
    ensures
        longest(replays) <= bound,
    decreases replays.len(),
{
    if replays.len() > 0 {
        let front = replays.drop_last();
        assert forall|i: int| 0 <= i < front.len() implies (#[trigger] front[i]).frames.len()
            <= bound by {
            assert(front[i] == replays[i]);
        }
        lemma_longest_within(front, bound);
        assert(replays[replays.len() - 1] == replays.last());
    }
}

/// `states`, `stops` and `steps` tell of a run of at least one algorithm
/// from its first step on, with no step told to stop.
pub open spec fn is_uninterrupted_run(
    states: Seq<RunView>,
    stops: Seq<bool>,
    steps: Seq<StepView>,
) -> bool {
    &&& is_trace(states, stops, steps)
    &&& states[0] == RunView::fresh(states[0].algorithms, states[0].base)
    &&& 1 <= states[0].total() <= usize::MAX
    &&& forall|k: int| 0 <= k < stops.len() ==> !stops[k]
}

/// Where an uninterrupted run stands after `k` steps: it has announced
/// itself after the first, has made one replay with each of the next
/// steps, plays from the step after those on, one tick with each step, and
/// is finished after the tick at which all replays have finished.
pub open spec fn stands_at(states: Seq<RunView>, k: int) -> bool {
    let total = states[0].total() as int;
    let run = states[k];
    &&& run.valid()
    &&& run.algorithms == states[0].algorithms
    &&& run.base == states[0].base
    &&& k == 0 ==> run.phase == RunPhase::Announcing
    &&& 1 <= k <= total + 1 ==> run.phase == RunPhase::Preparing && run.replays.len() == k - 1
    &&& k >= total + 2 ==> {
        let tick = k - total - 2;
        let last = longest(states[total + 1].replays) - 1;
        &&& run.replays == states[total + 1].replays
        &&& 0 <= last < usize::MAX
        &&& tick <= last ==> run.phase == RunPhase::Playing && run.tick == tick
        &&& tick > last ==> run.phase == RunPhase::Finished
    }
}

/// What a step that is not told to stop does to a run that is not finished.
proof fn lemma_step_on(run: RunView, next: RunView, step: StepView)
    requires
        run.valid(),
        run.steps_to(false, next, step),
    ensures
        next.valid(),
        next.algorithms == run.algorithms,
        next.base == run.base,
        run.phase == RunPhase::Announcing ==> next.phase == RunPhase::Preparing
            && next.replays.len() == 0,
        run.phase == RunPhase::Preparing && run.replays.len() < run.total() ==> next.phase
            == RunPhase::Preparing && next.replays.len() == run.replays.len() + 1,
        run.phase == RunPhase::Preparing && run.replays.len() == run.total() && run.total() > 0
            ==> next.phase == RunPhase::Playing && next.replays == run.replays && next.tick == 0,
        run.phase == RunPhase::Playing ==> next.replays == run.replays && next.tick
            == run.next_tick() && next.phase == (if run.all_finished() {
            RunPhase::Finished
        } else {
            RunPhase::Playing
        }),
        run.phase == RunPhase::Finished ==> next == run,
{
    law_progress(run, false, next, step);
}

/// The replays of a valid run have frames, no more than the machine can
/// count, so that the longest has a last position below that bound.
proof fn lemma_longest_of_valid(run: RunView)
    requires
        run.valid(),
        run.replays.len() > 0,
    ensures
        0 <= longest(run.replays) - 1 < usize::MAX,
        forall|tick: int| all_finished_at(run.replays, tick) <==> tick >= longest(run.replays) - 1,
{
    let made = run.replays;
    assert forall|i: int| 0 <= i < made.len() implies 0 < (#[trigger] made[i]).frames.len()
        <= usize::MAX by {
        assert(run.replay_fits(i));
    }
    lemma_longest_within(made, usize::MAX as nat);
    law_all_finished(made, 0);
    assert forall|tick: int| all_finished_at(made, tick) <==> tick >= longest(made) - 1 by {
        law_all_finished(made, tick);
    }
}

/// An uninterrupted run stands after `k` steps as `stands_at` tells.
#[verifier::rlimit(40)]
proof fn lemma_stands_at(states: Seq<RunView>, stops: Seq<bool>, steps: Seq<StepView>, k: int)
    requires
        is_uninterrupted_run(states, stops, steps),
        0 <= k < states.len(),
    ensures
        stands_at(states, k),
    decreases k,
{
    let total = states[0].total() as int;
    if k == 0 {
        assert(states[0].replays.len() == 0);
        assert(states[0].valid());
    } else {
        lemma_stands_at(states, stops, steps, k - 1);
        let run = states[k - 1];
        let next = states[k];
        assert(run.steps_to(stops[k - 1], states[k - 1 + 1], steps[k - 1]));
        lemma_step_on(run, next, steps[k - 1]);
        if k - 1 == total + 1 {
            lemma_longest_of_valid(run);
        } else if k - 1 >= total + 2 {
            lemma_stands_at(states, stops, steps, total + 1);
            let made = states[total + 1];
            lemma_longest_of_valid(made);
            assert(run.replays == made.replays);
            assert(run.all_finished() == all_finished_at(made.replays, run.tick as int));
        }
    }
}

/// An uninterrupted run of `total` algorithms publishes with its first
/// `total + 1` steps, without snapshots, that it prepares and has made 0,
/// 1, and so on up to `total` replays, with the next step that it runs,
/// and with each step after that the snapshots of one tick, starting with
/// tick 0: with the running state while a replay has not finished, and
/// with the idle state at the first tick at which all have finished. After
/// that it is finished and publishes nothing.
#[verifier::rlimit(40)]
pub proof fn law_uninterrupted_run(
    states: Seq<RunView>,
    stops: Seq<bool>,
    steps: Seq<StepView>,
    k: int,
)
    requires
        is_uninterrupted_run(states, stops, steps),
        0 <= k < steps.len(),
    ensures
        ({
            let total = states[0].total() as int;
            let step = steps[k];
            &&& k <= total ==> step.published == Some(
                SharedView::bare(
                    (EngineState::Preparing {
                        algorithms_completed: k as usize,
                        algorithms_total: total as usize,
                    }),
                ),
            ) && step.after == AfterStep::Continue
            &&& k == total + 1 ==> step.published == Some(SharedView::bare(EngineState::Running))
                && step.after == AfterStep::Continue
            &&& k >= total + 2 ==> {
                let tick = k - total - 2;
                let last = longest(states[total + 1].replays) - 1;
                &&& tick < last ==> step.published == Some(
                    (SharedView {
                        snapshots: states[k].snapshots(),
                        engine_state: EngineState::Running,
                    }),
                ) && step.after == AfterStep::Pause && states[k].tick == tick
                &&& tick == last ==> step.published == Some(
                    (SharedView {
                        snapshots: states[k].snapshots(),
                        engine_state: EngineState::Idle,
                    }),
                ) && step.after == AfterStep::Pause && states[k].tick == tick && states[k
                    + 1].phase == RunPhase::Finished
                &&& tick > last ==> step.published == None::<SharedView> && step.after
                    == AfterStep::Exit
            }
        }),
{
    let total = states[0].total() as int;
    lemma_stands_at(states, stops, steps, k);
    lemma_stands_at(states, stops, steps, k + 1);
    assert(states[k].steps_to(stops[k], states[k + 1], steps[k]));
    if k >= total + 2 {
        lemma_stands_at(states, stops, steps, total + 1);
        let made = states[total + 1];
        lemma_longest_of_valid(made);
        assert(states[k].replays == made.replays);
        assert(states[k].all_finished() == all_finished_at(made.replays, states[k].tick as int));
    }
}

} // verus!
