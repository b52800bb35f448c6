use vstd::prelude::*;
use rand::seq::SliceRandom;
use crate::order::same_values;
use crate::sorting_algorithms::{ReplayView, SortingAlgorithmKind, SortingAlgorithmReplay};
use crate::stats::{SortStats, StatsView};

pub mod laws;

verus! {

/// What is published of one algorithm at one tick of the playback.
#[derive(Clone)]
pub struct AlgorithmStateSnapshot {
    pub algorithm_name: String,
    pub current_values: Vec<u32>,
    pub is_finished: bool,
    pub stats: SortStats,
}

/// A snapshot as plain values.
pub struct SnapshotView {
    pub name: Seq<char>,
    pub values: Seq<u32>,
    pub is_finished: bool,
    pub stats: StatsView,
}

impl View for AlgorithmStateSnapshot {
    type V = SnapshotView;

    open spec fn view(&self) -> SnapshotView {
        SnapshotView {
            name: self.algorithm_name@,
            values: self.current_values@,
            is_finished: self.is_finished,
            stats: self.stats@,
        }
    }
}

/// Where the engine stands.
#[derive(Clone, Copy, Debug, PartialEq, Eq, Structural)]
pub enum EngineState {
    /// No run is under way.
    Idle,
    /// Recordings are being made.
    Preparing { algorithms_completed: usize, algorithms_total: usize },
    /// All recordings are made and are being played back.
    Running,
}

impl Default for EngineState {
    fn default() -> (state: Self)
        ensures
            state == EngineState::Idle,
    {
        EngineState::Idle
    }
}

/// All that a run publishes: the snapshots of the current tick, one for
/// each algorithm, and the state of the engine.
#[derive(Clone)]
pub struct EngineSharedState {
    pub algorithm_states: Vec<AlgorithmStateSnapshot>,
    pub engine_state: EngineState,
}

/// The published state as plain values.
pub struct SharedView {
    pub snapshots: Seq<SnapshotView>,
    pub engine_state: EngineState,
}

impl SharedView {
    /// The published state without snapshots.
    pub open spec fn bare(engine_state: EngineState) -> SharedView {
        SharedView { snapshots: Seq::empty(), engine_state }
    }
}

impl View for EngineSharedState {
    type V = SharedView;

    open spec fn view(&self) -> SharedView {
        SharedView {
            snapshots: Seq::new(self.algorithm_states@.len(), |i: int| self.algorithm_states@[i]@),
            engine_state: self.engine_state,
        }
    }
}

impl Default for EngineSharedState {
    fn default() -> (state: Self)
        ensures
            state@ == SharedView::bare(EngineState::Idle),
    {
        let state = EngineSharedState { algorithm_states: Vec::new(), engine_state: EngineState::Idle };
        assert(state@.snapshots =~= Seq::empty());
        state
    }
}

impl EngineSharedState {
    /// A published state without snapshots.
    pub fn without_snapshots(engine_state: EngineState) -> (state: Self)
        ensures
            state@ == SharedView::bare(engine_state),
    {
        let state = EngineSharedState { algorithm_states: Vec::new(), engine_state };
        assert(state@.snapshots =~= Seq::empty());
        state
    }
}

/// What a run is started with.
pub struct EngineConfig {
    pub number_of_values: usize,
    pub selected_algorithms: Vec<SortingAlgorithmKind>,
    pub frames_per_second: u32,
}

/// The values from 0 up to, not including, `count`, in order.
pub open spec fn ordered_values(count: nat) -> Seq<u32> {
    Seq::new(count, |i: int| i as u32)
}

/// The number of base values of a run for which `number_of_values` are
/// asked: that number, reduced to what a value can count.
pub open spec fn base_count(number_of_values: usize) -> nat {
    (number_of_values as nat) % 0x1_0000_0000
}

/// The values from 0 up to, not including, the base count, in order.
pub fn ordered_base_values(number_of_values: usize) -> (values: Vec<u32>)
    ensures
        values@ == ordered_values(base_count(number_of_values)),
{
    let count: u32 = ((number_of_values as u64) % 0x1_0000_0000u64) as u32;
    let mut values: Vec<u32> = Vec::new();
    let mut next: u32 = 0;
    while next < count
        invariant
            next <= count,
            values@ == ordered_values(next as nat),
        decreases count - next,
    {
        values.push(next);
        assert(values@ =~= ordered_values((next + 1) as nat));
        next += 1;
    }
    values
}

/// Shuffles the values with `rand::seq::SliceRandom::shuffle`, drawing from
/// the generator of the thread that `rand::rng` hands out. The shuffle does
/// nothing but exchange values, so afterwards the vector holds the same
/// values, each as often as before; nothing is claimed of their order. The
/// generator takes its seed from the operating system and panics where
/// that fails; nothing is claimed for that event.
#[verifier::external_body]
fn shuffle_values(values: &mut Vec<u32>)
    ensures
        same_values(final(values)@, old(values)@),
{
    let mut random_generator = rand::rng();
    values.shuffle(&mut random_generator);
}

/// The base values of a run: the values from 0 up to, not including, the
/// base count, in an order drawn at random.
pub fn shuffled_base_values(number_of_values: usize) -> (values: Vec<u32>)
    ensures
        same_values(values@, ordered_values(base_count(number_of_values))),
{
    let mut values = ordered_base_values(number_of_values);
    shuffle_values(&mut values);
    values
}

/// The time between two ticks of the playback, in milliseconds, at the
/// given rate; a rate of 0 counts as 1.
pub open spec fn frame_interval(frames_per_second: u32) -> int {
    if frames_per_second == 0 {
        1000
    } else {
        1000int / (frames_per_second as int)
    }
}

/// Computes the time between two ticks, in milliseconds.
pub fn frame_interval_millis(frames_per_second: u32) -> (millis: u64)
    ensures
        millis == frame_interval(frames_per_second),
{
    let rate = if frames_per_second < 1 {
        1
    } else {
        frames_per_second
    };
    (1000 / rate) as u64
}

/// How long to pause after a tick that took `elapsed` so that ticks are
/// `target` apart: what is left of `target`, and nothing where the tick
/// took as long or longer.
pub fn remaining_pause(target: u128, elapsed: u128) -> (pause: u128)
    ensures
        elapsed < target ==> pause == target - elapsed,
        elapsed >= target ==> pause == 0,
{
    if elapsed < target {
        target - elapsed
    } else {
        0
    }
}

/// The stages of a run.
#[derive(Clone, Copy, Debug, PartialEq, Eq, Structural)]
pub enum RunPhase {
    /// Nothing is published yet.
    Announcing,
    /// The recordings are being made, one with each step.
    Preparing,
    /// The recordings are being played back, one tick with each step.
    Playing,
    /// The run is over, completed or cancelled.
    Finished,
}

/// What the caller is to do after a step of a run.
#[derive(Clone, Copy, Debug, PartialEq, Eq, Structural)]
pub enum AfterStep {
    /// Take the next step at once.
    Continue,
    /// Wait for the rest of the frame interval before the next step.
    Pause,
    /// Leave: the run is over.
    Exit,
}

/// The outcome of one step of a run: what to publish, if anything, and
/// what to do next.
pub struct RunStep {
    pub published: Option<EngineSharedState>,
    pub after: AfterStep,
}

/// The outcome of a step as plain values.
pub struct StepView {
    pub published: Option<SharedView>,
    pub after: AfterStep,
}

impl View for RunStep {
    type V = StepView;

    open spec fn view(&self) -> StepView {
        StepView {
            published: match self.published {
                Some(state) => Some(state@),
                None => None,
            },
            after: self.after,
        }
    }
}

/// One run of the engine: the base values, the algorithms selected, the
/// replays made so far, and how far the run has come.
pub struct EngineRun {
    base_values: Vec<u32>,
    algorithms: Vec<SortingAlgorithmKind>,
    replays: Vec<SortingAlgorithmReplay>,
    phase: RunPhase,
    tick: usize,
}

/// A run as plain values.
pub struct RunView {
    pub base: Seq<u32>,
    pub algorithms: Seq<SortingAlgorithmKind>,
    pub replays: Seq<ReplayView>,
    pub phase: RunPhase,
    pub tick: nat,
}

impl RunView {
    /// The number of algorithms selected.
    pub open spec fn total(self) -> nat {
        self.algorithms.len()
    }

    /// The replay at position `i` is one of the algorithm selected at that
    /// position, at work on the base values.
    pub open spec fn replay_fits(self, i: int) -> bool {
        &&& self.replays[i].name == self.algorithms[i].name_text()
        &&& self.replays[i].frames == self.algorithms[i].replay_frames(self.base)
        &&& 0 < self.replays[i].frames.len() <= usize::MAX
        &&& self.replays[i].stats.total_steps == self.replays[i].frames.len()
    }

    /// What holds of every run.
    pub open spec fn valid(self) -> bool {
        &&& self.replays.len() <= self.algorithms.len() <= usize::MAX
        &&& forall|i: int| 0 <= i < self.replays.len() ==> #[trigger] self.replay_fits(i)
        &&& self.phase == RunPhase::Announcing ==> self.replays.len() == 0
        &&& self.phase == RunPhase::Playing ==> self.replays.len() == self.algorithms.len()
            && self.algorithms.len() > 0
        &&& (self.phase == RunPhase::Announcing || self.phase == RunPhase::Preparing)
            ==> self.tick == 0
        &&& self.tick <= usize::MAX
    }

    /// A run that has taken no step yet.
    pub open spec fn fresh(algorithms: Seq<SortingAlgorithmKind>, base: Seq<u32>) -> RunView {
        RunView { base, algorithms, replays: Seq::empty(), phase: RunPhase::Announcing, tick: 0 }
    }

    /// The snapshot of the replay at position `i` at the current tick.
    pub open spec fn snapshot(self, i: int) -> SnapshotView {
        SnapshotView {
            name: self.replays[i].name,
            values: self.replays[i].frame_shown(self.tick as int),
            is_finished: self.replays[i].finished_at(self.tick as int),
            stats: self.replays[i].stats,
        }
    }

    /// The snapshots of all replays at the current tick.
    pub open spec fn snapshots(self) -> Seq<SnapshotView> {
        Seq::new(self.replays.len(), |i: int| self.snapshot(i))
    }

    /// At the current tick every replay shows its last frame.
    pub open spec fn all_finished(self) -> bool {
        forall|i: int| 0 <= i < self.replays.len() ==> (#[trigger] self.replays[i]).finished_at(
            self.tick as int,
        )
    }

    /// The tick that follows the current one; the count stops at the
    /// greatest number that the machine can hold.
    pub open spec fn next_tick(self) -> nat {
        if self.tick < usize::MAX {
            self.tick + 1
        } else {
            self.tick
        }
    }

    /// The run as it is but in another phase.
    pub open spec fn in_phase(self, phase: RunPhase) -> RunView {
        RunView { phase, ..self }
    }

    /// One step takes the run from `self` to `next` with the outcome
    /// `step`, where `stop_requested` tells whether the run is to be
    /// cancelled.
    ///
    /// A fresh run announces that it prepares. A preparing run that is
    /// told to stop publishes the idle state and leaves; otherwise it makes
    /// the next replay and publishes how many are made, and once all are
    /// made it starts to play, or leaves where no algorithm was selected.
    /// A playing run that is told to stop publishes the idle state and
    /// leaves; otherwise it publishes the snapshots of its tick, with the
    /// idle state where all replays have finished, and moves to the next
    /// tick after a pause. A finished run publishes nothing.
    pub open spec fn steps_to(self, stop_requested: bool, next: RunView, step: StepView) -> bool {
        match self.phase {
            RunPhase::Announcing => {
                &&& next == self.in_phase(RunPhase::Preparing)
                &&& step.published == Some(
                    SharedView::bare(
                        EngineState::Preparing {
                            algorithms_completed: 0,
                            algorithms_total: self.total() as usize,
                        },
                    ),
                )
                &&& step.after == AfterStep::Continue
            },
            RunPhase::Preparing => {
                if self.replays.len() < self.total() {
                    if stop_requested {
                        &&& next == self.in_phase(RunPhase::Finished)
                        &&& step.published == Some(SharedView::bare(EngineState::Idle))
                        &&& step.after == AfterStep::Exit
                    } else {
                        &&& next.replays.len() == self.replays.len() + 1
                        &&& next.replays.drop_last() == self.replays
                        &&& next.replay_fits(self.replays.len() as int)
                        &&& next == RunView { replays: next.replays, ..self }
                        &&& step.published == Some(
                            SharedView::bare(
                                EngineState::Preparing {
                                    algorithms_completed: next.replays.len() as usize,
                                    algorithms_total: self.total() as usize,
                                },
                            ),
                        )
                        &&& step.after == AfterStep::Continue
                    }
                } else if self.total() == 0 {
                    &&& next == self.in_phase(RunPhase::Finished)
                    &&& step.published == Some(SharedView::bare(EngineState::Idle))
                    &&& step.after == AfterStep::Exit
                } else {
                    &&& next == self.in_phase(RunPhase::Playing)
                    &&& step.published == Some(SharedView::bare(EngineState::Running))
                    &&& step.after == AfterStep::Continue
                }
            },
            RunPhase::Playing => {
                if stop_requested {
                    &&& next == self.in_phase(RunPhase::Finished)
                    &&& step.published == Some(SharedView::bare(EngineState::Idle))
                    &&& step.after == AfterStep::Exit
                } else {
                    &&& next == RunView {
                        tick: self.next_tick(),
                        phase: if self.all_finished() {
                            RunPhase::Finished
                        } else {
                            RunPhase::Playing
                        },
                        ..self
                    }
                    &&& step.published == Some(
                        SharedView {
                            snapshots: self.snapshots(),
                            engine_state: if self.all_finished() {
                                EngineState::Idle
                            } else {
                                EngineState::Running
                            },
                        },
                    )
                    &&& step.after == AfterStep::Pause
                }
            },
            RunPhase::Finished => {
                &&& next == self
                &&& step.published == None::<SharedView>
                &&& step.after == AfterStep::Exit
            },
        }
    }
}

impl View for EngineRun {
    type V = RunView;

    closed spec fn view(&self) -> RunView {
        RunView {
            base: self.base_values@,
            algorithms: self.algorithms@,
            replays: Seq::new(self.replays@.len(), |i: int| self.replays@[i]@),
            phase: self.phase,
            tick: self.tick as nat,
        }
    }
}

impl EngineRun {
    /// Every run is valid.
    #[verifier::type_invariant]
    spec fn well_formed(self) -> bool {
        self@.valid()
    }

    /// A run of the selected algorithms on the given base values, before
    /// its first step.
    pub fn new(selected_algorithms: Vec<SortingAlgorithmKind>, base_values: Vec<u32>) -> (run: Self)
        ensures
            run@ == RunView::fresh(selected_algorithms@, base_values@),
            run@.valid(),
    {
        let _algorithms_total = selected_algorithms.len();
        let run = EngineRun {
            base_values,
            algorithms: selected_algorithms,
            replays: Vec::new(),
            phase: RunPhase::Announcing,
            tick: 0,
        };
        assert(run@.replays =~= Seq::empty());
        run
    }

    /// A run as the configuration asks for it: of the selected algorithms,
    /// in their order, on base values drawn at random.
    pub fn start(config: EngineConfig) -> (run: Self)
        ensures
            run@.valid(),
            run@ == RunView::fresh(config.selected_algorithms@, run@.base),
            same_values(run@.base, ordered_values(base_count(config.number_of_values))),
    {
        let base_values = shuffled_base_values(config.number_of_values);
        Self::new(config.selected_algorithms, base_values)
    }

    /// The stage that the run is in.
    pub fn phase(&self) -> (phase: RunPhase)
        ensures
            phase == self@.phase,
    {
        self.phase
    }

    /// The snapshots of all replays at the current tick, and whether all
    /// replays show their last frame there.
    fn snapshots_of_tick(&self) -> (shown: (Vec<AlgorithmStateSnapshot>, bool))
        ensures
            Seq::new(shown.0@.len(), |i: int| shown.0@[i]@) == self@.snapshots(),
            shown.1 == self@.all_finished(),
    {
        let total_algorithms = self.replays.len();
        let mut snapshots_for_frame: Vec<AlgorithmStateSnapshot> = Vec::with_capacity(
            total_algorithms,
        );
        let mut all_algorithms_finished = true;
        let mut index: usize = 0;
        while index < total_algorithms
            invariant
                total_algorithms == self.replays@.len(),
                index <= total_algorithms,
                snapshots_for_frame@.len() == index,
                forall|i: int| 0 <= i < index ==> (#[trigger] snapshots_for_frame@[i])@ == self@.snapshot(i),
                all_algorithms_finished == (forall|i: int|
                    0 <= i < index ==> (#[trigger] self@.replays[i]).finished_at(self@.tick as int)),
            decreases total_algorithms - index,
        {
            let algorithm_replay = &self.replays[index];
            let (frame_values, is_finished_for_algorithm) = algorithm_replay.frame_at(self.tick);
            let stats_snapshot = algorithm_replay.stats_snapshot();
            if !is_finished_for_algorithm {
                all_algorithms_finished = false;
            }
            assert(self@.replays[index as int] == algorithm_replay@);
            snapshots_for_frame.push(
                AlgorithmStateSnapshot {
                    algorithm_name: algorithm_replay.name().to_owned(),
                    current_values: frame_values,
                    is_finished: is_finished_for_algorithm,
                    stats: stats_snapshot,
                },
            );
            index += 1;
        }
        assert(Seq::new(snapshots_for_frame@.len(), |i: int| snapshots_for_frame@[i]@)
            =~= self@.snapshots());
        (snapshots_for_frame, all_algorithms_finished)
    }

    /// A valid run stays valid in another phase and at another tick, as long
    /// as it has no replays while it announces and all of them while it
    /// plays, and stands at tick 0 while it announces or prepares.
    proof fn lemma_valid_moved(run: RunView, phase: RunPhase, tick: nat)
        requires
            run.valid(),
            phase == RunPhase::Announcing ==> run.replays.len() == 0,
            phase == RunPhase::Playing ==> run.replays.len() == run.algorithms.len()
                && run.algorithms.len() > 0,
            phase == RunPhase::Announcing || phase == RunPhase::Preparing ==> tick == 0,
            tick <= usize::MAX,
        ensures
            (RunView { phase, tick, ..run }).valid(),
    {
        let moved = RunView { phase, tick, ..run };
        assert forall|i: int| 0 <= i < moved.replays.len() implies #[trigger] moved.replay_fits(
            i,
        ) by {
            assert(run.replay_fits(i));
        }
    }

    /// The first step: announces that the run prepares.
    fn announce(&mut self) -> (step: RunStep)
        requires
            old(self)@.phase == RunPhase::Announcing,
        ensures
            old(self)@.valid(),
            final(self)@.valid(),
            old(self)@.steps_to(false, final(self)@, step@),
            old(self)@.steps_to(true, final(self)@, step@),
    {
        proof {
            use_type_invariant(&*self);
        }
        let algorithms_total = self.algorithms.len();
        proof {
            Self::lemma_valid_moved(self@, RunPhase::Preparing, 0);
        }
        self.phase = RunPhase::Preparing;
        proof {
            use_type_invariant(&*self);
        }
        let published = EngineSharedState::without_snapshots(
            EngineState::Preparing { algorithms_completed: 0, algorithms_total },
        );
        RunStep { published: Some(published), after: AfterStep::Continue }
    }

    /// Ends the run: publishes the idle state without snapshots.
    fn leave(&mut self) -> (step: RunStep)
        ensures
            old(self)@.valid(),
            final(self)@.valid(),
            final(self)@ == old(self)@.in_phase(RunPhase::Finished),
            step@.published == Some(SharedView::bare(EngineState::Idle)),
            step@.after == AfterStep::Exit,
    {
        proof {
            use_type_invariant(&*self);
            Self::lemma_valid_moved(self@, RunPhase::Finished, self@.tick);
        }
        self.phase = RunPhase::Finished;
        proof {
            use_type_invariant(&*self);
        }
        let published = EngineSharedState::without_snapshots(EngineState::Idle);
        RunStep { published: Some(published), after: AfterStep::Exit }
    }

    /// Makes the replay of the next algorithm and publishes how many are
    /// made.
    fn add_replay(&mut self) -> (step: RunStep)
        requires
            old(self)@.phase == RunPhase::Preparing,
            old(self)@.replays.len() < old(self)@.total(),
        ensures
            old(self)@.valid(),
            final(self)@.valid(),
            final(self)@.replays.len() == old(self)@.replays.len() + 1,
            final(self)@.replays.drop_last() == old(self)@.replays,
            final(self)@.replay_fits(old(self)@.replays.len() as int),
            final(self)@ == (RunView { replays: final(self)@.replays, ..old(self)@ }),
            step@.published == Some(
                SharedView::bare(
                    EngineState::Preparing {
                        algorithms_completed: final(self)@.replays.len() as usize,
                        algorithms_total: old(self)@.total() as usize,
                    },
                ),
            ),
            step@.after == AfterStep::Continue,
    {
        proof {
            use_type_invariant(&*self);
        }
        let algorithms_total = self.algorithms.len();
        let index = self.replays.len();
        let replay = SortingAlgorithmReplay::new(self.algorithms[index], self.base_values.as_slice());
        let ghost made = replay@;
        let mut replays: Vec<SortingAlgorithmReplay> = Vec::new();
        proof {
            let emptied = RunView { replays: Seq::empty(), ..old(self)@ };
            assert(emptied.valid());
            assert(Seq::new(replays@.len(), |i: int| replays@[i]@) =~= Seq::<ReplayView>::empty());
        }
        core::mem::swap(&mut self.replays, &mut replays);
        replays.push(replay);
        let ghost pre = old(self)@;
        let ghost post = RunView {
            replays: Seq::new(replays@.len(), |i: int| replays@[i]@),
            ..pre
        };
        proof {
            assert(post.replays[index as int] == made);
            assert(post.replays.drop_last() =~= pre.replays);
            assert forall|i: int| 0 <= i < post.replays.len() implies #[trigger] post.replay_fits(
                i,
            ) by {
                if i < index {
                    assert(pre.replay_fits(i));
                    assert(post.replays[i] == pre.replays[i]);
                }
            }
        }
        self.replays = replays;
        assert(self@ == post);
        let published = EngineSharedState::without_snapshots(
            EngineState::Preparing { algorithms_completed: index + 1, algorithms_total },
        );
        RunStep { published: Some(published), after: AfterStep::Continue }
    }

    /// Starts the playback.
    fn begin_playback(&mut self) -> (step: RunStep)
        requires
            old(self)@.phase == RunPhase::Preparing,
            old(self)@.replays.len() == old(self)@.total(),
            old(self)@.total() > 0,
        ensures
            old(self)@.valid(),
            final(self)@.valid(),
            final(self)@ == old(self)@.in_phase(RunPhase::Playing),
            step@.published == Some(SharedView::bare(EngineState::Running)),
            step@.after == AfterStep::Continue,
    {
        proof {
            use_type_invariant(&*self);
            Self::lemma_valid_moved(self@, RunPhase::Playing, 0);
        }
        self.phase = RunPhase::Playing;
        proof {
            use_type_invariant(&*self);
        }
        let published = EngineSharedState::without_snapshots(EngineState::Running);
        RunStep { published: Some(published), after: AfterStep::Continue }
    }

    /// A step of the preparation: makes the next replay, or starts the
    /// playback once all are made.
    fn prepare(&mut self, stop_requested: bool) -> (step: RunStep)
        requires
            old(self)@.phase == RunPhase::Preparing,
        ensures
            old(self)@.valid(),
            final(self)@.valid(),
            old(self)@.steps_to(stop_requested, final(self)@, step@),
    {
        proof {
            use_type_invariant(&*self);
        }
        let algorithms_total = self.algorithms.len();
        let index = self.replays.len();
        if index < algorithms_total {
            if stop_requested {
                self.leave()
            } else {
                self.add_replay()
            }
        } else if algorithms_total == 0 {
            self.leave()
        } else {
            self.begin_playback()
        }
    }

    /// A step of the playback: publishes the snapshots of the tick.
    fn play(&mut self, stop_requested: bool) -> (step: RunStep)
        requires
            old(self)@.phase == RunPhase::Playing,
        ensures
            old(self)@.valid(),
            final(self)@.valid(),
            old(self)@.steps_to(stop_requested, final(self)@, step@),
    {
        proof {
            use_type_invariant(&*self);
        }
        if stop_requested {
            self.leave()
        } else {
            let (snapshots_for_frame, all_algorithms_finished) = self.snapshots_of_tick();
            let published = EngineSharedState {
                algorithm_states: snapshots_for_frame,
                engine_state: if all_algorithms_finished {
                    EngineState::Idle
                } else {
                    EngineState::Running
                },
            };
            assert(published@.snapshots == old(self)@.snapshots());
            proof {
                Self::lemma_valid_moved(self@, RunPhase::Playing, self@.next_tick());
                Self::lemma_valid_moved(self@, RunPhase::Finished, self@.next_tick());
            }
            if self.tick < usize::MAX {
                self.tick = self.tick + 1;
            }
            if all_algorithms_finished {
                self.phase = RunPhase::Finished;
            }
            proof {
                use_type_invariant(&*self);
            }
            RunStep { published: Some(published), after: AfterStep::Pause }
        }
    }

    /// Takes one step of the run.
    pub fn advance(&mut self, stop_requested: bool) -> (step: RunStep)
        ensures
            old(self)@.valid(),
            final(self)@.valid(),
            old(self)@.steps_to(stop_requested, final(self)@, step@),
    {
        proof {
            use_type_invariant(&*self);
        }
        match self.phase {
            RunPhase::Announcing => self.announce(),
            RunPhase::Preparing => self.prepare(stop_requested),
            RunPhase::Playing => self.play(stop_requested),
            RunPhase::Finished => RunStep { published: None, after: AfterStep::Exit },
        }
    }
}

} // verus!
