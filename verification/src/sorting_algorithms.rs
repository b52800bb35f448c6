use vstd::prelude::*;
use std::time::Instant;
use crate::order::{same_values, sorted, strictly_increasing};
use crate::recording::{all_of_len, appended, records_sort, Step};
use crate::stats::{SortStats, StatsView};

pub mod bubble_sort;
pub mod cocktail_sort;
pub mod comb_sort;
pub mod gnome_sort;
pub mod heap_sort;
pub mod insertion_sort;
pub mod intro_sort;
pub mod merge_sort;
pub mod quick_sort;
pub mod selection_sort;
pub mod shell_sort;
pub mod tim_sort;

use crate::sorting_algorithms::bubble_sort::{
    bubble_recording, bubble_sort_with_recording, law_bubble_recording,
};
use crate::sorting_algorithms::cocktail_sort::{
    cocktail_recording, cocktail_sort_with_recording, law_cocktail_recording,
};
use crate::sorting_algorithms::comb_sort::{
    comb_recording, comb_sort_with_recording, law_comb_recording,
};
use crate::sorting_algorithms::gnome_sort::{
    gnome_recording, gnome_sort_with_recording, law_gnome_recording,
};
use crate::sorting_algorithms::heap_sort::{
    heap_recording, heap_sort_with_recording, law_heap_recording,
};
use crate::sorting_algorithms::insertion_sort::{
    insertion_recording, insertion_sort_with_recording, law_insertion_recording,
};
use crate::sorting_algorithms::intro_sort::{
    intro_recording, intro_sort_with_recording, law_intro_recording,
};
use crate::sorting_algorithms::merge_sort::{
    merge_recording, merge_sort_with_recording, law_merge_recording,
};
use crate::sorting_algorithms::quick_sort::{
    quick_recording, quick_sort_with_recording, law_quick_recording,
};
use crate::sorting_algorithms::selection_sort::{
    selection_recording, selection_sort_with_recording, law_selection_recording,
};
use crate::sorting_algorithms::shell_sort::{
    shell_recording, shell_sort_with_recording, law_shell_recording,
};
use crate::sorting_algorithms::tim_sort::{
    law_tim_recording, tim_recording, tim_sort_with_recording, MINIMUM_RUN_LENGTH,
};

verus! {

/// The algorithms that can be recorded.
#[derive(Clone, Copy, Debug)]
pub enum SortingAlgorithmKind {
    BubbleSort,
    QuickSort,
    InsertionSort,
    SelectionSort,
    MergeSort,
    HeapSort,
    ShellSort,
    IntroSort,
    TimSort,
    CocktailSort,
    CombSort,
    GnomeSort,
}

impl SortingAlgorithmKind {
    /// The name under which the algorithm is shown.
    pub open spec fn name_text(self) -> Seq<char> {
        match self {
            SortingAlgorithmKind::BubbleSort => "Bubble Sort"@,
            SortingAlgorithmKind::QuickSort => "Quick Sort"@,
            SortingAlgorithmKind::InsertionSort => "Insertion Sort"@,
            SortingAlgorithmKind::SelectionSort => "Selection Sort"@,
            SortingAlgorithmKind::MergeSort => "Merge Sort"@,
            SortingAlgorithmKind::HeapSort => "Heap Sort"@,
            SortingAlgorithmKind::ShellSort => "Shell Sort"@,
            SortingAlgorithmKind::IntroSort => "Intro Sort"@,
            SortingAlgorithmKind::TimSort => "Tim Sort"@,
            SortingAlgorithmKind::CocktailSort => "Cocktail Shaker Sort"@,
            SortingAlgorithmKind::CombSort => "Comb Sort"@,
            SortingAlgorithmKind::GnomeSort => "Gnome Sort"@,
        }
    }

    /// The frames that the algorithm records of `input`.
    pub open spec fn recording(self, input: Seq<u32>) -> Seq<Seq<u32>> {
        match self {
            SortingAlgorithmKind::BubbleSort => bubble_recording(input),
            SortingAlgorithmKind::QuickSort => quick_recording(input),
            SortingAlgorithmKind::InsertionSort => insertion_recording(input),
            SortingAlgorithmKind::SelectionSort => selection_recording(input),
            SortingAlgorithmKind::MergeSort => merge_recording(input),
            SortingAlgorithmKind::HeapSort => heap_recording(input),
            SortingAlgorithmKind::ShellSort => shell_recording(input),
            SortingAlgorithmKind::IntroSort => intro_recording(input),
            SortingAlgorithmKind::TimSort => tim_recording(input),
            SortingAlgorithmKind::CocktailSort => cocktail_recording(input),
            SortingAlgorithmKind::CombSort => comb_recording(input),
            SortingAlgorithmKind::GnomeSort => gnome_recording(input),
        }
    }

    /// The frames of a replay of the algorithm on `input`: those that it
    /// records, or the one frame `input` where it records none.
    pub open spec fn replay_frames(self, input: Seq<u32>) -> Seq<Seq<u32>> {
        if self.recording(input).len() == 0 {
            seq![input]
        } else {
            self.recording(input)
        }
    }

    /// How a frame of this algorithm's recordings differs from the frame
    /// before it.
    pub open spec fn step(self) -> Step {
        match self {
            SortingAlgorithmKind::BubbleSort => Step::NeighbourSwap,
            SortingAlgorithmKind::QuickSort => Step::DescentSwap,
            SortingAlgorithmKind::InsertionSort => Step::DoubleWrite,
            SortingAlgorithmKind::SelectionSort => Step::InversionSwap,
            SortingAlgorithmKind::MergeSort => Step::Write,
            SortingAlgorithmKind::HeapSort => Step::Swap,
            SortingAlgorithmKind::ShellSort => Step::InversionSwap,
            SortingAlgorithmKind::IntroSort => Step::Swap,
            SortingAlgorithmKind::TimSort => Step::DoubleWrite,
            SortingAlgorithmKind::CocktailSort => Step::NeighbourSwap,
            SortingAlgorithmKind::CombSort => Step::InversionSwap,
            SortingAlgorithmKind::GnomeSort => Step::NeighbourSwap,
        }
    }

    /// The algorithm changes nothing on `input`, so that its recording is
    /// the one frame `input`.
    pub open spec fn rests_on(self, input: Seq<u32>) -> bool {
        input.len() > 0 && match self {
            SortingAlgorithmKind::BubbleSort => sorted(input),
            SortingAlgorithmKind::QuickSort => strictly_increasing(input),
            SortingAlgorithmKind::InsertionSort => sorted(input),
            SortingAlgorithmKind::SelectionSort => sorted(input),
            SortingAlgorithmKind::MergeSort => input.len() == 1,
            SortingAlgorithmKind::HeapSort => input.len() == 1,
            SortingAlgorithmKind::ShellSort => sorted(input),
            SortingAlgorithmKind::IntroSort => input.len() == 1,
            SortingAlgorithmKind::TimSort => sorted(input) && input.len() <= MINIMUM_RUN_LENGTH,
            SortingAlgorithmKind::CocktailSort => sorted(input),
            SortingAlgorithmKind::CombSort => sorted(input),
            SortingAlgorithmKind::GnomeSort => sorted(input),
        }
    }

    /// What an algorithm records of an input that is not empty starts with
    /// the input, goes on by steps of the algorithm's kind and ends with the
    /// values of the input in non-decreasing order; every frame has the
    /// length of the input and, where the steps only move values around,
    /// holds its values; and where the algorithm rests on the input, the
    /// recording is that one frame.
    pub proof fn law_recording_sorts(self, input: Seq<u32>)
        requires
            input.len() > 0,
        ensures
            records_sort(input, self.recording(input), self.step()),
            self.rests_on(input) ==> self.recording(input) == seq![input],
    {
        match self {
            SortingAlgorithmKind::BubbleSort => law_bubble_recording(input),
            SortingAlgorithmKind::QuickSort => law_quick_recording(input),
            SortingAlgorithmKind::InsertionSort => law_insertion_recording(input),
            SortingAlgorithmKind::SelectionSort => law_selection_recording(input),
            SortingAlgorithmKind::MergeSort => law_merge_recording(input),
            SortingAlgorithmKind::HeapSort => law_heap_recording(input),
            SortingAlgorithmKind::ShellSort => law_shell_recording(input),
            SortingAlgorithmKind::IntroSort => law_intro_recording(input),
            SortingAlgorithmKind::TimSort => law_tim_recording(input),
            SortingAlgorithmKind::CocktailSort => law_cocktail_recording(input),
            SortingAlgorithmKind::CombSort => law_comb_recording(input),
            SortingAlgorithmKind::GnomeSort => law_gnome_recording(input),
        }
    }

    /// The frames of a replay are never none: they start with the input
    /// and end with its values in non-decreasing order, and all hold as
    /// many values as the input.
    pub proof fn law_replay_frames(self, input: Seq<u32>)
        ensures
            self.replay_frames(input).len() > 0,
            self.replay_frames(input)[0] == input,
            sorted(self.replay_frames(input).last()),
            same_values(self.replay_frames(input).last(), input),
            all_of_len(self.replay_frames(input), input.len()),
            input.len() == 0 ==> self.replay_frames(input) == seq![input],
    {
        if input.len() > 0 {
            self.law_recording_sorts(input);
        } else {
            assert(self.recording(input).len() == 0);
        }
    }

    /// The name under which the algorithm is shown.
    pub fn display_name(&self) -> (name: &'static str)
        ensures
            name@ == self.name_text(),
    {
        match self {
            SortingAlgorithmKind::BubbleSort => "Bubble Sort",
            SortingAlgorithmKind::QuickSort => "Quick Sort",
            SortingAlgorithmKind::InsertionSort => "Insertion Sort",
            SortingAlgorithmKind::SelectionSort => "Selection Sort",
            SortingAlgorithmKind::MergeSort => "Merge Sort",
            SortingAlgorithmKind::HeapSort => "Heap Sort",
            SortingAlgorithmKind::ShellSort => "Shell Sort",
            SortingAlgorithmKind::IntroSort => "Intro Sort",
            SortingAlgorithmKind::TimSort => "Tim Sort",
            SortingAlgorithmKind::CocktailSort => "Cocktail Shaker Sort",
            SortingAlgorithmKind::CombSort => "Comb Sort",
            SortingAlgorithmKind::GnomeSort => "Gnome Sort",
        }
    }
}

/// One algorithm's recording of one input, with what was measured while it
/// was made.
pub struct SortingAlgorithmReplay {
    algorithm_name: String,
    frames: Vec<Vec<u32>>,
    stats: SortStats,
}

/// A replay as plain values.
pub struct ReplayView {
    pub name: Seq<char>,
    pub frames: Seq<Seq<u32>>,
    pub stats: StatsView,
}

impl ReplayView {
    /// The position of the last frame.
    pub open spec fn last_index(self) -> int {
        self.frames.len() - 1
    }

    /// The frame that is shown at `tick`: the frame at that position, or
    /// the last frame once the recording is used up.
    pub open spec fn frame_shown(self, tick: int) -> Seq<u32> {
        if tick >= self.last_index() {
            self.frames[self.last_index()]
        } else {
            self.frames[tick]
        }
    }

    /// At `tick` the replay shows its last frame.
    pub open spec fn finished_at(self, tick: int) -> bool {
        tick >= self.last_index()
    }
}

/// A replay shows the frame at the position of the tick, with the flag
/// down, before its last frame, and its last frame, with the flag up, from
/// there on.
pub proof fn law_frame_clamp(replay: ReplayView, tick: int)
    requires
        replay.frames.len() > 0,
        0 <= tick,
    ensures
        tick >= replay.frames.len() - 1 ==> replay.frame_shown(tick) == replay.frames.last()
            && replay.finished_at(tick),
        tick < replay.frames.len() - 1 ==> replay.frame_shown(tick) == replay.frames[tick]
            && !replay.finished_at(tick),
{
}

/// Of two replays shown at the same ticks, the shorter one has finished at
/// the tick that equals its length, where the longer one has not if it is
/// longer by two frames or more; and from the tick one less than the
/// greater length on, both have finished and show their last frames.
pub proof fn law_lockstep(shorter: ReplayView, longer: ReplayView, tick: int)
    requires
        0 < shorter.frames.len() < longer.frames.len(),
    ensures
        shorter.finished_at(shorter.frames.len() as int),
        longer.frames.len() >= shorter.frames.len() + 2 ==> !longer.finished_at(
            shorter.frames.len() as int,
        ),
        tick >= longer.frames.len() - 1 ==> shorter.finished_at(tick) && longer.finished_at(tick)
            && shorter.frame_shown(tick) == shorter.frames.last() && longer.frame_shown(tick)
            == longer.frames.last(),
        tick < longer.frames.len() - 1 ==> !longer.finished_at(tick),
{
}

impl View for SortingAlgorithmReplay {
    type V = ReplayView;

    closed spec fn view(&self) -> ReplayView {
        ReplayView {
            name: self.algorithm_name@,
            frames: appended(Seq::<Vec<u32>>::empty(), self.frames@),
            stats: self.stats@,
        }
    }
}

impl SortingAlgorithmReplay {
    /// A replay has at least one frame and counts its frames as steps.
    #[verifier::type_invariant]
    spec fn well_formed(self) -> bool {
        &&& self.frames@.len() > 0
        &&& self.stats@.total_steps == self.frames@.len()
    }

    /// Makes a replay of a recording that took `duration` to make. Where
    /// the recording is empty, the replay has one frame, `base_values`.
    pub fn from_recording(
        algorithm_kind: SortingAlgorithmKind,
        base_values: &[u32],
        frames: Vec<Vec<u32>>,
        duration: std::time::Duration,
    ) -> (replay: Self)
        ensures
            replay@.name == algorithm_kind.name_text(),
            replay@.frames == if frames@.len() == 0 {
                seq![base_values@]
            } else {
                appended(Seq::<Vec<u32>>::empty(), frames@)
            },
            0 < replay@.frames.len() <= usize::MAX,
            replay@.stats.total_steps == replay@.frames.len(),
            replay@.stats.duration == duration,
    {
        let mut frames = frames;
        if frames.is_empty() {
            frames.push(vstd::slice::slice_to_vec(base_values));
            assert(appended(Seq::<Vec<u32>>::empty(), frames@) =~= seq![base_values@]);
        }
        let total_steps = frames.len() as u64;
        let stats = SortStats::from_measurements(total_steps, duration);
        SortingAlgorithmReplay {
            algorithm_name: algorithm_kind.display_name().to_owned(),
            frames,
            stats,
        }
    }

    /// Records the algorithm at work on `base_values`, measures how long
    /// that takes, and makes a replay of the recording.
    pub fn new(algorithm_kind: SortingAlgorithmKind, base_values: &[u32]) -> (replay: Self)
        ensures
            replay@.name == algorithm_kind.name_text(),
            replay@.frames == algorithm_kind.replay_frames(base_values@),
            0 < replay@.frames.len() <= usize::MAX,
            replay@.stats.total_steps == replay@.frames.len(),
    {
        let mut frames: Vec<Vec<u32>> = Vec::new();
        let start_time = Instant::now();

        match algorithm_kind {
            SortingAlgorithmKind::BubbleSort => {
                bubble_sort_with_recording(base_values, &mut frames);
            },
            SortingAlgorithmKind::QuickSort => {
                quick_sort_with_recording(base_values, &mut frames);
            },
            SortingAlgorithmKind::InsertionSort => {
                insertion_sort_with_recording(base_values, &mut frames);
            },
            SortingAlgorithmKind::SelectionSort => {
                selection_sort_with_recording(base_values, &mut frames);
            },
            SortingAlgorithmKind::MergeSort => {
                merge_sort_with_recording(base_values, &mut frames);
            },
            SortingAlgorithmKind::HeapSort => {
                heap_sort_with_recording(base_values, &mut frames);
            },
            SortingAlgorithmKind::ShellSort => {
                shell_sort_with_recording(base_values, &mut frames);
            },
            SortingAlgorithmKind::IntroSort => {
                intro_sort_with_recording(base_values, &mut frames);
            },
            SortingAlgorithmKind::TimSort => {
                tim_sort_with_recording(base_values, &mut frames);
            },
            SortingAlgorithmKind::CocktailSort => {
                cocktail_sort_with_recording(base_values, &mut frames);
            },
            SortingAlgorithmKind::CombSort => {
                comb_sort_with_recording(base_values, &mut frames);
            },
            SortingAlgorithmKind::GnomeSort => {
                gnome_sort_with_recording(base_values, &mut frames);
            },
        }

        let end_time = Instant::now();
        let duration = end_time.duration_since(start_time);
        Self::from_recording(algorithm_kind, base_values, frames, duration)
    }

    /// The name of the algorithm that was recorded.
    pub fn name(&self) -> (name: &str)
        ensures
            name@ == self@.name,
    {
        self.algorithm_name.as_str()
    }

    /// The frame to show at `frame_index`, and whether the replay has
    /// reached its last frame there: past the last frame the replay keeps
    /// showing it.
    pub fn frame_at(&self, frame_index: usize) -> (shown: (Vec<u32>, bool))
        ensures
            0 < self@.frames.len() <= usize::MAX,
            self@.stats.total_steps == self@.frames.len(),
            shown.0@ == self@.frame_shown(frame_index as int),
            shown.1 == self@.finished_at(frame_index as int),
    {
        proof {
            use_type_invariant(self);
        }
        let last_index = self.frames.len() - 1;
        if frame_index >= self.frames.len() {
            let frame = self.frames[last_index].clone();
            assert(frame@ =~= self.frames@[last_index as int]@);
            (frame, true)
        } else {
            let is_finished = frame_index >= last_index;
            let frame = self.frames[frame_index].clone();
            assert(frame@ =~= self.frames@[frame_index as int]@);
            (frame, is_finished)
        }
    }

    /// What was measured while the recording was made.
    pub fn stats_snapshot(&self) -> (stats: SortStats)
        ensures
            stats@ == self@.stats,
    {
        self.stats
    }
}

} // verus!
