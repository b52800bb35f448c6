use vstd::prelude::*;
use vstd::slice::slice_to_vec;
use crate::order::{same_values, sorted, sorted_between};
use crate::recording::{
    appended, grown, record_initial, records_sort, seal_recording, trace_of, Step, Trace,
};
use crate::sorting_algorithms::insertion_sort::{
    insertion_range, insertion_sort_range, lemma_insertion_range,
};
use crate::sorting_algorithms::merge_sort::{lemma_merge_trace, merge_ranges, merge_trace};

verus! {

/// The length of the runs that are sorted by insertion before any merge.
pub const MINIMUM_RUN_LENGTH: usize = 32;

/// Where the run that starts at `from` ends: `size` positions on, or at
/// `length` where fewer are left.
pub open spec fn run_end(from: int, size: int, length: int) -> int {
    if from + size < length {
        from + size
    } else {
        length
    }
}

/// The runs of `size` values from position `start` on, the last one ending
/// at `length`, are sorted by insertion, one after the other.
pub open spec fn tim_runs(trace: Trace, start: int, size: int, length: int) -> Trace
    decreases length - start,
{
    if start < 0 || start >= length || size <= 0 {
        trace
    } else {
        tim_runs(
            insertion_range(trace, start, run_end(start, size, length)),
            run_end(start, size, length),
            size,
            length,
        )
    }
}

/// A pass of merges, from position `merge_start` on: each run of `size`
/// values is merged with the run that follows it, which may be shorter; a
/// run that no run follows stays as it is.
pub open spec fn tim_merge_pass(trace: Trace, merge_start: int, size: int, length: int) -> Trace
    decreases length - merge_start,
{
    if merge_start < 0 || size <= 0 || length - merge_start <= size {
        trace
    } else {
        tim_merge_pass(
            merge_trace(
                trace,
                merge_start,
                merge_start + size,
                run_end(merge_start + size, size, length),
            ),
            run_end(merge_start + size, size, length),
            size,
            length,
        )
    }
}

/// Passes of merges with runs of `size` values, of twice as many, and so
/// on, while a run is shorter than the whole.
pub open spec fn tim_merges(trace: Trace, size: int, length: int) -> Trace
    decreases length - size,
{
    if size <= 0 || size >= length {
        trace
    } else {
        tim_merges(tim_merge_pass(trace, 0, size, length), run_end(size, size, length), length)
    }
}

/// The frames that tim sort records of `input`.
pub open spec fn tim_recording(input: Seq<u32>) -> Seq<Seq<u32>> {
    if input.len() == 0 {
        Seq::empty()
    } else if input.len() == 1 {
        Trace::start(input).sealed()
    } else {
        let length = input.len() as int;
        let size = if length < MINIMUM_RUN_LENGTH {
            length
        } else {
            MINIMUM_RUN_LENGTH as int
        };
        tim_merges(tim_runs(Trace::start(input), 0, size, length), size, length).sealed()
    }
}

/// Cut into runs of `size` positions, the last one ending at `length`, the
/// values from `from` to `upto` are whole runs, each of them in order.
pub open spec fn runs_sorted(s: Seq<u32>, from: int, size: int, upto: int, length: int) -> bool
    decreases upto - from,
{
    if from >= upto {
        from == upto
    } else if size <= 0 || upto > length {
        false
    } else {
        let to = if from + size < length {
            from + size
        } else {
            length
        };
        to <= upto && sorted_between(s, from, to) && runs_sorted(s, to, size, upto, length)
    }
}

/// Runs in order up to `middle` and runs in order from there on make runs
/// in order throughout.
proof fn lemma_runs_join(s: Seq<u32>, from: int, size: int, middle: int, upto: int, length: int)
    requires
        runs_sorted(s, from, size, middle, length),
        runs_sorted(s, middle, size, upto, length),
    ensures
        runs_sorted(s, from, size, upto, length),
    decreases middle - from,
{
    if from < middle {
        let to = if from + size < length {
            from + size
        } else {
            length
        };
        lemma_runs_reach(s, middle, size, upto, length);
        lemma_runs_join(s, to, size, middle, upto, length);
    }
}

/// Runs in order stay so in a sequence that has the same values at their
/// positions.
proof fn lemma_runs_kept(s: Seq<u32>, t: Seq<u32>, from: int, size: int, upto: int, length: int)
    requires
        runs_sorted(s, from, size, upto, length),
        0 <= from,
        length <= s.len(),
        forall|k: int| from <= k < upto ==> s[k] == t[k],
    ensures
        runs_sorted(t, from, size, upto, length),
    decreases upto - from,
{
    if from < upto {
        let to = if from + size < length {
            from + size
        } else {
            length
        };
        lemma_runs_reach(s, to, size, upto, length);
        assert(sorted_between(t, from, to)) by {
            assert forall|i: int, j: int| from <= i <= j < to implies t[i] <= t[j] by {
                assert(s[i] <= s[j]);
            }
        }
        lemma_runs_kept(s, t, to, size, upto, length);
    }
}

/// Runs lie before the position that they are said to reach.
proof fn lemma_runs_reach(s: Seq<u32>, from: int, size: int, upto: int, length: int)
    requires
        runs_sorted(s, from, size, upto, length),
    ensures
        from <= upto,
    decreases upto - from,
{
}

/// One stretch in order is one run.
proof fn lemma_single_run(s: Seq<u32>, from: int, size: int, length: int)
    requires
        0 <= from < length,
        size > 0,
        sorted_between(s, from, run_end(from, size, length)),
    ensures
        runs_sorted(s, from, size, run_end(from, size, length), length),
{
    let to = run_end(from, size, length);
    assert(runs_sorted(s, to, size, to, length));
}

/// Sorting the runs by insertion keeps a trace following and the values
/// the same, and leaves every run in order.
proof fn lemma_tim_runs(trace: Trace, start: int, size: int, input: Seq<u32>)
    requires
        trace.following(input, Step::DoubleWrite),
        0 <= start <= input.len(),
        size >= 1,
        same_values(trace.values, input),
        runs_sorted(trace.values, 0, size, start, input.len() as int),
    ensures
        tim_runs(trace, start, size, input.len() as int).following(input, Step::DoubleWrite),
        same_values(tim_runs(trace, start, size, input.len() as int).values, input),
        runs_sorted(
            tim_runs(trace, start, size, input.len() as int).values,
            0,
            size,
            input.len() as int,
            input.len() as int,
        ),
        sorted(trace.values) ==> tim_runs(trace, start, size, input.len() as int) == trace,
    decreases input.len() - start,
{
    let length = input.len() as int;
    if start < length {
        let end = run_end(start, size, length);
        lemma_insertion_range(trace, start, end, input, input);
        let next = insertion_range(trace, start, end);
        lemma_runs_kept(trace.values, next.values, 0, size, start, length);
        lemma_single_run(next.values, start, size, length);
        lemma_runs_join(next.values, 0, size, start, end, length);
        lemma_tim_runs(next, end, size, input);
    }
}

/// A pass of merges keeps a trace following and the values the same, and
/// leaves runs of double the length in order.
proof fn lemma_tim_merge_pass(trace: Trace, merge_start: int, size: int, input: Seq<u32>)
    requires
        trace.following(input, Step::DoubleWrite),
        0 <= merge_start <= input.len(),
        0 < size < input.len(),
        same_values(trace.values, input),
        runs_sorted(
            trace.values,
            0,
            run_end(size, size, input.len() as int),
            merge_start,
            input.len() as int,
        ),
        runs_sorted(trace.values, merge_start, size, input.len() as int, input.len() as int),
    ensures
        tim_merge_pass(trace, merge_start, size, input.len() as int).following(
            input,
            Step::DoubleWrite,
        ),
        same_values(tim_merge_pass(trace, merge_start, size, input.len() as int).values, input),
        runs_sorted(
            tim_merge_pass(trace, merge_start, size, input.len() as int).values,
            0,
            run_end(size, size, input.len() as int),
            input.len() as int,
            input.len() as int,
        ),
    decreases input.len() - merge_start,
{
    let length = input.len() as int;
    let doubled = run_end(size, size, length);
    if length - merge_start <= size {
        if merge_start < length {
            lemma_single_run(trace.values, merge_start, doubled, length);
        }
        lemma_runs_join(trace.values, 0, doubled, merge_start, length, length);
    } else {
        let middle = merge_start + size;
        let end = run_end(middle, size, length);
        assert(runs_sorted(trace.values, middle, size, length, length));
        assert(runs_sorted(trace.values, end, size, length, length));
        lemma_runs_reach(trace.values, end, size, length, length);
        lemma_merge_trace(trace, merge_start, middle, end, input, input, Step::DoubleWrite);
        let next = merge_trace(trace, merge_start, middle, end);
        lemma_runs_kept(trace.values, next.values, 0, doubled, merge_start, length);
        lemma_runs_kept(trace.values, next.values, end, size, length, length);
        assert(end == run_end(merge_start, doubled, length));
        lemma_single_run(next.values, merge_start, doubled, length);
        lemma_runs_join(next.values, 0, doubled, merge_start, end, length);
        lemma_tim_merge_pass(next, end, size, input);
    }
}

/// The passes of merges keep a trace following and the values the same,
/// and leave the values in order.
proof fn lemma_tim_merges(trace: Trace, size: int, input: Seq<u32>)
    requires
        trace.following(input, Step::DoubleWrite),
        0 < size <= input.len(),
        same_values(trace.values, input),
        runs_sorted(trace.values, 0, size, input.len() as int, input.len() as int),
    ensures
        tim_merges(trace, size, input.len() as int).following(input, Step::DoubleWrite),
        same_values(tim_merges(trace, size, input.len() as int).values, input),
        sorted(tim_merges(trace, size, input.len() as int).values),
    decreases input.len() - size,
{
    let length = input.len() as int;
    if size < length {
        lemma_tim_merge_pass(trace, 0, size, input);
        lemma_tim_merges(tim_merge_pass(trace, 0, size, length), run_end(size, size, length), input);
    } else {
        assert(sorted_between(trace.values, 0, length));
        assert(sorted(trace.values));
    }
}

/// What tim sort records of an input that is not empty starts with the
/// input, goes on by frames that differ from the one before in two
/// positions at most, and ends with the values of the input in order; it
/// is the one frame of the input where that is in order already and holds
/// no more values than one run.
pub proof fn law_tim_recording(input: Seq<u32>)
    requires
        input.len() > 0,
    ensures
        records_sort(input, tim_recording(input), Step::DoubleWrite),
        sorted(input) && input.len() <= MINIMUM_RUN_LENGTH ==> tim_recording(input) == seq![input],
{
    let start = Trace::start(input);
    assert(start.following(input, Step::DoubleWrite));
    if input.len() == 1 {
        assert(sorted(input));
        start.lemma_following_records_sort(input, Step::DoubleWrite);
    } else {
        let length = input.len() as int;
        let size = if length < MINIMUM_RUN_LENGTH {
            length
        } else {
            MINIMUM_RUN_LENGTH as int
        };
        lemma_tim_runs(start, 0, size, input);
        let runs_done = tim_runs(start, 0, size, length);
        lemma_tim_merges(runs_done, size, input);
        tim_merges(runs_done, size, length).lemma_following_records_sort(input, Step::DoubleWrite);
    }
}

/// Sorts a copy of `initial_values` in two stages: runs of 32 values (of
/// all values where there are fewer) are sorted by insertion, then
/// neighbouring runs are merged pairwise, pass after pass with runs of
/// double the length, until one run is left. Appends to `frames` the
/// initial values, the arrangement after every move of the insertion stage
/// and after every write of a merged value, and at the end the sorted
/// arrangement unless the last frame already shows it.
pub fn tim_sort_with_recording(initial_values: &[u32], frames: &mut Vec<Vec<u32>>)
    ensures
        grown(old(frames)@, final(frames)@),
        appended(old(frames)@, final(frames)@) == tim_recording(initial_values@),
        records_sort(
            initial_values@,
            appended(old(frames)@, final(frames)@),
            Step::DoubleWrite,
        ),
        sorted(initial_values@) && 0 < initial_values@.len() <= MINIMUM_RUN_LENGTH ==> appended(
            old(frames)@,
            final(frames)@,
        ) == seq![initial_values@],
{
    let mut values = slice_to_vec(initial_values);
    if values.is_empty() {
        assert(appended(old(frames)@, frames@) =~= Seq::<Seq<u32>>::empty());
        return;
    }
    let ghost base = frames@;
    record_initial(frames, &values);

    let length = values.len();
    if length <= 1 {
        seal_recording(frames, values, Ghost(base));
        proof {
            law_tim_recording(initial_values@);
        }
        return;
    }
    let run_length = if length < MINIMUM_RUN_LENGTH {
        length
    } else {
        MINIMUM_RUN_LENGTH
    };
    let ghost runs_done = tim_runs(
        Trace::start(initial_values@),
        0,
        run_length as int,
        length as int,
    );
    let ghost whole = tim_merges(runs_done, run_length as int, length as int);

    // sort small runs with insertion sort
    let mut start_index: usize = 0;
    while start_index < length
        invariant
            length == values@.len(),
            0 < run_length <= length,
            start_index <= length,
            grown(base, frames@),
            frames@.len() > base.len(),
            tim_runs(
                trace_of(base, frames@, values@),
                start_index as int,
                run_length as int,
                length as int,
            ) == runs_done,
        decreases length - start_index,
    {
        let end_index = if length - start_index < run_length {
            length
        } else {
            start_index + run_length
        };
        insertion_sort_range(&mut values, start_index, end_index, frames, Ghost(base));
        start_index = end_index;
    }

    // merge runs bottom-up
    let mut current_run_size: usize = run_length;
    while current_run_size < length
        invariant
            length == values@.len(),
            0 < current_run_size <= length,
            grown(base, frames@),
            frames@.len() > base.len(),
            tim_merges(trace_of(base, frames@, values@), current_run_size as int, length as int)
                == whole,
        decreases length - current_run_size,
    {
        let doubled_run_size = if length - current_run_size <= current_run_size {
            length
        } else {
            2 * current_run_size
        };
        let mut merge_start_index: usize = 0;
        let ghost pass_trace = trace_of(base, frames@, values@);

        while merge_start_index < length
            invariant
                length == values@.len(),
                0 < current_run_size < length,
                merge_start_index <= length,
                grown(base, frames@),
                frames@.len() > base.len(),
                tim_merge_pass(
                    trace_of(base, frames@, values@),
                    merge_start_index as int,
                    current_run_size as int,
                    length as int,
                ) == tim_merge_pass(pass_trace, 0, current_run_size as int, length as int),
            decreases length - merge_start_index,
        {
            if length - merge_start_index <= current_run_size {
                merge_start_index = length;
            } else {
                let middle_index = merge_start_index + current_run_size;
                let merge_end_index = if length - middle_index < current_run_size {
                    length
                } else {
                    middle_index + current_run_size
                };
                merge_ranges(
                    &mut values,
                    merge_start_index,
                    middle_index,
                    merge_end_index,
                    frames,
                    Ghost(base),
                );
                merge_start_index = merge_end_index;
            }
        }

        current_run_size = doubled_run_size;
    }

    seal_recording(frames, values, Ghost(base));
    proof {
        law_tim_recording(initial_values@);
    }
}

} // verus!
