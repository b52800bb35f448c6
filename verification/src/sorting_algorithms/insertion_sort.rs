use vstd::prelude::*;
use vstd::slice::slice_to_vec;
use crate::order::{
    lemma_swapped_same_values, same_values, sorted, sorted_between, swapped,
};
use crate::recording::{
    appended, grown, record_initial, records_sort, seal_recording, trace_of, write_recorded,
    Step, Trace,
};

verus! {

/// The values from `start` up to `frontier` are in order but for the one
/// at `gap`, and every value between `gap` and the frontier is greater than
/// `held`, the value that is to fill the gap.
pub open spec fn ordered_around(s: Seq<u32>, start: int, gap: int, frontier: int, held: u32) -> bool {
    &&& forall|i: int, j: int|
        start <= i <= j <= frontier && i != gap && j != gap ==> s[i] <= s[j]
    &&& forall|j: int| gap < j <= frontier ==> held < #[trigger] s[j]
}

/// The moves that make room for the value `held`: while the value before
/// the gap at `insert` is greater than `held`, it moves into the gap, which
/// so moves one position to the left, down to `start` at most. Gives the
/// sort after the moves and the position of the gap.
pub open spec fn insertion_moves(trace: Trace, insert: int, start: int, held: u32) -> (Trace, int)
    decreases insert - start,
{
    if insert <= start || !(trace.values[insert - 1] > held) {
        (trace, insert)
    } else {
        insertion_moves(trace.write(insert, trace.values[insert - 1]), insert - 1, start, held)
    }
}

/// The rounds from position `unsorted` on up to `end`: in each round the
/// value there is held back, room is made for it among the values from
/// `start` on, and it is put into the gap.
pub open spec fn insertion_rounds(trace: Trace, unsorted: int, start: int, end: int) -> Trace
    decreases end - unsorted,
{
    if unsorted < 0 || unsorted >= end {
        trace
    } else {
        let held = trace.values[unsorted];
        let (moved, gap) = insertion_moves(trace, unsorted, start, held);
        insertion_rounds(moved.put(gap, held), unsorted + 1, start, end)
    }
}

/// The sort of the values from `start` up to, not including, `end` by
/// insertion.
pub open spec fn insertion_range(trace: Trace, start: int, end: int) -> Trace {
    if end - start <= 1 {
        trace
    } else {
        insertion_rounds(trace, start + 1, start, end)
    }
}

/// The frames that insertion sort records of `input`.
pub open spec fn insertion_recording(input: Seq<u32>) -> Seq<Seq<u32>> {
    if input.len() == 0 {
        Seq::empty()
    } else {
        insertion_range(Trace::start(input), 0, input.len() as int).sealed()
    }
}

/// The moves keep a trace following and the values in order around the
/// gap, and end where the value before the gap is not greater than the
/// value held back; values outside the stretch stay as they are.
proof fn lemma_insertion_moves(
    trace: Trace,
    insert: int,
    start: int,
    held: u32,
    unsorted: int,
    whole: Seq<u32>,
    input: Seq<u32>,
)
    requires
        trace.following(input, Step::DoubleWrite),
        0 <= start <= insert <= unsorted < trace.values.len(),
        insert < unsorted ==> trace.frames.last() == trace.values,
        same_values(trace.values.update(insert, held), whole),
        ordered_around(trace.values, start, insert, unsorted, held),
    ensures
        ({
            let (moved, gap) = insertion_moves(trace, insert, start, held);
            &&& moved.following(input, Step::DoubleWrite)
            &&& start <= gap <= insert
            &&& gap < unsorted ==> moved.frames.last() == moved.values
            &&& gap == unsorted ==> moved == trace
            &&& same_values(moved.values.update(gap, held), whole)
            &&& ordered_around(moved.values, start, gap, unsorted, held)
            &&& gap == start || moved.values[gap - 1] <= held
            &&& forall|k: int|
                0 <= k < start || unsorted < k < trace.values.len() ==> moved.values[k]
                    == trace.values[k]
        }),
    decreases insert - start,
{
    if insert <= start || !(trace.values[insert - 1] > held) {
    } else {
        let before = trace.values;
        let next = trace.write(insert, before[insert - 1]);
        trace.lemma_following_write(input, Step::DoubleWrite, insert, before[insert - 1]);
        let filled = before.update(insert, held);
        lemma_swapped_same_values(filled, insert - 1, insert);
        assert(next.values.update(insert - 1, held) =~= swapped(filled, insert - 1, insert));
        assert forall|i: int, j: int|
            start <= i <= j <= unsorted && i != insert - 1 && j != insert - 1 implies next.values[i]
            <= next.values[j] by {
            if i == j {
            } else if j == insert {
                assert(before[i] <= before[insert - 1]);
            } else if i == insert {
                assert(before[insert - 1] <= before[j]);
            } else {
                assert(before[i] <= before[j]);
            }
        }
        lemma_insertion_moves(next, insert - 1, start, held, unsorted, whole, input);
    }
}

/// The rounds keep a trace following and the values the same, and leave
/// the stretch in order; values outside the stretch stay as they are.
proof fn lemma_insertion_rounds(
    trace: Trace,
    unsorted: int,
    start: int,
    end: int,
    whole: Seq<u32>,
    input: Seq<u32>,
)
    requires
        trace.following(input, Step::DoubleWrite),
        0 <= start < unsorted <= end <= trace.values.len(),
        sorted_between(trace.values, start, unsorted),
        same_values(trace.values, whole),
    ensures
        insertion_rounds(trace, unsorted, start, end).following(input, Step::DoubleWrite),
        sorted_between(insertion_rounds(trace, unsorted, start, end).values, start, end),
        same_values(insertion_rounds(trace, unsorted, start, end).values, whole),
        forall|k: int|
            0 <= k < start || end <= k < trace.values.len() ==> insertion_rounds(
                trace,
                unsorted,
                start,
                end,
            ).values[k] == trace.values[k],
    decreases end - unsorted,
{
    if unsorted < end {
        let held = trace.values[unsorted];
        assert(trace.values.update(unsorted, held) =~= trace.values);
        lemma_insertion_moves(trace, unsorted, start, held, unsorted, whole, input);
        let (moved, gap) = insertion_moves(trace, unsorted, start, held);
        let put = moved.put(gap, held);
        if gap == unsorted {
            assert(put.values =~= trace.values);
        } else {
            moved.lemma_following_put(input, gap, held);
        }
        assert forall|i: int, j: int| start <= i <= j < unsorted + 1 implies put.values[i]
            <= put.values[j] by {
            if j == gap && i < gap {
                assert(moved.values[i] <= moved.values[gap - 1]);
            } else if i == gap && j > gap {
                assert(held < moved.values[j]);
            } else if i != gap && j != gap {
                assert(moved.values[i] <= moved.values[j]);
            }
        }
        lemma_insertion_rounds(put, unsorted + 1, start, end, whole, input);
        let done = insertion_rounds(put, unsorted + 1, start, end);
        assert forall|k: int| 0 <= k < start || end <= k < trace.values.len() implies done.values[k]
            == trace.values[k] by {
            assert(done.values[k] == put.values[k]);
            assert(put.values[k] == moved.values[k]);
            assert(moved.values[k] == trace.values[k]);
        }
    }
}

/// The rounds change nothing where the stretch is in order.
proof fn lemma_insertion_rounds_rest(trace: Trace, unsorted: int, start: int, end: int)
    requires
        0 <= start < unsorted,
        end <= trace.values.len(),
        sorted_between(trace.values, start, end),
    ensures
        insertion_rounds(trace, unsorted, start, end) == trace,
    decreases end - unsorted,
{
    if unsorted < end {
        let held = trace.values[unsorted];
        assert(trace.values[unsorted - 1] <= held);
        assert(insertion_moves(trace, unsorted, start, held) == (trace, unsorted));
        assert(trace.values.update(unsorted, held) =~= trace.values);
        assert(trace.put(unsorted, held) == trace);
        lemma_insertion_rounds_rest(trace, unsorted + 1, start, end);
    }
}

/// The sort of a stretch by insertion keeps a trace following and the
/// values the same, and leaves the stretch in order; values outside the
/// stretch stay as they are, and so does everything where the stretch is
/// in order already.
pub proof fn lemma_insertion_range(trace: Trace, start: int, end: int, whole: Seq<u32>, input: Seq<u32>)
    requires
        trace.following(input, Step::DoubleWrite),
        0 <= start <= end <= trace.values.len(),
        same_values(trace.values, whole),
    ensures
        insertion_range(trace, start, end).following(input, Step::DoubleWrite),
        sorted_between(insertion_range(trace, start, end).values, start, end),
        same_values(insertion_range(trace, start, end).values, whole),
        forall|k: int|
            0 <= k < start || end <= k < trace.values.len() ==> insertion_range(
                trace,
                start,
                end,
            ).values[k] == trace.values[k],
        sorted_between(trace.values, start, end) ==> insertion_range(trace, start, end) == trace,
{
    if end - start > 1 {
        lemma_insertion_rounds(trace, start + 1, start, end, whole, input);
        if sorted_between(trace.values, start, end) {
            lemma_insertion_rounds_rest(trace, start + 1, start, end);
        }
    }
}

/// What insertion sort records of an input that is not empty starts with
/// the input, goes on by frames that differ from the one before in two
/// positions at most, and ends with the values of the input in order; it
/// is the one frame of the input where that is in order already.
pub proof fn law_insertion_recording(input: Seq<u32>)
    requires
        input.len() > 0,
    ensures
        records_sort(input, insertion_recording(input), Step::DoubleWrite),
        sorted(input) ==> insertion_recording(input) == seq![input],
{
    let start = Trace::start(input);
    assert(start.following(input, Step::DoubleWrite));
    lemma_insertion_range(start, 0, input.len() as int, input, input);
    let done = insertion_range(start, 0, input.len() as int);
    assert(sorted(done.values));
    done.lemma_following_records_sort(input, Step::DoubleWrite);
}

/// Sorts the values from `start` up to, not including, `end` by insertion:
/// each value in turn is held back while the greater values before it move
/// one position to the right, one at a time, and is then written where the
/// moves stopped. A frame is recorded after every move, none after the
/// final write, which the next frame shows.
pub(crate) fn insertion_sort_range(
    values: &mut Vec<u32>,
    start_index: usize,
    end_index: usize,
    frames: &mut Vec<Vec<u32>>,
    Ghost(base): Ghost<Seq<Vec<u32>>>,
)
    requires
        start_index <= end_index <= old(values)@.len(),
        grown(base, old(frames)@),
    ensures
        final(values)@.len() == old(values)@.len(),
        grown(base, final(frames)@),
        final(frames)@.len() >= old(frames)@.len(),
        trace_of(base, final(frames)@, final(values)@) == insertion_range(
            trace_of(base, old(frames)@, old(values)@),
            start_index as int,
            end_index as int,
        ),
{
    if end_index - start_index <= 1 {
        return;
    }
    let ghost whole = insertion_range(
        trace_of(base, frames@, values@),
        start_index as int,
        end_index as int,
    );
    let mut unsorted_index: usize = start_index + 1;

    while unsorted_index < end_index
        invariant
            start_index < unsorted_index <= end_index <= values@.len(),
            values@.len() == old(values)@.len(),
            grown(base, frames@),
            frames@.len() >= old(frames)@.len(),
            insertion_rounds(
                trace_of(base, frames@, values@),
                unsorted_index as int,
                start_index as int,
                end_index as int,
            ) == whole,
        decreases end_index - unsorted_index,
    {
        let current_value = values[unsorted_index];
        let mut insert_index: usize = unsorted_index;
        let ghost round_trace = trace_of(base, frames@, values@);

        while insert_index > start_index && values[insert_index - 1] > current_value
            invariant
                start_index <= insert_index <= unsorted_index < end_index <= values@.len(),
                values@.len() == old(values)@.len(),
                grown(base, frames@),
                frames@.len() >= old(frames)@.len(),
                insertion_moves(
                    trace_of(base, frames@, values@),
                    insert_index as int,
                    start_index as int,
                    current_value,
                ) == insertion_moves(
                    round_trace,
                    unsorted_index as int,
                    start_index as int,
                    current_value,
                ),
            decreases insert_index,
        {
            let moved = values[insert_index - 1];
            write_recorded(values, insert_index, moved, frames, Ghost(base));
            insert_index -= 1;
        }

        values[insert_index] = current_value;
        unsorted_index += 1;
    }
}

/// Sorts a copy of `initial_values` by insertion and appends to `frames`
/// the initial values, the arrangement after every move of a value by one
/// position to the right, and at the end the sorted arrangement unless the
/// last frame already shows it.
pub fn insertion_sort_with_recording(initial_values: &[u32], frames: &mut Vec<Vec<u32>>)
    ensures
        grown(old(frames)@, final(frames)@),
        appended(old(frames)@, final(frames)@) == insertion_recording(initial_values@),
        records_sort(
            initial_values@,
            appended(old(frames)@, final(frames)@),
            Step::DoubleWrite,
        ),
        sorted(initial_values@) && initial_values@.len() > 0 ==> appended(
            old(frames)@,
            final(frames)@,
        ) == seq![initial_values@],
{
    let mut values = slice_to_vec(initial_values);
    if values.is_empty() {
        assert(appended(old(frames)@, frames@) =~= Seq::<Seq<u32>>::empty());
        return;
    }
    let ghost base = frames@;
    record_initial(frames, &values);

    let length = values.len();
    insertion_sort_range(&mut values, 0, length, frames, Ghost(base));
    seal_recording(frames, values, Ghost(base));
    proof {
        law_insertion_recording(initial_values@);
    }
}

} // verus!
