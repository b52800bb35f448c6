use vstd::prelude::*;
use vstd::slice::slice_to_vec;
use crate::order::{
    lemma_inversion_swap_weight, lemma_neighbours_sorted, lemma_position_weight_limit,
    position_weight, sorted, swapped, weight_limit,
};
use crate::recording::{
    appended, grown, neighbour_swap_at, record_initial, records_sort, seal_recording,
    swap_recorded, trace_of, Step, Trace,
};

verus! {

/// A pass, from position `left` on: neighbours in the wrong order change
/// places, from left to right. The flag tells whether any did, in this
/// part of the pass or before it.
pub open spec fn bubble_pass(trace: Trace, left: int, exchanged: bool) -> (Trace, bool)
    decreases trace.values.len() - left,
{
    if left < 0 || left + 1 >= trace.values.len() {
        (trace, exchanged)
    } else if trace.values[left] > trace.values[left + 1] {
        bubble_pass(trace.swap(left, left + 1), left + 1, true)
    } else {
        bubble_pass(trace, left + 1, exchanged)
    }
}

/// Passes, one after the other, until one exchanges nothing.
pub open spec fn bubble_passes(trace: Trace) -> Trace
    decreases weight_limit(trace.values.len()) - position_weight(trace.values),
{
    let (after, exchanged) = bubble_pass(trace, 0, false);
    if exchanged {
        proof {
            lemma_bubble_pass_weight(trace, 0, false);
        }
        bubble_passes(after)
    } else {
        after
    }
}

/// The frames that bubble sort records of `input`.
pub open spec fn bubble_recording(input: Seq<u32>) -> Seq<Seq<u32>> {
    if input.len() == 0 {
        Seq::empty()
    } else {
        bubble_passes(Trace::start(input)).sealed()
    }
}

/// A pass keeps the number of values and never lowers their weight; a pass
/// that exchanges values raises it.
pub proof fn lemma_bubble_pass_weight(trace: Trace, left: int, exchanged: bool)
    ensures
        bubble_pass(trace, left, exchanged).0.values.len() == trace.values.len(),
        position_weight(bubble_pass(trace, left, exchanged).0.values) >= position_weight(
            trace.values,
        ),
        bubble_pass(trace, left, exchanged).1 && !exchanged ==> position_weight(
            bubble_pass(trace, left, exchanged).0.values,
        ) > position_weight(trace.values),
        0 <= position_weight(bubble_pass(trace, left, exchanged).0.values) <= weight_limit(
            trace.values.len(),
        ),
    decreases trace.values.len() - left,
{
    lemma_position_weight_limit(trace.values);
    if left < 0 || left + 1 >= trace.values.len() {
    } else if trace.values[left] > trace.values[left + 1] {
        lemma_inversion_swap_weight(trace.values, left, left + 1);
        lemma_bubble_pass_weight(trace.swap(left, left + 1), left + 1, true);
    } else {
        lemma_bubble_pass_weight(trace, left + 1, exchanged);
    }
}

/// A pass keeps a trace chained; one that exchanges nothing leaves the
/// values as they are, with all neighbours from `left` on in order.
proof fn lemma_bubble_pass_chained(trace: Trace, left: int, exchanged: bool, input: Seq<u32>)
    requires
        trace.chained(input, Step::NeighbourSwap),
        0 <= left,
    ensures
        bubble_pass(trace, left, exchanged).0.chained(input, Step::NeighbourSwap),
        exchanged ==> bubble_pass(trace, left, exchanged).1,
        !bubble_pass(trace, left, exchanged).1 ==> bubble_pass(trace, left, exchanged).0 == trace
            && forall|k: int|
            left <= k < trace.values.len() - 1 ==> trace.values[k] <= #[trigger] trace.values[k
                + 1],
    decreases trace.values.len() - left,
{
    if left + 1 >= trace.values.len() {
    } else if trace.values[left] > trace.values[left + 1] {
        let next = swapped(trace.values, left, left + 1);
        assert(neighbour_swap_at(trace.values, next, left));
        trace.lemma_chained_step(input, Step::NeighbourSwap, next);
        lemma_bubble_pass_chained(trace.swap(left, left + 1), left + 1, true, input);
    } else {
        lemma_bubble_pass_chained(trace, left + 1, exchanged, input);
    }
}

/// Passes until one exchanges nothing keep a trace chained and leave the
/// values in order; values that are in order stay as they are.
proof fn lemma_bubble_passes_sort(trace: Trace, input: Seq<u32>)
    requires
        trace.chained(input, Step::NeighbourSwap),
    ensures
        bubble_passes(trace).chained(input, Step::NeighbourSwap),
        sorted(bubble_passes(trace).values),
        sorted(trace.values) ==> bubble_passes(trace) == trace,
    decreases weight_limit(trace.values.len()) - position_weight(trace.values),
{
    let (after, exchanged) = bubble_pass(trace, 0, false);
    lemma_bubble_pass_chained(trace, 0, false, input);
    lemma_bubble_pass_weight(trace, 0, false);
    if exchanged {
        lemma_bubble_passes_sort(after, input);
        if sorted(trace.values) {
            lemma_bubble_pass_rests(trace, 0);
        }
    } else {
        lemma_neighbours_sorted(trace.values);
    }
}

/// A pass exchanges nothing where the values are in order.
proof fn lemma_bubble_pass_rests(trace: Trace, left: int)
    requires
        sorted(trace.values),
        0 <= left,
    ensures
        bubble_pass(trace, left, false) == (trace, false),
    decreases trace.values.len() - left,
{
    if left + 1 < trace.values.len() {
        lemma_bubble_pass_rests(trace, left + 1);
    }
}

/// What bubble sort records of an input that is not empty starts with the
/// input, goes on by exchanges of neighbours in the wrong order, each frame
/// holding the values of the input, and ends with them in order; it is the
/// one frame of the input where that is in order already.
pub proof fn law_bubble_recording(input: Seq<u32>)
    requires
        input.len() > 0,
    ensures
        records_sort(input, bubble_recording(input), Step::NeighbourSwap),
        sorted(input) ==> bubble_recording(input) == seq![input],
{
    let start = Trace::start(input);
    assert(start.chained(input, Step::NeighbourSwap));
    lemma_bubble_passes_sort(start, input);
    bubble_passes(start).lemma_chained_records_sort(input, Step::NeighbourSwap);
}

/// Sorts a copy of `initial_values` by passes that exchange neighbours in
/// the wrong order, until a pass exchanges nothing, and appends to `frames`
/// the initial values and the arrangement after every exchange.
pub fn bubble_sort_with_recording(initial_values: &[u32], frames: &mut Vec<Vec<u32>>)
    ensures
        grown(old(frames)@, final(frames)@),
        appended(old(frames)@, final(frames)@) == bubble_recording(initial_values@),
        records_sort(
            initial_values@,
            appended(old(frames)@, final(frames)@),
            Step::NeighbourSwap,
        ),
        sorted(initial_values@) && initial_values@.len() > 0 ==> appended(
            old(frames)@,
            final(frames)@,
        ) == seq![initial_values@],
{
    let mut values = slice_to_vec(initial_values);
    if values.is_empty() {
        assert(appended(old(frames)@, frames@) =~= Seq::<Seq<u32>>::empty());
        return;
    }
    let ghost base = frames@;
    record_initial(frames, &values);
    let ghost whole = bubble_passes(Trace::start(initial_values@));

    let length = values.len();
    let mut is_swapped = true;

    while is_swapped
        invariant
            length == values@.len(),
            length >= 1,
            grown(base, frames@),
            frames@.len() > base.len(),
            is_swapped ==> bubble_passes(trace_of(base, frames@, values@)) == whole,
            !is_swapped ==> trace_of(base, frames@, values@) == whole,
        decreases
            weight_limit(length as nat) - position_weight(values@),
            (if is_swapped { 1int } else { 0int }),
    {
        is_swapped = false;
        let ghost pass_trace = trace_of(base, frames@, values@);
        proof {
            lemma_bubble_pass_weight(pass_trace, 0, false);
        }
        let mut left_index: usize = 0;
        while left_index < length - 1
            invariant
                length == values@.len(),
                length >= 1,
                left_index <= length - 1,
                grown(base, frames@),
                frames@.len() > base.len(),
                bubble_pass(trace_of(base, frames@, values@), left_index as int, is_swapped)
                    == bubble_pass(pass_trace, 0, false),
            decreases length - 1 - left_index,
        {
            let right_index = left_index + 1;
            if values[left_index] > values[right_index] {
                swap_recorded(&mut values, left_index, right_index, frames, Ghost(base));
                is_swapped = true;
            }
            left_index += 1;
        }
    }

    seal_recording(frames, values, Ghost(base));
    proof {
        law_bubble_recording(initial_values@);
    }
}

} // verus!
