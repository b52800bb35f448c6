use vstd::prelude::*;
use vstd::slice::slice_to_vec;
use crate::order::{lemma_neighbours_sorted_range, sorted, swapped};
use crate::recording::{
    appended, grown, neighbour_swap_at, record_initial, records_sort, seal_recording,
    swap_recorded, trace_of, Step, Trace,
};

verus! {

/// Outside the stretch from `start` to `end` every value has reached its
/// place: each one before `start` is at most, and each one after `end` at
/// least, every value that lies between it and the stretch or in it.
pub open spec fn settled_outside(s: Seq<u32>, start: int, end: int) -> bool {
    forall|i: int, j: int| 0 <= i <= j < s.len() && (i < start || j > end) ==> s[i] <= s[j]
}

/// A forward pass, from position `left` on up to `end`: neighbours in the
/// wrong order change places, from left to right. The flag tells whether
/// any did, in this part of the pass or before it.
pub open spec fn forward_pass(trace: Trace, left: int, end: int, exchanged: bool) -> (Trace, bool)
    decreases end - left,
{
    if left < 0 || left >= end {
        (trace, exchanged)
    } else if trace.values[left] > trace.values[left + 1] {
        forward_pass(trace.swap(left, left + 1), left + 1, end, true)
    } else {
        forward_pass(trace, left + 1, end, exchanged)
    }
}

/// A backward pass, from position `right` on down to `start`: neighbours
/// in the wrong order change places, from right to left.
pub open spec fn backward_pass(trace: Trace, right: int, start: int, exchanged: bool) -> (
    Trace,
    bool,
)
    decreases right - start,
{
    if start < 0 || right <= start {
        (trace, exchanged)
    } else if trace.values[right - 1] > trace.values[right] {
        backward_pass(trace.swap(right - 1, right), right - 1, start, true)
    } else {
        backward_pass(trace, right - 1, start, exchanged)
    }
}

/// Rounds of a forward pass over the stretch from `start` to `end` and a
/// backward pass over the stretch without its last position. The rounds
/// end with a pass that exchanges nothing; otherwise the next round works
/// on the stretch without its first and its last position, as long as
/// that holds two values or more.
pub open spec fn cocktail_rounds(trace: Trace, start: int, end: int) -> Trace
    decreases end - start,
{
    let (forth, forward_exchanged) = forward_pass(trace, start, end, false);
    if !forward_exchanged || start < 0 || end <= start {
        forth
    } else {
        let (back, backward_exchanged) = backward_pass(forth, end - 1, start, false);
        if start + 1 >= end - 1 || !backward_exchanged {
            back
        } else {
            cocktail_rounds(back, start + 1, end - 1)
        }
    }
}

/// The frames that cocktail sort records of `input`.
pub open spec fn cocktail_recording(input: Seq<u32>) -> Seq<Seq<u32>> {
    if input.len() == 0 {
        Seq::empty()
    } else if input.len() == 1 {
        Trace::start(input).sealed()
    } else {
        cocktail_rounds(Trace::start(input), 0, input.len() - 1).sealed()
    }
}

/// An exchange within the stretch keeps what is settled outside it.
proof fn lemma_settled_exchange(s: Seq<u32>, start: int, end: int, i: int, j: int)
    requires
        settled_outside(s, start, end),
        0 <= start <= i <= end < s.len(),
        start <= j <= end,
    ensures
        settled_outside(swapped(s, i, j), start, end),
{
    let t = swapped(s, i, j);
    assert forall|a: int, b: int| 0 <= a <= b < t.len() && (a < start || b > end) implies t[a]
        <= t[b] by {
        if a < start {
            assert(s[a] <= s[i]);
            assert(s[a] <= s[j]);
        } else {
            assert(s[i] <= s[b]);
            assert(s[j] <= s[b]);
        }
        assert(s[a] <= s[b]);
    }
}

/// A forward pass keeps a trace chained and what is settled outside the
/// stretch, and leaves the greatest value of the stretch at its end; one
/// that exchanges nothing leaves the values as they are, with the
/// neighbours from `left` to `end` in order.
proof fn lemma_forward_pass(
    trace: Trace,
    left: int,
    end: int,
    exchanged: bool,
    start: int,
    input: Seq<u32>,
)
    requires
        trace.chained(input, Step::NeighbourSwap),
        0 <= start <= left <= end < trace.values.len(),
        settled_outside(trace.values, start, end),
        forall|k: int| start <= k <= left ==> trace.values[k] <= trace.values[left],
    ensures
        forward_pass(trace, left, end, exchanged).0.chained(input, Step::NeighbourSwap),
        settled_outside(forward_pass(trace, left, end, exchanged).0.values, start, end),
        forall|k: int|
            start <= k <= end ==> forward_pass(trace, left, end, exchanged).0.values[k]
                <= forward_pass(trace, left, end, exchanged).0.values[end],
        exchanged ==> forward_pass(trace, left, end, exchanged).1,
        !forward_pass(trace, left, end, exchanged).1 ==> forward_pass(trace, left, end, exchanged).0
            == trace && forall|k: int|
            left <= k < end ==> trace.values[k] <= #[trigger] trace.values[k + 1],
    decreases end - left,
{
    if left >= end {
    } else if trace.values[left] > trace.values[left + 1] {
        let next = swapped(trace.values, left, left + 1);
        assert(neighbour_swap_at(trace.values, next, left));
        trace.lemma_chained_step(input, Step::NeighbourSwap, next);
        lemma_settled_exchange(trace.values, start, end, left, left + 1);
        lemma_forward_pass(trace.swap(left, left + 1), left + 1, end, true, start, input);
    } else {
        lemma_forward_pass(trace, left + 1, end, exchanged, start, input);
    }
}

/// A backward pass keeps a trace chained and what is settled outside the
/// stretch, and leaves the least value of the stretch at its start; one
/// that exchanges nothing leaves the values as they are, with the
/// neighbours from `start` to `right` in order.
proof fn lemma_backward_pass(
    trace: Trace,
    right: int,
    start: int,
    exchanged: bool,
    end: int,
    input: Seq<u32>,
)
    requires
        trace.chained(input, Step::NeighbourSwap),
        0 <= start <= right <= end < trace.values.len(),
        settled_outside(trace.values, start, end),
        forall|k: int| right <= k <= end ==> trace.values[right] <= trace.values[k],
    ensures
        backward_pass(trace, right, start, exchanged).0.chained(input, Step::NeighbourSwap),
        settled_outside(backward_pass(trace, right, start, exchanged).0.values, start, end),
        forall|k: int|
            start <= k <= end ==> backward_pass(trace, right, start, exchanged).0.values[start]
                <= backward_pass(trace, right, start, exchanged).0.values[k],
        exchanged ==> backward_pass(trace, right, start, exchanged).1,
        !backward_pass(trace, right, start, exchanged).1 ==> backward_pass(
            trace,
            right,
            start,
            exchanged,
        ).0 == trace && forall|k: int|
            start <= k < right ==> trace.values[k] <= #[trigger] trace.values[k + 1],
    decreases right - start,
{
    if right <= start {
    } else if trace.values[right - 1] > trace.values[right] {
        let next = swapped(trace.values, right - 1, right);
        assert(neighbour_swap_at(trace.values, next, right - 1));
        trace.lemma_chained_step(input, Step::NeighbourSwap, next);
        lemma_settled_exchange(trace.values, start, end, right - 1, right);
        lemma_backward_pass(trace.swap(right - 1, right), right - 1, start, true, end, input);
    } else {
        lemma_backward_pass(trace, right - 1, start, exchanged, end, input);
    }
}

/// With the greatest value of the stretch at its end, the stretch without
/// its end has everything settled outside it.
proof fn lemma_settled_without_end(s: Seq<u32>, start: int, end: int)
    requires
        0 <= start <= end < s.len(),
        settled_outside(s, start, end),
        forall|k: int| start <= k <= end ==> s[k] <= s[end],
    ensures
        settled_outside(s, start, end - 1),
{
    assert forall|a: int, b: int| 0 <= a <= b < s.len() && (a < start || b > end - 1) implies s[a]
        <= s[b] by {
        if a >= start && b == end {
            assert(s[a] <= s[end]);
        }
    }
}

/// With the least value of the stretch at its start, the stretch without
/// its start has everything settled outside it.
proof fn lemma_settled_without_start(s: Seq<u32>, start: int, end: int)
    requires
        0 <= start <= end < s.len(),
        settled_outside(s, start, end),
        forall|k: int| start <= k <= end ==> s[start] <= s[k],
    ensures
        settled_outside(s, start + 1, end),
{
    assert forall|a: int, b: int| 0 <= a <= b < s.len() && (a < start + 1 || b > end) implies s[a]
        <= s[b] by {
        if a == start && b <= end {
            assert(s[start] <= s[b]);
        }
    }
}

/// Values that are settled outside a stretch and in order within it are in
/// order.
proof fn lemma_settled_and_ordered(s: Seq<u32>, start: int, end: int)
    requires
        settled_outside(s, start, end),
        forall|i: int, j: int| start <= i <= j <= end ==> s[i] <= s[j],
    ensures
        sorted(s),
{
    assert forall|i: int, j: int| 0 <= i <= j < s.len() implies s[i] <= s[j] by {
        if i < start || j > end {
        } else {
            assert(start <= i <= j <= end);
        }
    }
}

/// The rounds keep a trace chained and leave the values in order.
proof fn lemma_cocktail_rounds_sort(trace: Trace, start: int, end: int, input: Seq<u32>)
    requires
        trace.chained(input, Step::NeighbourSwap),
        0 <= start < end < trace.values.len(),
        settled_outside(trace.values, start, end),
    ensures
        cocktail_rounds(trace, start, end).chained(input, Step::NeighbourSwap),
        sorted(cocktail_rounds(trace, start, end).values),
    decreases end - start,
{
    let forward = forward_pass(trace, start, end, false);
    let forth = forward.0;
    lemma_forward_pass(trace, start, end, false, start, input);
    if !forward.1 {
        assert(cocktail_rounds(trace, start, end) == trace);
        lemma_neighbours_sorted_range(trace.values, start, end);
        lemma_settled_and_ordered(trace.values, start, end);
    } else {
        lemma_settled_without_end(forth.values, start, end);
        let backward = backward_pass(forth, end - 1, start, false);
        let back = backward.0;
        lemma_backward_pass(forth, end - 1, start, false, end - 1, input);
        lemma_settled_without_start(back.values, start, end - 1);
        if start + 1 >= end - 1 {
            assert(cocktail_rounds(trace, start, end) == back);
            lemma_settled_and_ordered(back.values, start + 1, end - 1);
        } else if !backward.1 {
            assert(cocktail_rounds(trace, start, end) == back);
            assert(back == forth);
            lemma_neighbours_sorted_range(back.values, start, end - 1);
            lemma_settled_and_ordered(back.values, start, end - 1);
        } else {
            assert(cocktail_rounds(trace, start, end) == cocktail_rounds(back, start + 1, end - 1));
            lemma_cocktail_rounds_sort(back, start + 1, end - 1, input);
        }
    }
}

/// A forward pass exchanges nothing where the values are in order.
proof fn lemma_forward_pass_rests(trace: Trace, left: int, end: int)
    requires
        sorted(trace.values),
        0 <= left,
        end < trace.values.len(),
    ensures
        forward_pass(trace, left, end, false) == (trace, false),
    decreases end - left,
{
    if left < end {
        lemma_forward_pass_rests(trace, left + 1, end);
    }
}

/// What cocktail sort records of an input that is not empty starts with
/// the input, goes on by exchanges of neighbours in the wrong order, each
/// frame holding the values of the input, and ends with them in order; it
/// is the one frame of the input where that is in order already.
pub proof fn law_cocktail_recording(input: Seq<u32>)
    requires
        input.len() > 0,
    ensures
        records_sort(input, cocktail_recording(input), Step::NeighbourSwap),
        sorted(input) ==> cocktail_recording(input) == seq![input],
{
    let start = Trace::start(input);
    assert(start.chained(input, Step::NeighbourSwap));
    if input.len() == 1 {
        start.lemma_chained_records_sort(input, Step::NeighbourSwap);
    } else {
        lemma_cocktail_rounds_sort(start, 0, input.len() - 1, input);
        cocktail_rounds(start, 0, input.len() - 1).lemma_chained_records_sort(
            input,
            Step::NeighbourSwap,
        );
        if sorted(input) {
            lemma_forward_pass_rests(start, 0, input.len() - 1);
        }
    }
}

/// Sorts a copy of `initial_values` by passes that run forward and backward
/// in turn over a shrinking stretch and exchange neighbours in the wrong
/// order, and appends to `frames` the initial values and the arrangement
/// after every exchange.
pub fn cocktail_sort_with_recording(initial_values: &[u32], frames: &mut Vec<Vec<u32>>)
    ensures
        grown(old(frames)@, final(frames)@),
        appended(old(frames)@, final(frames)@) == cocktail_recording(initial_values@),
        records_sort(initial_values@, appended(old(frames)@, final(frames)@), Step::NeighbourSwap),
        sorted(initial_values@) && initial_values@.len() > 0 ==> appended(
            old(frames)@,
            final(frames)@,
        ) == seq![initial_values@],
{
    let mut values = slice_to_vec(initial_values);
    if values.is_empty() {
        assert(appended(old(frames)@, frames@) =~= Seq::<Seq<u32>>::empty());
        return;
    }
    let ghost base = frames@;
    record_initial(frames, &values);
    let length = values.len();
    if length <= 1 {
        seal_recording(frames, values, Ghost(base));
        proof {
            law_cocktail_recording(initial_values@);
        }
        return;
    }
    let ghost whole = cocktail_rounds(Trace::start(initial_values@), 0, length - 1);
    let mut start_index: usize = 0;
    let mut end_index: usize = length - 1;
    let mut has_swapped_in_pass = true;

    while has_swapped_in_pass
        invariant
            length == values@.len(),
            grown(base, frames@),
            frames@.len() > base.len(),
            has_swapped_in_pass ==> start_index < end_index < length,
            has_swapped_in_pass ==> cocktail_rounds(
                trace_of(base, frames@, values@),
                start_index as int,
                end_index as int,
            ) == whole,
            !has_swapped_in_pass ==> trace_of(base, frames@, values@) == whole,
        decreases end_index + 1 - start_index, (if has_swapped_in_pass { 1int } else { 0int }),
    {
        has_swapped_in_pass = false;
        let ghost round_trace = trace_of(base, frames@, values@);

        let mut left_index: usize = start_index;
        while left_index < end_index
            invariant
                length == values@.len(),
                start_index <= left_index <= end_index < length,
                grown(base, frames@),
                frames@.len() > base.len(),
                forward_pass(
                    trace_of(base, frames@, values@),
                    left_index as int,
                    end_index as int,
                    has_swapped_in_pass,
                ) == forward_pass(round_trace, start_index as int, end_index as int, false),
            decreases end_index - left_index,
        {
            let right_index = left_index + 1;
            if values[left_index] > values[right_index] {
                swap_recorded(&mut values, left_index, right_index, frames, Ghost(base));
                has_swapped_in_pass = true;
            }
            left_index += 1;
        }

        if has_swapped_in_pass {
            has_swapped_in_pass = false;
            end_index -= 1;
            let ghost forth = trace_of(base, frames@, values@);

            let mut right_index: usize = end_index;
            while right_index > start_index
                invariant
                    length == values@.len(),
                    start_index <= right_index <= end_index < length - 1,
                    grown(base, frames@),
                    frames@.len() > base.len(),
                    backward_pass(
                        trace_of(base, frames@, values@),
                        right_index as int,
                        start_index as int,
                        has_swapped_in_pass,
                    ) == backward_pass(forth, end_index as int, start_index as int, false),
                decreases right_index - start_index,
            {
                let left_index = right_index - 1;
                if values[left_index] > values[right_index] {
                    swap_recorded(&mut values, left_index, right_index, frames, Ghost(base));
                    has_swapped_in_pass = true;
                }
                right_index -= 1;
            }

            start_index += 1;
            if start_index >= end_index {
                has_swapped_in_pass = false;
            }
        }
    }

    seal_recording(frames, values, Ghost(base));
    proof {
        law_cocktail_recording(initial_values@);
    }
}

} // verus!
