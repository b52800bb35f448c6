use vstd::prelude::*;
use vstd::slice::slice_to_vec;
use crate::order::{sorted, swapped};
use crate::recording::{
    appended, grown, inversion_swap_at, record_initial, records_sort, seal_recording,
    swap_recorded, trace_of, Step, Trace,
};

verus! {

/// Every value before `boundary` is at most every value after it.
pub open spec fn settled_before(s: Seq<u32>, boundary: int) -> bool {
    forall|i: int, j: int| 0 <= i <= j < s.len() && i < boundary ==> s[i] <= s[j]
}

/// The position of the first least value from `candidate` on, where `best`
/// is the position of the first least value before `candidate`.
pub open spec fn first_least(s: Seq<u32>, candidate: int, best: int) -> int
    decreases s.len() - candidate,
{
    if candidate < 0 || candidate >= s.len() {
        best
    } else if s[candidate] < s[best] {
        first_least(s, candidate + 1, candidate)
    } else {
        first_least(s, candidate + 1, best)
    }
}

/// The rounds from position `boundary` on: in each round the value at the
/// boundary changes places with the first least value from there on,
/// unless it is that value itself, and the boundary moves on by one.
pub open spec fn selection_rounds(trace: Trace, boundary: int, length: int) -> Trace
    decreases length - boundary,
{
    if boundary < 0 || boundary >= length {
        trace
    } else {
        let least = first_least(trace.values, boundary + 1, boundary);
        if least != boundary {
            selection_rounds(trace.swap(boundary, least), boundary + 1, length)
        } else {
            selection_rounds(trace, boundary + 1, length)
        }
    }
}

/// The frames that selection sort records of `input`.
pub open spec fn selection_recording(input: Seq<u32>) -> Seq<Seq<u32>> {
    if input.len() == 0 {
        Seq::empty()
    } else {
        selection_rounds(Trace::start(input), 0, input.len() as int).sealed()
    }
}

/// The first least value from `boundary` on is found: none from there on is
/// smaller, and it is smaller than the value at the boundary unless it
/// stands there.
proof fn lemma_first_least(s: Seq<u32>, candidate: int, best: int, boundary: int)
    requires
        0 <= boundary <= best < candidate <= s.len(),
        forall|k: int| boundary <= k < candidate ==> s[best] <= #[trigger] s[k],
        best != boundary ==> s[best] < s[boundary],
    ensures
        boundary <= first_least(s, candidate, best) < s.len(),
        forall|k: int|
            boundary <= k < s.len() ==> s[first_least(s, candidate, best)] <= #[trigger] s[k],
        first_least(s, candidate, best) != boundary ==> s[first_least(s, candidate, best)]
            < s[boundary],
    decreases s.len() - candidate,
{
    if candidate < s.len() {
        if s[candidate] < s[best] {
            lemma_first_least(s, candidate + 1, candidate, boundary);
        } else {
            lemma_first_least(s, candidate + 1, best, boundary);
        }
    }
}

/// Putting the least of the values from the boundary on at the boundary
/// settles one more value.
proof fn lemma_settled_one_more(s: Seq<u32>, boundary: int, least: int)
    requires
        settled_before(s, boundary),
        0 <= boundary <= least < s.len(),
        forall|k: int| boundary <= k < s.len() ==> s[least] <= #[trigger] s[k],
    ensures
        settled_before(swapped(s, boundary, least), boundary + 1),
        least == boundary ==> settled_before(s, boundary + 1),
{
    let t = swapped(s, boundary, least);
    assert forall|i: int, j: int| 0 <= i <= j < t.len() && i < boundary + 1 implies t[i]
        <= t[j] by {
        if i < boundary {
            assert(s[i] <= s[boundary]);
            assert(s[i] <= s[least]);
            assert(s[i] <= s[j]);
        } else {
            assert(s[least] <= s[j]);
            assert(s[least] <= s[boundary]);
        }
    }
    if least == boundary {
        assert(t =~= s);
    }
}

/// The rounds keep a trace chained and leave the values in order.
proof fn lemma_selection_rounds_sort(trace: Trace, boundary: int, input: Seq<u32>)
    requires
        trace.chained(input, Step::InversionSwap),
        0 <= boundary <= input.len(),
        settled_before(trace.values, boundary),
    ensures
        selection_rounds(trace, boundary, input.len() as int).chained(input, Step::InversionSwap),
        sorted(selection_rounds(trace, boundary, input.len() as int).values),
    decreases input.len() - boundary,
{
    if boundary >= input.len() {
        assert(sorted(trace.values));
    } else {
        let least = first_least(trace.values, boundary + 1, boundary);
        lemma_first_least(trace.values, boundary + 1, boundary, boundary);
        lemma_settled_one_more(trace.values, boundary, least);
        if least != boundary {
            let next = swapped(trace.values, boundary, least);
            assert(inversion_swap_at(trace.values, next, boundary, least));
            trace.lemma_chained_step(input, Step::InversionSwap, next);
            lemma_selection_rounds_sort(trace.swap(boundary, least), boundary + 1, input);
        } else {
            lemma_selection_rounds_sort(trace, boundary + 1, input);
        }
    }
}

/// The rounds change nothing where the values are in order.
proof fn lemma_selection_rounds_rest(trace: Trace, boundary: int, length: int)
    requires
        sorted(trace.values),
        0 <= boundary,
        length == trace.values.len(),
    ensures
        selection_rounds(trace, boundary, length) == trace,
    decreases length - boundary,
{
    if boundary < length {
        let least = first_least(trace.values, boundary + 1, boundary);
        lemma_first_least(trace.values, boundary + 1, boundary, boundary);
        if least != boundary {
            assert(trace.values[boundary] <= trace.values[least]);
        }
        lemma_selection_rounds_rest(trace, boundary + 1, length);
    }
}

/// What selection sort records of an input that is not empty starts with
/// the input, goes on by exchanges of values in the wrong order, each frame
/// holding the values of the input, and ends with them in order; it is the
/// one frame of the input where that is in order already.
pub proof fn law_selection_recording(input: Seq<u32>)
    requires
        input.len() > 0,
    ensures
        records_sort(input, selection_recording(input), Step::InversionSwap),
        sorted(input) ==> selection_recording(input) == seq![input],
{
    let start = Trace::start(input);
    assert(start.chained(input, Step::InversionSwap));
    lemma_selection_rounds_sort(start, 0, input);
    selection_rounds(start, 0, input.len() as int).lemma_chained_records_sort(
        input,
        Step::InversionSwap,
    );
    if sorted(input) {
        lemma_selection_rounds_rest(start, 0, input.len() as int);
    }
}

/// Sorts a copy of `initial_values` by exchanging, position by position
/// from the left, the value there with the first least value to its right
/// when that one is smaller, and appends to `frames` the initial values and
/// the arrangement after every exchange.
pub fn selection_sort_with_recording(initial_values: &[u32], frames: &mut Vec<Vec<u32>>)
    ensures
        grown(old(frames)@, final(frames)@),
        appended(old(frames)@, final(frames)@) == selection_recording(initial_values@),
        records_sort(initial_values@, appended(old(frames)@, final(frames)@), Step::InversionSwap),
        sorted(initial_values@) && initial_values@.len() > 0 ==> appended(
            old(frames)@,
            final(frames)@,
        ) == seq![initial_values@],
{
    let mut values = slice_to_vec(initial_values);
    if values.is_empty() {
        assert(appended(old(frames)@, frames@) =~= Seq::<Seq<u32>>::empty());
        return;
    }
    let ghost base = frames@;
    record_initial(frames, &values);
    let length = values.len();
    let ghost whole = selection_rounds(Trace::start(initial_values@), 0, length as int);
    let mut sorted_boundary_index: usize = 0;

    while sorted_boundary_index < length
        invariant
            length == values@.len(),
            sorted_boundary_index <= length,
            grown(base, frames@),
            frames@.len() > base.len(),
            selection_rounds(
                trace_of(base, frames@, values@),
                sorted_boundary_index as int,
                length as int,
            ) == whole,
        decreases length - sorted_boundary_index,
    {
        let mut index_of_minimum: usize = sorted_boundary_index;
        let mut candidate_index: usize = sorted_boundary_index + 1;

        while candidate_index < length
            invariant
                length == values@.len(),
                sorted_boundary_index <= index_of_minimum < candidate_index <= length,
                first_least(values@, candidate_index as int, index_of_minimum as int)
                    == first_least(
                    values@,
                    sorted_boundary_index as int + 1,
                    sorted_boundary_index as int,
                ),
            decreases length - candidate_index,
        {
            if values[candidate_index] < values[index_of_minimum] {
                index_of_minimum = candidate_index;
            }
            candidate_index += 1;
        }

        if index_of_minimum != sorted_boundary_index {
            swap_recorded(
                &mut values,
                sorted_boundary_index,
                index_of_minimum,
                frames,
                Ghost(base),
            );
        }
        sorted_boundary_index += 1;
    }

    seal_recording(frames, values, Ghost(base));
    proof {
        law_selection_recording(initial_values@);
    }
}

} // verus!
