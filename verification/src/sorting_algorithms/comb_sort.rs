use vstd::prelude::*;
use vstd::slice::slice_to_vec;
use crate::order::{
    lemma_inversion_swap_weight, lemma_neighbours_sorted, lemma_position_weight_limit,
    position_weight, sorted, swapped, weight_limit,
};
use crate::recording::{
    appended, grown, inversion_swap_at, record_initial, records_sort, seal_recording,
    swap_recorded, trace_of, Step, Trace,
};

verus! {

/// The gap that follows `gap`: `gap` divided by 1.3 and rounded down, but
/// at least 1.
pub open spec fn shrunk_gap(gap: nat) -> nat {
    if gap * 10 / 13 < 1 {
        1
    } else {
        gap * 10 / 13
    }
}

/// Values that lie `gap` positions apart are in order.
pub open spec fn gap_ordered(s: Seq<u32>, gap: int) -> bool {
    forall|k: int| 0 <= k && k + gap < s.len() ==> s[k] <= #[trigger] s[k + gap]
}

/// A pass, from position `left` on: values `gap` positions apart that are
/// in the wrong order change places, from left to right. The flag tells
/// whether any did, in this part of the pass or before it.
pub open spec fn comb_pass(trace: Trace, left: int, gap: int, exchanged: bool) -> (Trace, bool)
    decreases trace.values.len() - left,
{
    if left < 0 || gap <= 0 || left + gap >= trace.values.len() {
        (trace, exchanged)
    } else if trace.values[left] > trace.values[left + gap] {
        comb_pass(trace.swap(left, left + gap), left + 1, gap, true)
    } else {
        comb_pass(trace, left + 1, gap, exchanged)
    }
}

/// Passes with shrinking gaps: while the gap of the pass before is greater
/// than 1, or that pass has exchanged values, the gap shrinks and another
/// pass follows.
pub open spec fn comb_passes(trace: Trace, gap: nat, exchanged: bool) -> Trace
    decreases
        gap,
        weight_limit(trace.values.len()) - position_weight(trace.values),
        (if exchanged { 1int } else { 0int }),
{
    if gap >= 1 && (gap > 1 || exchanged) {
        let (after, again) = comb_pass(trace, 0, shrunk_gap(gap) as int, false);
        proof {
            lemma_comb_pass_weight(trace, 0, shrunk_gap(gap) as int, false);
        }
        comb_passes(after, shrunk_gap(gap), again)
    } else {
        trace
    }
}

/// The frames that comb sort records of `input`.
pub open spec fn comb_recording(input: Seq<u32>) -> Seq<Seq<u32>> {
    if input.len() == 0 {
        Seq::empty()
    } else if input.len() == 1 {
        Trace::start(input).sealed()
    } else {
        comb_passes(Trace::start(input), input.len(), true).sealed()
    }
}

/// A pass keeps the number of values and never lowers their weight; a pass
/// that exchanges values raises it.
pub proof fn lemma_comb_pass_weight(trace: Trace, left: int, gap: int, exchanged: bool)
    ensures
        comb_pass(trace, left, gap, exchanged).0.values.len() == trace.values.len(),
        position_weight(comb_pass(trace, left, gap, exchanged).0.values) >= position_weight(
            trace.values,
        ),
        comb_pass(trace, left, gap, exchanged).1 && !exchanged ==> position_weight(
            comb_pass(trace, left, gap, exchanged).0.values,
        ) > position_weight(trace.values),
        0 <= position_weight(comb_pass(trace, left, gap, exchanged).0.values) <= weight_limit(
            trace.values.len(),
        ),
    decreases trace.values.len() - left,
{
    lemma_position_weight_limit(trace.values);
    if left < 0 || gap <= 0 || left + gap >= trace.values.len() {
    } else if trace.values[left] > trace.values[left + gap] {
        lemma_inversion_swap_weight(trace.values, left, left + gap);
        lemma_comb_pass_weight(trace.swap(left, left + gap), left + 1, gap, true);
    } else {
        lemma_comb_pass_weight(trace, left + 1, gap, exchanged);
    }
}

/// A pass keeps a trace chained; one that exchanges nothing leaves the
/// values as they are, with the values `gap` apart from `left` on in order.
proof fn lemma_comb_pass_chained(trace: Trace, left: int, gap: int, exchanged: bool, input: Seq<u32>)
    requires
        trace.chained(input, Step::InversionSwap),
        0 <= left,
        gap >= 1,
    ensures
        comb_pass(trace, left, gap, exchanged).0.chained(input, Step::InversionSwap),
        exchanged ==> comb_pass(trace, left, gap, exchanged).1,
        !comb_pass(trace, left, gap, exchanged).1 ==> comb_pass(trace, left, gap, exchanged).0
            == trace && forall|k: int|
            left <= k && k + gap < trace.values.len() ==> trace.values[k]
                <= #[trigger] trace.values[k + gap],
    decreases trace.values.len() - left,
{
    if left + gap >= trace.values.len() {
    } else if trace.values[left] > trace.values[left + gap] {
        let next = swapped(trace.values, left, left + gap);
        assert(inversion_swap_at(trace.values, next, left, left + gap));
        trace.lemma_chained_step(input, Step::InversionSwap, next);
        lemma_comb_pass_chained(trace.swap(left, left + gap), left + 1, gap, true, input);
    } else {
        lemma_comb_pass_chained(trace, left + 1, gap, exchanged, input);
    }
}

/// The passes keep a trace chained and leave the values in order.
proof fn lemma_comb_passes_sort(trace: Trace, gap: nat, exchanged: bool, input: Seq<u32>)
    requires
        trace.chained(input, Step::InversionSwap),
        gap >= 1,
        !exchanged ==> gap_ordered(trace.values, gap as int),
    ensures
        comb_passes(trace, gap, exchanged).chained(input, Step::InversionSwap),
        sorted(comb_passes(trace, gap, exchanged).values),
    decreases
        gap,
        weight_limit(trace.values.len()) - position_weight(trace.values),
        (if exchanged { 1int } else { 0int }),
{
    if gap > 1 || exchanged {
        let pass = comb_pass(trace, 0, shrunk_gap(gap) as int, false);
        lemma_comb_pass_chained(trace, 0, shrunk_gap(gap) as int, false, input);
        lemma_comb_pass_weight(trace, 0, shrunk_gap(gap) as int, false);
        lemma_comb_passes_sort(pass.0, shrunk_gap(gap), pass.1, input);
    } else {
        assert forall|k: int| 0 <= k < trace.values.len() - 1 implies trace.values[k]
            <= #[trigger] trace.values[k + 1] by {
            assert(trace.values[k] <= trace.values[k + gap]);
        }
        lemma_neighbours_sorted(trace.values);
    }
}

/// A pass exchanges nothing where the values are in order.
proof fn lemma_comb_pass_rests(trace: Trace, left: int, gap: int)
    requires
        sorted(trace.values),
        0 <= left,
        gap >= 1,
    ensures
        comb_pass(trace, left, gap, false) == (trace, false),
    decreases trace.values.len() - left,
{
    if left + gap < trace.values.len() {
        lemma_comb_pass_rests(trace, left + 1, gap);
    }
}

/// The passes change nothing where the values are in order.
proof fn lemma_comb_passes_rest(trace: Trace, gap: nat, exchanged: bool)
    requires
        sorted(trace.values),
    ensures
        comb_passes(trace, gap, exchanged) == trace,
    decreases gap, (if exchanged { 1int } else { 0int }),
{
    if gap >= 1 && (gap > 1 || exchanged) {
        lemma_comb_pass_rests(trace, 0, shrunk_gap(gap) as int);
        lemma_comb_passes_rest(trace, shrunk_gap(gap), false);
    }
}

/// What comb sort records of an input that is not empty starts with the
/// input, goes on by exchanges of values in the wrong order, each frame
/// holding the values of the input, and ends with them in order; it is the
/// one frame of the input where that is in order already.
pub proof fn law_comb_recording(input: Seq<u32>)
    requires
        input.len() > 0,
    ensures
        records_sort(input, comb_recording(input), Step::InversionSwap),
        sorted(input) ==> comb_recording(input) == seq![input],
{
    let start = Trace::start(input);
    assert(start.chained(input, Step::InversionSwap));
    if input.len() == 1 {
        start.lemma_chained_records_sort(input, Step::InversionSwap);
    } else {
        lemma_comb_passes_sort(start, input.len(), true, input);
        comb_passes(start, input.len(), true).lemma_chained_records_sort(
            input,
            Step::InversionSwap,
        );
        if sorted(input) {
            lemma_comb_passes_rest(start, input.len(), true);
        }
    }
}

/// Computes the gap that follows `gap`.
pub fn shrink_gap(gap: usize) -> (result: usize)
    ensures
        result == shrunk_gap(gap as nat),
        1 <= result,
        gap >= 2 ==> result < gap,
{
    let shrunk = (gap / 13) * 10 + (gap % 13) * 10 / 13;
    assert(shrunk == gap * 10 / 13);
    if shrunk < 1 {
        1
    } else {
        shrunk
    }
}

/// Sorts a copy of `initial_values` by passes that compare values a gap
/// apart and exchange those in the wrong order; the gap starts at the
/// length and shrinks by the factor 1.3 before every pass, and the passes
/// end when the gap is 1 and a pass exchanges nothing. Appends to `frames`
/// the initial values and the arrangement after every exchange.
pub fn comb_sort_with_recording(initial_values: &[u32], frames: &mut Vec<Vec<u32>>)
    ensures
        grown(old(frames)@, final(frames)@),
        appended(old(frames)@, final(frames)@) == comb_recording(initial_values@),
        records_sort(initial_values@, appended(old(frames)@, final(frames)@), Step::InversionSwap),
        sorted(initial_values@) && initial_values@.len() > 0 ==> appended(
            old(frames)@,
            final(frames)@,
        ) == seq![initial_values@],
{
    let mut values = slice_to_vec(initial_values);
    if values.is_empty() {
        assert(appended(old(frames)@, frames@) =~= Seq::<Seq<u32>>::empty());
        return;
    }
    let ghost base = frames@;
    record_initial(frames, &values);
    let length = values.len();
    if length <= 1 {
        seal_recording(frames, values, Ghost(base));
        proof {
            law_comb_recording(initial_values@);
        }
        return;
    }
    let ghost whole = comb_passes(Trace::start(initial_values@), length as nat, true);
    let mut gap_size: usize = length;
    let mut swap_performed_in_pass = true;

    while gap_size > 1 || swap_performed_in_pass
        invariant
            length == values@.len(),
            1 <= gap_size <= length,
            grown(base, frames@),
            frames@.len() > base.len(),
            comb_passes(trace_of(base, frames@, values@), gap_size as nat, swap_performed_in_pass)
                == whole,
        decreases
            gap_size,
            weight_limit(length as nat) - position_weight(values@),
            (if swap_performed_in_pass { 1int } else { 0int }),
    {
        gap_size = shrink_gap(gap_size);
        swap_performed_in_pass = false;
        let ghost pass_trace = trace_of(base, frames@, values@);
        proof {
            lemma_comb_pass_weight(pass_trace, 0, gap_size as int, false);
        }

        let mut left_index: usize = 0;
        while left_index < length - gap_size
            invariant
                length == values@.len(),
                1 <= gap_size <= length,
                left_index <= length - gap_size,
                grown(base, frames@),
                frames@.len() > base.len(),
                comb_pass(
                    trace_of(base, frames@, values@),
                    left_index as int,
                    gap_size as int,
                    swap_performed_in_pass,
                ) == comb_pass(pass_trace, 0, gap_size as int, false),
            decreases length - gap_size - left_index,
        {
            let right_index = left_index + gap_size;
            if values[left_index] > values[right_index] {
                swap_recorded(&mut values, left_index, right_index, frames, Ghost(base));
                swap_performed_in_pass = true;
            }
            left_index += 1;
        }
    }

    seal_recording(frames, values, Ghost(base));
    proof {
        law_comb_recording(initial_values@);
    }
}

} // verus!
