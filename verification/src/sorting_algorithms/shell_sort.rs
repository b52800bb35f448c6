use vstd::prelude::*;
use vstd::slice::slice_to_vec;
use crate::order::{lemma_walk_back, lemma_walk_done, ordered_but, sorted, sorted_between, swapped};
use crate::recording::{
    appended, grown, inversion_swap_at, record_initial, records_sort, seal_recording,
    swap_recorded, trace_of, Step, Trace,
};

verus! {

/// The value at `insert` moves back: while the value `gap` positions
/// before it is greater, the two change places.
pub open spec fn shell_insert(trace: Trace, insert: int, gap: int) -> Trace
    decreases insert,
{
    if gap <= 0 || insert < gap || !(trace.values[insert - gap] > trace.values[insert]) {
        trace
    } else {
        shell_insert(trace.swap(insert, insert - gap), insert - gap, gap)
    }
}

/// A pass with one gap, from position `current` on: each value in turn
/// moves back.
pub open spec fn shell_pass(trace: Trace, current: int, gap: int, length: int) -> Trace
    decreases length - current,
{
    if gap <= 0 || current < gap || current >= length {
        trace
    } else {
        shell_pass(shell_insert(trace, current, gap), current + 1, gap, length)
    }
}

/// Passes with the gap `gap`, half of it, and so on down to 1.
pub open spec fn shell_passes(trace: Trace, gap: int, length: int) -> Trace
    decreases gap,
{
    if gap <= 0 {
        trace
    } else {
        shell_passes(shell_pass(trace, gap, gap, length), gap / 2, length)
    }
}

/// The frames that shell sort records of `input`.
pub open spec fn shell_recording(input: Seq<u32>) -> Seq<Seq<u32>> {
    if input.len() == 0 {
        Seq::empty()
    } else {
        shell_passes(Trace::start(input), (input.len() / 2) as int, input.len() as int).sealed()
    }
}

/// Moving a value back keeps a trace chained; with the gap 1 it leaves the
/// values up to `current` in order.
proof fn lemma_shell_insert_chained(trace: Trace, insert: int, gap: int, current: int, input: Seq<u32>)
    requires
        trace.chained(input, Step::InversionSwap),
        gap >= 1,
        0 <= insert <= current < trace.values.len(),
        gap == 1 ==> ordered_but(trace.values, insert, current),
    ensures
        shell_insert(trace, insert, gap).chained(input, Step::InversionSwap),
        gap == 1 ==> sorted_between(shell_insert(trace, insert, gap).values, 0, current + 1),
    decreases insert,
{
    if insert < gap || !(trace.values[insert - gap] > trace.values[insert]) {
        if gap == 1 {
            lemma_walk_done(trace.values, insert, current);
        }
    } else {
        let next = swapped(trace.values, insert, insert - gap);
        assert(next =~= swapped(trace.values, insert - gap, insert));
        assert(inversion_swap_at(trace.values, next, insert - gap, insert));
        trace.lemma_chained_step(input, Step::InversionSwap, next);
        if gap == 1 {
            lemma_walk_back(trace.values, insert, current);
        }
        lemma_shell_insert_chained(trace.swap(insert, insert - gap), insert - gap, gap, current, input);
    }
}

/// A pass keeps a trace chained; with the gap 1 it leaves the values in
/// order.
proof fn lemma_shell_pass_chained(trace: Trace, current: int, gap: int, input: Seq<u32>)
    requires
        trace.chained(input, Step::InversionSwap),
        1 <= gap <= current <= input.len(),
        gap == 1 ==> sorted_between(trace.values, 0, current),
    ensures
        shell_pass(trace, current, gap, input.len() as int).chained(input, Step::InversionSwap),
        gap == 1 ==> sorted(shell_pass(trace, current, gap, input.len() as int).values),
    decreases input.len() - current,
{
    if current < input.len() {
        lemma_shell_insert_chained(trace, current, gap, current, input);
        lemma_shell_pass_chained(shell_insert(trace, current, gap), current + 1, gap, input);
    }
}

/// The passes keep a trace chained and leave the values in order.
proof fn lemma_shell_passes_sort(trace: Trace, gap: int, input: Seq<u32>)
    requires
        trace.chained(input, Step::InversionSwap),
        0 <= gap <= input.len(),
        gap == 0 ==> sorted(trace.values),
    ensures
        shell_passes(trace, gap, input.len() as int).chained(input, Step::InversionSwap),
        sorted(shell_passes(trace, gap, input.len() as int).values),
    decreases gap,
{
    if gap > 0 {
        lemma_shell_pass_chained(trace, gap, gap, input);
        lemma_shell_passes_sort(shell_pass(trace, gap, gap, input.len() as int), gap / 2, input);
    }
}

/// A value in its place stays there.
proof fn lemma_shell_insert_rests(trace: Trace, insert: int, gap: int)
    requires
        sorted(trace.values),
        gap >= 1,
        insert < trace.values.len(),
    ensures
        shell_insert(trace, insert, gap) == trace,
{
}

/// A pass changes nothing where the values are in order.
proof fn lemma_shell_pass_rests(trace: Trace, current: int, gap: int, length: int)
    requires
        sorted(trace.values),
        length == trace.values.len(),
    ensures
        shell_pass(trace, current, gap, length) == trace,
    decreases length - current,
{
    if gap <= 0 || current < gap || current >= length {
    } else {
        lemma_shell_insert_rests(trace, current, gap);
        lemma_shell_pass_rests(trace, current + 1, gap, length);
    }
}

/// The passes change nothing where the values are in order.
proof fn lemma_shell_passes_rest(trace: Trace, gap: int, length: int)
    requires
        sorted(trace.values),
        length == trace.values.len(),
    ensures
        shell_passes(trace, gap, length) == trace,
    decreases gap,
{
    if gap > 0 {
        lemma_shell_pass_rests(trace, gap, gap, length);
        lemma_shell_passes_rest(trace, gap / 2, length);
    }
}

/// What shell sort records of an input that is not empty starts with the
/// input, goes on by exchanges of values in the wrong order, each frame
/// holding the values of the input, and ends with them in order; it is the
/// one frame of the input where that is in order already.
pub proof fn law_shell_recording(input: Seq<u32>)
    requires
        input.len() > 0,
    ensures
        records_sort(input, shell_recording(input), Step::InversionSwap),
        sorted(input) ==> shell_recording(input) == seq![input],
{
    let start = Trace::start(input);
    let gap = (input.len() / 2) as int;
    assert(start.chained(input, Step::InversionSwap));
    lemma_shell_passes_sort(start, gap, input);
    shell_passes(start, gap, input.len() as int).lemma_chained_records_sort(
        input,
        Step::InversionSwap,
    );
    if sorted(input) {
        lemma_shell_passes_rest(start, gap, input.len() as int);
    }
}

/// Sorts a copy of `initial_values` by insertion passes over values a gap
/// apart; the gap starts at half the length and is halved after every
/// pass. Within a pass each value moves back by exchanges with the value a
/// gap before it while that one is greater. Appends to `frames` the initial
/// values and the arrangement after every exchange.
pub fn shell_sort_with_recording(initial_values: &[u32], frames: &mut Vec<Vec<u32>>)
    ensures
        grown(old(frames)@, final(frames)@),
        appended(old(frames)@, final(frames)@) == shell_recording(initial_values@),
        records_sort(initial_values@, appended(old(frames)@, final(frames)@), Step::InversionSwap),
        sorted(initial_values@) && initial_values@.len() > 0 ==> appended(
            old(frames)@,
            final(frames)@,
        ) == seq![initial_values@],
{
    let mut values = slice_to_vec(initial_values);
    if values.is_empty() {
        assert(appended(old(frames)@, frames@) =~= Seq::<Seq<u32>>::empty());
        return;
    }
    let ghost base = frames@;
    record_initial(frames, &values);
    let length = values.len();
    let ghost whole = shell_passes(
        Trace::start(initial_values@),
        (length / 2) as int,
        length as int,
    );
    let mut gap_size: usize = length / 2;

    while gap_size > 0
        invariant
            length == values@.len(),
            gap_size <= length / 2,
            grown(base, frames@),
            frames@.len() > base.len(),
            shell_passes(trace_of(base, frames@, values@), gap_size as int, length as int)
                == whole,
        decreases gap_size,
    {
        let mut current_index: usize = gap_size;
        let ghost pass_trace = trace_of(base, frames@, values@);

        while current_index < length
            invariant
                length == values@.len(),
                1 <= gap_size <= current_index <= length,
                grown(base, frames@),
                frames@.len() > base.len(),
                shell_pass(
                    trace_of(base, frames@, values@),
                    current_index as int,
                    gap_size as int,
                    length as int,
                ) == shell_pass(pass_trace, gap_size as int, gap_size as int, length as int),
            decreases length - current_index,
        {
            let mut insert_index: usize = current_index;
            let ghost insert_trace = trace_of(base, frames@, values@);

            while insert_index >= gap_size && values[insert_index - gap_size] > values[insert_index as usize]
                invariant
                    length == values@.len(),
                    1 <= gap_size <= current_index < length,
                    insert_index <= current_index,
                    grown(base, frames@),
                    frames@.len() > base.len(),
                    shell_insert(
                        trace_of(base, frames@, values@),
                        insert_index as int,
                        gap_size as int,
                    ) == shell_insert(insert_trace, current_index as int, gap_size as int),
                decreases insert_index,
            {
                swap_recorded(
                    &mut values,
                    insert_index,
                    insert_index - gap_size,
                    frames,
                    Ghost(base),
                );
                insert_index -= gap_size;
            }
            current_index += 1;
        }

        gap_size /= 2;
    }

    seal_recording(frames, values, Ghost(base));
    proof {
        law_shell_recording(initial_values@);
    }
}

} // verus!
