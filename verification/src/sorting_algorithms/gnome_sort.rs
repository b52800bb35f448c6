use vstd::prelude::*;
use vstd::slice::slice_to_vec;
use crate::order::{lemma_walk_back, lemma_walk_done, ordered_but, sorted, swapped};
use crate::recording::{
    appended, grown, neighbour_swap_at, record_initial, records_sort, seal_recording,
    swap_recorded, trace_of, Step, Trace,
};

verus! {

/// The walk from the position `current` on, where `resume` is the position
/// at which the value that is walking back set out: a value that is not
/// smaller than its left neighbour stays, and the walk goes on behind
/// `resume`; a smaller one changes places with that neighbour and walks on
/// from there, or, having reached the front, lets the walk go on behind
/// `resume`.
pub open spec fn gnome_walk(trace: Trace, current: int, resume: int) -> Trace
    decreases trace.values.len() - resume, current,
{
    if current < 1 || resume < current || resume >= trace.values.len() {
        trace
    } else if trace.values[current - 1] <= trace.values[current] {
        gnome_walk(trace, resume + 1, resume + 1)
    } else if current > 1 {
        gnome_walk(trace.swap(current - 1, current), current - 1, resume)
    } else {
        gnome_walk(trace.swap(current - 1, current), resume + 1, resume + 1)
    }
}

/// The frames that gnome sort records of `input`.
pub open spec fn gnome_recording(input: Seq<u32>) -> Seq<Seq<u32>> {
    if input.len() == 0 {
        Seq::empty()
    } else if input.len() == 1 {
        Trace::start(input).sealed()
    } else {
        gnome_walk(Trace::start(input), 1, 1).sealed()
    }
}

/// The walk keeps a trace chained and leaves the values in order.
proof fn lemma_gnome_walk_sorts(trace: Trace, current: int, resume: int, input: Seq<u32>)
    requires
        trace.chained(input, Step::NeighbourSwap),
        1 <= current <= resume <= trace.values.len(),
        resume == trace.values.len() ==> current == resume,
        ordered_but(trace.values, current, resume),
    ensures
        gnome_walk(trace, current, resume).chained(input, Step::NeighbourSwap),
        sorted(gnome_walk(trace, current, resume).values),
    decreases trace.values.len() - resume, current,
{
    if resume >= trace.values.len() {
        assert(sorted(trace.values));
    } else if trace.values[current - 1] <= trace.values[current] {
        lemma_walk_done(trace.values, current, resume);
        lemma_gnome_walk_sorts(trace, resume + 1, resume + 1, input);
    } else {
        let next = swapped(trace.values, current - 1, current);
        assert(neighbour_swap_at(trace.values, next, current - 1));
        trace.lemma_chained_step(input, Step::NeighbourSwap, next);
        lemma_walk_back(trace.values, current, resume);
        if current > 1 {
            lemma_gnome_walk_sorts(trace.swap(current - 1, current), current - 1, resume, input);
        } else {
            lemma_walk_done(next, 0, resume);
            lemma_gnome_walk_sorts(trace.swap(current - 1, current), resume + 1, resume + 1, input);
        }
    }
}

/// The walk changes nothing where the values are in order.
proof fn lemma_gnome_walk_rests(trace: Trace, current: int, resume: int)
    requires
        sorted(trace.values),
    ensures
        gnome_walk(trace, current, resume) == trace,
    decreases trace.values.len() - resume,
{
    if current < 1 || resume < current || resume >= trace.values.len() {
    } else {
        lemma_gnome_walk_rests(trace, resume + 1, resume + 1);
    }
}

/// What gnome sort records of an input that is not empty starts with the
/// input, goes on by exchanges of neighbours in the wrong order, each frame
/// holding the values of the input, and ends with them in order; it is the
/// one frame of the input where that is in order already.
pub proof fn law_gnome_recording(input: Seq<u32>)
    requires
        input.len() > 0,
    ensures
        records_sort(input, gnome_recording(input), Step::NeighbourSwap),
        sorted(input) ==> gnome_recording(input) == seq![input],
{
    let start = Trace::start(input);
    assert(start.chained(input, Step::NeighbourSwap));
    if input.len() == 1 {
        start.lemma_chained_records_sort(input, Step::NeighbourSwap);
    } else {
        lemma_gnome_walk_sorts(start, 1, 1, input);
        gnome_walk(start, 1, 1).lemma_chained_records_sort(input, Step::NeighbourSwap);
        if sorted(input) {
            lemma_gnome_walk_rests(start, 1, 1);
        }
    }
}

/// Sorts a copy of `initial_values` by walking each value back, one
/// exchange with its left neighbour at a time, until that neighbour is not
/// greater, and appends to `frames` the initial values and the arrangement
/// after every exchange.
pub fn gnome_sort_with_recording(initial_values: &[u32], frames: &mut Vec<Vec<u32>>)
    ensures
        grown(old(frames)@, final(frames)@),
        appended(old(frames)@, final(frames)@) == gnome_recording(initial_values@),
        records_sort(initial_values@, appended(old(frames)@, final(frames)@), Step::NeighbourSwap),
        sorted(initial_values@) && initial_values@.len() > 0 ==> appended(
            old(frames)@,
            final(frames)@,
        ) == seq![initial_values@],
{
    let mut values = slice_to_vec(initial_values);
    if values.is_empty() {
        assert(appended(old(frames)@, frames@) =~= Seq::<Seq<u32>>::empty());
        return;
    }
    let ghost base = frames@;
    record_initial(frames, &values);
    let length = values.len();
    if length <= 1 {
        seal_recording(frames, values, Ghost(base));
        proof {
            law_gnome_recording(initial_values@);
        }
        return;
    }
    let ghost whole = gnome_walk(Trace::start(initial_values@), 1, 1);
    // `resume_index` is the position at which the value that is walking
    // back set out; the walk goes on behind it.
    let mut current_index: usize = 1;
    let mut resume_index: usize = 1;

    while current_index < length
        invariant
            length == values@.len(),
            1 <= current_index <= resume_index <= length,
            resume_index == length ==> current_index == length,
            grown(base, frames@),
            frames@.len() > base.len(),
            gnome_walk(trace_of(base, frames@, values@), current_index as int, resume_index as int)
                == whole,
        decreases length - resume_index, current_index,
    {
        if values[current_index - 1] <= values[current_index] {
            resume_index += 1;
            current_index = resume_index;
        } else {
            swap_recorded(&mut values, current_index - 1, current_index, frames, Ghost(base));
            if current_index > 1 {
                current_index -= 1;
            } else {
                resume_index += 1;
                current_index = resume_index;
            }
        }
    }

    seal_recording(frames, values, Ghost(base));
    proof {
        law_gnome_recording(initial_values@);
    }
}

} // verus!
