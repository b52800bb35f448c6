use vstd::prelude::*;
use vstd::slice::slice_to_vec;
use vstd::arithmetic::power2::{lemma2_to64, lemma_pow2_adds, lemma_pow2_unfold, pow2};
use crate::order::{
    bounded_between, lemma_same_values_member, same_outside, sorted, sorted_between, swapped,
};
use crate::recording::{
    appended, grown, record_frame, record_initial, records_sort, seal_recording, swap_at,
    trace_of, Step, Trace,
};
use crate::sorting_algorithms::heap_sort::{
    heap_recording, heap_sort_with_recording, law_heap_recording,
};
use crate::sorting_algorithms::quick_sort::{
    lemma_partition_scan_within, lemma_partition_trace, partition, partition_trace,
};

verus! {

/// The number of times that `m` can be halved, rounding down, before it is
/// less than 2: the logarithm of `m` to the base 2, rounded down.
pub open spec fn halvings(m: nat) -> nat
    decreases m,
{
    if m < 2 {
        0
    } else {
        1 + halvings(m / 2)
    }
}

/// How deep the parting of `length` values may nest before a stretch is
/// sorted with a heap instead: twice the logarithm of `length` to the base
/// 2, rounded down, which is the logarithm of its square, rounded down.
pub open spec fn depth_budget(length: nat) -> nat {
    halvings(length * length)
}

/// `s` with the values of `part` in place of those that start at `start`.
pub open spec fn replaced(s: Seq<u32>, start: int, part: Seq<u32>) -> Seq<u32> {
    Seq::new(
        s.len(),
        |k: int|
            if start <= k < start + part.len() {
                part[k - start]
            } else {
                s[k]
            },
    )
}

/// The frames of `local` from position `k` on, as far as they hold `width`
/// values, are written over the values that start at `start`, one after
/// the other, and a frame shows the arrangement after each.
pub open spec fn splice(trace: Trace, start: int, local: Seq<Seq<u32>>, k: int, width: int) -> Trace
    decreases local.len() - k,
{
    if k < 0 || k >= local.len() {
        trace
    } else if local[k].len() == width {
        let values = replaced(trace.values, start, local[k]);
        splice(Trace { values, frames: trace.frames.push(values) }, start, local, k + 1, width)
    } else {
        splice(trace, start, local, k + 1, width)
    }
}

/// The sort of the values from `start` up to, not including, `end` with a
/// heap: the frames that heap sort records of the stretch, but for the
/// first, are written over the stretch.
pub open spec fn heap_range_trace(trace: Trace, start: int, end: int) -> Trace {
    if end <= start {
        trace
    } else {
        splice(trace, start, heap_recording(trace.values.subrange(start, end)), 1, end - start)
    }
}

/// The sort of the values from `start` up to, not including, `end`, with
/// `depth` levels of parting left.
pub open spec fn intro_trace(trace: Trace, start: int, end: int, depth: nat) -> Trace
    decreases end - start,
{
    if end - start <= 1 {
        trace
    } else if depth == 0 {
        heap_range_trace(trace, start, end)
    } else {
        let (parted, pivot_index) = partition_trace(trace, start, end - 1);
        proof {
            lemma_partition_scan_within(trace, start, start, end - 1, trace.values[end - 1]);
        }
        let left_done = if pivot_index > start {
            intro_trace(parted, start, pivot_index, (depth - 1) as nat)
        } else {
            parted
        };
        if pivot_index + 1 < end {
            intro_trace(left_done, pivot_index + 1, end, (depth - 1) as nat)
        } else {
            left_done
        }
    }
}

/// The frames that intro sort records of `input`.
pub open spec fn intro_recording(input: Seq<u32>) -> Seq<Seq<u32>> {
    if input.len() == 0 {
        Seq::empty()
    } else if input.len() == 1 {
        Trace::start(input).sealed()
    } else {
        intro_trace(Trace::start(input), 0, input.len() as int, depth_budget(input.len())).sealed()
    }
}

/// Writing the frames of a recording of a sort of the stretch over the
/// stretch, one after the other, keeps a trace chained and leaves the last
/// of them in the stretch; values outside it stay as they are.
proof fn lemma_splice(
    trace: Trace,
    start: int,
    local: Seq<Seq<u32>>,
    k: int,
    width: int,
    segment: Seq<u32>,
    input: Seq<u32>,
)
    requires
        trace.chained(input, Step::Swap),
        0 <= start,
        0 < width == segment.len(),
        start + width <= trace.values.len(),
        1 <= k <= local.len(),
        records_sort(segment, local, Step::Swap),
        trace.values.subrange(start, start + width) == local[k - 1],
    ensures
        splice(trace, start, local, k, width).chained(input, Step::Swap),
        splice(trace, start, local, k, width).values.subrange(start, start + width)
            == local.last(),
        same_outside(splice(trace, start, local, k, width).values, trace.values, start, start + width),
    decreases local.len() - k,
{
    if k < local.len() {
        let before = trace.values;
        let earlier = local[k - 1];
        let later = local[k];
        assert(later.len() == width);
        assert(earlier.len() == width);
        assert(Step::Swap.allows(earlier, local[k - 1 + 1]));
        let (i, j) = choose|i: int, j: int| swap_at(earlier, later, i, j);
        let values = replaced(before, start, later);
        let expected = swapped(before, start + i, start + j);
        assert(before[start + i] == earlier[i]);
        assert(before[start + j] == earlier[j]);
        assert forall|m: int| 0 <= m < values.len() implies values[m] == expected[m] by {
            if start <= m < start + width {
                assert(before[m] == earlier[m - start]);
            }
        }
        assert(values =~= expected);
        assert(swap_at(before, values, start + i, start + j));
        trace.lemma_chained_step(input, Step::Swap, values);
        let next = Trace { values, frames: trace.frames.push(values) };
        assert(values.subrange(start, start + width) =~= later);
        lemma_splice(next, start, local, k + 1, width, segment, input);
        let done = splice(next, start, local, k + 1, width);
        assert forall|m: int| 0 <= m < start || start + width <= m < done.values.len() implies #[trigger] done.values[m]
            == before[m] by {
            assert(done.values[m] == values[m]);
        }
    }
}

/// The sort of a stretch with a heap keeps a trace chained and the values
/// of the stretch within their bounds, and leaves the stretch in order;
/// values outside it stay as they are.
proof fn lemma_heap_range_trace(
    trace: Trace,
    start: int,
    end: int,
    lower: u32,
    upper: u32,
    input: Seq<u32>,
)
    requires
        trace.chained(input, Step::Swap),
        0 <= start,
        end <= trace.values.len(),
        bounded_between(trace.values, start, end, lower, upper),
    ensures
        heap_range_trace(trace, start, end).chained(input, Step::Swap),
        same_outside(heap_range_trace(trace, start, end).values, trace.values, start, end),
        bounded_between(heap_range_trace(trace, start, end).values, start, end, lower, upper),
        sorted_between(heap_range_trace(trace, start, end).values, start, end),
{
    if end > start {
        let segment = trace.values.subrange(start, end);
        let local = heap_recording(segment);
        law_heap_recording(segment);
        lemma_splice(trace, start, local, 1, end - start, segment, input);
        let done = splice(trace, start, local, 1, end - start);
        let last = local.last();
        assert forall|i: int, j: int| start <= i <= j < end implies done.values[i]
            <= done.values[j] by {
            assert(done.values[i] == done.values.subrange(start, end)[i - start]);
            assert(done.values[j] == done.values.subrange(start, end)[j - start]);
        }
        assert forall|k: int| start <= k < end implies lower <= #[trigger] done.values[k]
            <= upper by {
            assert(done.values[k] == done.values.subrange(start, end)[k - start]);
            lemma_same_values_member(last, segment, k - start);
            let m = choose|m: int| 0 <= m < segment.len() && segment[m] == last[k - start];
            assert(trace.values[start + m] == segment[m]);
        }
    }
}

/// The sort of a stretch keeps a trace chained and the values of the
/// stretch within their bounds, and leaves the stretch in order; values
/// outside it stay as they are.
proof fn lemma_intro_trace(
    trace: Trace,
    start: int,
    end: int,
    depth: nat,
    lower: u32,
    upper: u32,
    input: Seq<u32>,
)
    requires
        trace.chained(input, Step::Swap),
        0 <= start,
        end <= trace.values.len(),
        bounded_between(trace.values, start, end, lower, upper),
    ensures
        intro_trace(trace, start, end, depth).chained(input, Step::Swap),
        same_outside(intro_trace(trace, start, end, depth).values, trace.values, start, end),
        bounded_between(intro_trace(trace, start, end, depth).values, start, end, lower, upper),
        sorted_between(intro_trace(trace, start, end, depth).values, start, end),
    decreases end - start,
{
    if end - start <= 1 {
    } else if depth == 0 {
        lemma_heap_range_trace(trace, start, end, lower, upper, input);
    } else {
        let kind = Step::Swap;
        let below = (depth - 1) as nat;
        lemma_partition_trace(trace, start, end - 1, lower, upper, input, kind);
        let (parted, p) = partition_trace(trace, start, end - 1);
        let pivot = parted.values[p];
        let left_done = if p > start {
            intro_trace(parted, start, p, below)
        } else {
            parted
        };
        if p > start {
            assert(bounded_between(parted.values, start, p, lower, pivot));
            lemma_intro_trace(parted, start, p, below, lower, pivot, input);
        }
        assert(sorted_between(left_done.values, start, p));
        assert(bounded_between(left_done.values, start, p, lower, pivot));
        assert(same_outside(left_done.values, parted.values, start, p));
        let done = if p + 1 < end {
            intro_trace(left_done, p + 1, end, below)
        } else {
            left_done
        };
        if p + 1 < end {
            assert(bounded_between(left_done.values, p + 1, end, pivot, upper));
            lemma_intro_trace(left_done, p + 1, end, below, pivot, upper, input);
        }
        assert(same_outside(done.values, left_done.values, p + 1, end));
        assert(done.values[p] == pivot);
        assert(bounded_between(done.values, p + 1, end, pivot, upper));
        assert forall|i: int, j: int| start <= i <= j < end implies done.values[i]
            <= done.values[j] by {
            if j < p {
                assert(left_done.values[i] <= left_done.values[j]);
            } else if i > p {
            } else if i < p {
                assert(left_done.values[i] <= pivot);
                assert(pivot <= done.values[j]);
            } else {
                assert(pivot <= done.values[j]);
            }
        }
        assert forall|k: int| start <= k < end implies lower <= #[trigger] done.values[k]
            <= upper by {
            if k < p {
                assert(lower <= left_done.values[k] <= pivot);
            } else if k > p {
                assert(pivot <= done.values[k] <= upper);
            }
            assert(lower <= parted.values[p] <= upper);
        }
        assert forall|k: int| 0 <= k < start || end <= k < done.values.len() implies #[trigger] done.values[k]
            == trace.values[k] by {
            assert(done.values[k] == left_done.values[k]);
            assert(left_done.values[k] == parted.values[k]);
        }
    }
}

/// What intro sort records of an input that is not empty starts with the
/// input, goes on by exchanges, each frame holding the values of the
/// input, and ends with them in order; it is the one frame of the input
/// where that is a single value.
pub proof fn law_intro_recording(input: Seq<u32>)
    requires
        input.len() > 0,
    ensures
        records_sort(input, intro_recording(input), Step::Swap),
        input.len() == 1 ==> intro_recording(input) == seq![input],
{
    let start = Trace::start(input);
    assert(start.chained(input, Step::Swap));
    if input.len() == 1 {
        start.lemma_chained_records_sort(input, Step::Swap);
    } else {
        let length = input.len() as int;
        lemma_intro_trace(start, 0, length, depth_budget(input.len()), 0, u32::MAX, input);
        let done = intro_trace(start, 0, length, depth_budget(input.len()));
        assert(sorted(done.values));
        done.lemma_chained_records_sort(input, Step::Swap);
    }
}

/// A number below the `k`-th power of 2 can be halved fewer than `k`
/// times.
proof fn lemma_halvings_below(m: nat, k: nat)
    requires
        k >= 1,
        m < pow2(k),
    ensures
        halvings(m) < k,
    decreases k,
{
    lemma_pow2_unfold(k);
    if m >= 2 {
        if k == 1 {
            lemma2_to64();
        } else {
            lemma_halvings_below(m / 2, (k - 1) as nat);
        }
    }
}

/// Computes the depth budget for `length` values.
pub fn depth_limit_for(length: usize) -> (limit: usize)
    ensures
        limit == depth_budget(length as nat),
{
    proof {
        lemma2_to64();
        lemma_pow2_adds(64, 64);
        assert(length * length < 0x1_0000_0000_0000_0000 * 0x1_0000_0000_0000_0000)
            by (nonlinear_arith)
            requires
                0 <= length < 0x1_0000_0000_0000_0000,
        ;
        lemma_halvings_below((length * length) as nat, 128);
    }
    let mut rest: u128 = (length as u128) * (length as u128);
    let mut limit: usize = 0;
    while rest >= 2
        invariant
            limit + halvings(rest as nat) == depth_budget(length as nat),
            depth_budget(length as nat) < 128,
        decreases rest,
    {
        rest = rest / 2;
        limit += 1;
    }
    limit
}

/// Copies the values from `start` up to, not including, `end`.
fn copy_range(values: &Vec<u32>, start_index: usize, end_index: usize) -> (segment: Vec<u32>)
    requires
        start_index <= end_index <= values@.len(),
    ensures
        segment@ == values@.subrange(start_index as int, end_index as int),
{
    let mut segment: Vec<u32> = Vec::new();
    let mut index: usize = start_index;
    while index < end_index
        invariant
            start_index <= index <= end_index <= values@.len(),
            segment@ == values@.subrange(start_index as int, index as int),
        decreases end_index - index,
    {
        segment.push(values[index]);
        assert(segment@ =~= values@.subrange(start_index as int, index as int + 1));
        index += 1;
    }
    segment
}

/// Writes the values of `source` over those that start at `start`.
fn write_range(values: &mut Vec<u32>, start_index: usize, source: &Vec<u32>)
    requires
        start_index + source@.len() <= old(values)@.len(),
    ensures
        final(values)@ == replaced(old(values)@, start_index as int, source@),
{
    let count = source.len();
    let total = values.len();
    let mut offset: usize = 0;
    while offset < count
        invariant
            count == source@.len(),
            offset <= count,
            total == values@.len(),
            start_index + count <= total,
            values@.len() == old(values)@.len(),
            forall|k: int|
                0 <= k < start_index || start_index + offset <= k < values@.len() ==> values@[k]
                    == old(values)@[k],
            forall|k: int| 0 <= k < offset ==> values@[start_index + k] == source@[k],
        decreases count - offset,
    {
        let target = start_index + offset;
        values[target] = source[offset];
        offset += 1;
    }
    assert(values@ =~= replaced(old(values)@, start_index as int, source@));
}

/// Sorts the values from `start` up to, not including, `end` with a heap:
/// a copy of the stretch is sorted and recorded on its own, and every
/// frame of that recording but the first is written over the stretch and
/// recorded as a frame of the whole.
pub(crate) fn heap_sort_range(
    values: &mut Vec<u32>,
    start_index: usize,
    end_index: usize,
    frames: &mut Vec<Vec<u32>>,
    Ghost(base): Ghost<Seq<Vec<u32>>>,
)
    requires
        end_index <= old(values)@.len(),
        grown(base, old(frames)@),
    ensures
        final(values)@.len() == old(values)@.len(),
        grown(base, final(frames)@),
        final(frames)@.len() >= old(frames)@.len(),
        trace_of(base, final(frames)@, final(values)@) == heap_range_trace(
            trace_of(base, old(frames)@, old(values)@),
            start_index as int,
            end_index as int,
        ),
{
    if end_index <= start_index {
        return;
    }
    let ghost entry_trace = trace_of(base, frames@, values@);
    let width = end_index - start_index;

    let segment: Vec<u32> = copy_range(values, start_index, end_index);
    let mut local_frames: Vec<Vec<u32>> = Vec::new();

    heap_sort_with_recording(segment.as_slice(), &mut local_frames);
    let ghost local = appended(Seq::<Vec<u32>>::empty(), local_frames@);

    // map segment frames to full array, skipping the initial frame
    let count = local_frames.len();
    let mut frame_index: usize = 1;
    while frame_index < count
        invariant
            1 <= frame_index,
            count == local_frames@.len(),
            local == appended(Seq::<Vec<u32>>::empty(), local_frames@),
            width == end_index - start_index,
            start_index < end_index <= values@.len(),
            values@.len() == old(values)@.len(),
            grown(base, frames@),
            frames@.len() >= old(frames)@.len(),
            splice(
                trace_of(base, frames@, values@),
                start_index as int,
                local,
                frame_index as int,
                width as int,
            ) == splice(entry_trace, start_index as int, local, 1, width as int),
        decreases count - frame_index,
    {
        let segment_state = &local_frames[frame_index];
        assert(local[frame_index as int] == segment_state@);
        if segment_state.len() == width {
            write_range(values, start_index, segment_state);
            record_frame(frames, values, Ghost(base));
        }
        frame_index += 1;
    }
}

/// Parts the values from `start` up to, not including, `end` around the
/// last of them and returns the final position of that pivot.
pub(crate) fn partition_range(
    values: &mut Vec<u32>,
    start_index: usize,
    end_index: usize,
    frames: &mut Vec<Vec<u32>>,
    Ghost(base): Ghost<Seq<Vec<u32>>>,
) -> (store_index: usize)
    requires
        start_index < end_index <= old(values)@.len(),
        grown(base, old(frames)@),
    ensures
        start_index <= store_index < end_index,
        final(values)@.len() == old(values)@.len(),
        grown(base, final(frames)@),
        final(frames)@.len() >= old(frames)@.len(),
        (trace_of(base, final(frames)@, final(values)@), store_index as int) == partition_trace(
            trace_of(base, old(frames)@, old(values)@),
            start_index as int,
            end_index - 1,
        ),
{
    partition(values, start_index, end_index - 1, frames, Ghost(base))
}

/// Sorts the values from `start` up to, not including, `end`: while the
/// depth limit is not used up the stretch is parted around its last value
/// and the two sides are sorted in the same way with a limit one less, the
/// left side first; a stretch that meets the limit 0 is sorted with a
/// heap.
pub(crate) fn intro_sort_recursive(
    values: &mut Vec<u32>,
    start_index: usize,
    end_index: usize,
    depth_limit: usize,
    frames: &mut Vec<Vec<u32>>,
    Ghost(base): Ghost<Seq<Vec<u32>>>,
)
    requires
        end_index <= old(values)@.len(),
        grown(base, old(frames)@),
    ensures
        final(values)@.len() == old(values)@.len(),
        grown(base, final(frames)@),
        final(frames)@.len() >= old(frames)@.len(),
        trace_of(base, final(frames)@, final(values)@) == intro_trace(
            trace_of(base, old(frames)@, old(values)@),
            start_index as int,
            end_index as int,
            depth_limit as nat,
        ),
    decreases end_index - start_index,
{
    if end_index <= start_index || end_index - start_index <= 1 {
        return;
    }
    if depth_limit == 0 {
        heap_sort_range(values, start_index, end_index, frames, Ghost(base));
        return;
    }
    let pivot_final_index = partition_range(values, start_index, end_index, frames, Ghost(base));

    if pivot_final_index > start_index {
        intro_sort_recursive(
            values,
            start_index,
            pivot_final_index,
            depth_limit - 1,
            frames,
            Ghost(base),
        );
    }
    if pivot_final_index + 1 < end_index {
        intro_sort_recursive(
            values,
            pivot_final_index + 1,
            end_index,
            depth_limit - 1,
            frames,
            Ghost(base),
        );
    }
}

/// Sorts a copy of `initial_values` by parting stretches around their last
/// value, to a nesting depth of at most `depth_budget` of the length, and
/// with a heap below that depth. Appends to `frames` the initial values
/// and the arrangement after every exchange.
pub fn intro_sort_with_recording(initial_values: &[u32], frames: &mut Vec<Vec<u32>>)
    ensures
        grown(old(frames)@, final(frames)@),
        appended(old(frames)@, final(frames)@) == intro_recording(initial_values@),
        records_sort(initial_values@, appended(old(frames)@, final(frames)@), Step::Swap),
        initial_values@.len() == 1 ==> appended(old(frames)@, final(frames)@)
            == seq![initial_values@],
{
    let mut values = slice_to_vec(initial_values);
    if values.is_empty() {
        assert(appended(old(frames)@, frames@) =~= Seq::<Seq<u32>>::empty());
        return;
    }
    let ghost base = frames@;
    record_initial(frames, &values);

    let length = values.len();
    if length > 1 {
        let depth_limit = depth_limit_for(length);
        intro_sort_recursive(&mut values, 0, length, depth_limit, frames, Ghost(base));
    }
    seal_recording(frames, values, Ghost(base));
    proof {
        law_intro_recording(initial_values@);
    }
}

} // verus!
