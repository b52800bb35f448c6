use vstd::prelude::*;
use vstd::slice::slice_to_vec;
use crate::order::{
    bounded_between, same_outside, sorted, sorted_between, strictly_increasing,
    strictly_increasing_between, swapped,
};
use crate::recording::{
    appended, descent_swap_at, grown, record_initial, records_sort, seal_recording, swap_at,
    swap_recorded, trace_of, Step, Trace,
};

verus! {

/// The scan of a parting, from position `scan` on up to `high`: each value
/// smaller than `pivot` goes to the position `store`, by an exchange where
/// it is not there already, and `store` moves on by one. Gives the sort
/// after the scan and the position `store` that it ends with.
pub open spec fn partition_scan(trace: Trace, scan: int, store: int, high: int, pivot: u32) -> (
    Trace,
    int,
)
    decreases high - scan,
{
    if scan >= high {
        (trace, store)
    } else if trace.values[scan] < pivot {
        if scan != store {
            partition_scan(trace.swap(store, scan), scan + 1, store + 1, high, pivot)
        } else {
            partition_scan(trace, scan + 1, store + 1, high, pivot)
        }
    } else {
        partition_scan(trace, scan + 1, store, high, pivot)
    }
}

/// The parting of the values from `low` to `high` around the value at
/// `high`: after the scan the pivot changes places with the value at the
/// position that the scan ended with, unless it stands there itself. Gives
/// the sort after the parting and the position of the pivot.
pub open spec fn partition_trace(trace: Trace, low: int, high: int) -> (Trace, int) {
    let (scanned, store) = partition_scan(trace, low, low, high, trace.values[high]);
    if store != high {
        (scanned.swap(store, high), store)
    } else {
        (scanned, store)
    }
}

/// The scan ends with a position between the one it started with and
/// `high`.
pub proof fn lemma_partition_scan_within(trace: Trace, scan: int, store: int, high: int, pivot: u32)
    requires
        store <= scan <= high,
    ensures
        store <= partition_scan(trace, scan, store, high, pivot).1 <= high,
    decreases high - scan,
{
    if scan >= high {
    } else if trace.values[scan] < pivot {
        if scan != store {
            lemma_partition_scan_within(trace.swap(store, scan), scan + 1, store + 1, high, pivot);
        } else {
            lemma_partition_scan_within(trace, scan + 1, store + 1, high, pivot);
        }
    } else {
        lemma_partition_scan_within(trace, scan + 1, store, high, pivot);
    }
}

/// The sort of the values from `low` to `high`, both included.
pub open spec fn quick_trace(trace: Trace, low: int, high: int) -> Trace
    decreases high + 1 - low,
{
    if low >= high {
        trace
    } else {
        let (parted, pivot_index) = partition_trace(trace, low, high);
        proof {
            lemma_partition_scan_within(trace, low, low, high, trace.values[high]);
        }
        let left_done = if pivot_index > 0 {
            quick_trace(parted, low, pivot_index - 1)
        } else {
            parted
        };
        if pivot_index < high {
            quick_trace(left_done, pivot_index + 1, high)
        } else {
            left_done
        }
    }
}

/// The frames that quick sort records of `input`.
pub open spec fn quick_recording(input: Seq<u32>) -> Seq<Seq<u32>> {
    if input.len() == 0 {
        Seq::empty()
    } else if input.len() == 1 {
        Trace::start(input).sealed()
    } else {
        quick_trace(Trace::start(input), 0, input.len() - 1).sealed()
    }
}

/// The scan keeps a trace chained, the pivot in its place and the values of
/// the stretch within their bounds, with the values smaller than the pivot
/// before the position that it ends with and the others from there on;
/// values outside the stretch stay as they are.
proof fn lemma_partition_scan(
    trace: Trace,
    scan: int,
    store: int,
    high: int,
    pivot: u32,
    low: int,
    lower: u32,
    upper: u32,
    input: Seq<u32>,
    kind: Step,
)
    requires
        trace.chained(input, kind),
        kind is DescentSwap || kind is Swap,
        0 <= low <= store <= scan <= high < trace.values.len(),
        trace.values[high] == pivot,
        forall|k: int| low <= k < store ==> trace.values[k] < pivot,
        forall|k: int| store <= k < scan ==> trace.values[k] >= pivot,
        bounded_between(trace.values, low, high + 1, lower, upper),
    ensures
        ({
            let (scanned, last) = partition_scan(trace, scan, store, high, pivot);
            &&& scanned.chained(input, kind)
            &&& store <= last <= high
            &&& scanned.values[high] == pivot
            &&& forall|k: int| low <= k < last ==> scanned.values[k] < pivot
            &&& forall|k: int| last <= k < high ==> scanned.values[k] >= pivot
            &&& same_outside(scanned.values, trace.values, low, high + 1)
            &&& bounded_between(scanned.values, low, high + 1, lower, upper)
        }),
    decreases high - scan,
{
    if scan >= high {
    } else if trace.values[scan] < pivot {
        if scan != store {
            let next = swapped(trace.values, store, scan);
            assert(descent_swap_at(trace.values, next, store, scan));
            assert(swap_at(trace.values, next, store, scan));
            trace.lemma_chained_step(input, kind, next);
            lemma_partition_scan(
                trace.swap(store, scan),
                scan + 1,
                store + 1,
                high,
                pivot,
                low,
                lower,
                upper,
                input,
                kind,
            );
        } else {
            lemma_partition_scan(trace, scan + 1, store + 1, high, pivot, low, lower, upper, input, kind);
        }
    } else {
        lemma_partition_scan(trace, scan + 1, store, high, pivot, low, lower, upper, input, kind);
    }
}

/// A parting keeps a trace chained and the values of the stretch within
/// their bounds, with the smaller values before the pivot and the others
/// after it; values outside the stretch stay as they are.
pub proof fn lemma_partition_trace(
    trace: Trace,
    low: int,
    high: int,
    lower: u32,
    upper: u32,
    input: Seq<u32>,
    kind: Step,
)
    requires
        trace.chained(input, kind),
        kind is DescentSwap || kind is Swap,
        0 <= low <= high < trace.values.len(),
        bounded_between(trace.values, low, high + 1, lower, upper),
    ensures
        ({
            let (parted, pivot_index) = partition_trace(trace, low, high);
            &&& parted.chained(input, kind)
            &&& low <= pivot_index <= high
            &&& parted.values[pivot_index] == trace.values[high]
            &&& forall|k: int| low <= k < pivot_index ==> parted.values[k] < parted.values[pivot_index]
            &&& forall|k: int|
                pivot_index < k <= high ==> parted.values[k] >= parted.values[pivot_index]
            &&& same_outside(parted.values, trace.values, low, high + 1)
            &&& bounded_between(parted.values, low, high + 1, lower, upper)
        }),
{
    let pivot = trace.values[high];
    lemma_partition_scan(trace, low, low, high, pivot, low, lower, upper, input, kind);
    let (scanned, store) = partition_scan(trace, low, low, high, pivot);
    if store != high {
        let next = swapped(scanned.values, store, high);
        assert(descent_swap_at(scanned.values, next, store, high));
        assert(swap_at(scanned.values, next, store, high));
        scanned.lemma_chained_step(input, kind, next);
    }
}

/// The sort of a stretch keeps a trace chained and the values of the
/// stretch within their bounds, and leaves the stretch in order; values
/// outside it stay as they are.
proof fn lemma_quick_trace(
    trace: Trace,
    low: int,
    high: int,
    lower: u32,
    upper: u32,
    input: Seq<u32>,
)
    requires
        trace.chained(input, Step::DescentSwap),
        0 <= low <= high + 1,
        high < trace.values.len(),
        bounded_between(trace.values, low, high + 1, lower, upper),
    ensures
        quick_trace(trace, low, high).chained(input, Step::DescentSwap),
        same_outside(quick_trace(trace, low, high).values, trace.values, low, high + 1),
        bounded_between(quick_trace(trace, low, high).values, low, high + 1, lower, upper),
        sorted_between(quick_trace(trace, low, high).values, low, high + 1),
    decreases high + 1 - low,
{
    if low < high {
        let kind = Step::DescentSwap;
        lemma_partition_trace(trace, low, high, lower, upper, input, kind);
        let (parted, p) = partition_trace(trace, low, high);
        let pivot = parted.values[p];
        let left_done = if p > 0 {
            quick_trace(parted, low, p - 1)
        } else {
            parted
        };
        if p > 0 {
            assert(bounded_between(parted.values, low, p, lower, pivot));
            lemma_quick_trace(parted, low, p - 1, lower, pivot, input);
        }
        assert(sorted_between(left_done.values, low, p));
        assert(bounded_between(left_done.values, low, p, lower, pivot));
        assert(same_outside(left_done.values, parted.values, low, p));
        let done = if p < high {
            quick_trace(left_done, p + 1, high)
        } else {
            left_done
        };
        if p < high {
            assert(bounded_between(left_done.values, p + 1, high + 1, pivot, upper));
            lemma_quick_trace(left_done, p + 1, high, pivot, upper, input);
        }
        assert(same_outside(done.values, left_done.values, p + 1, high + 1));
        assert(done.values[p] == pivot);
        assert(bounded_between(done.values, p + 1, high + 1, pivot, upper));
        assert forall|i: int, j: int| low <= i <= j < high + 1 implies done.values[i]
            <= done.values[j] by {
            if j < p {
                assert(left_done.values[i] <= left_done.values[j]);
            } else if i > p {
            } else if i < p {
                assert(left_done.values[i] <= pivot);
                assert(pivot <= done.values[j]);
            } else {
                assert(pivot <= done.values[j]);
            }
        }
        assert forall|k: int| low <= k < high + 1 implies lower <= #[trigger] done.values[k]
            <= upper by {
            if k < p {
                assert(lower <= left_done.values[k] <= pivot);
            } else if k > p {
                assert(pivot <= done.values[k] <= upper);
            }
            assert(lower <= parted.values[p] <= upper);
        }
        assert forall|k: int| 0 <= k < low || high + 1 <= k < done.values.len() implies done.values[k]
            == trace.values[k] by {
            assert(done.values[k] == left_done.values[k]);
            assert(left_done.values[k] == parted.values[k]);
        }
    }
}

/// The scan exchanges nothing where the values of the stretch strictly
/// increase.
proof fn lemma_partition_scan_rests(trace: Trace, scan: int, low: int, high: int)
    requires
        0 <= low <= scan <= high < trace.values.len(),
        strictly_increasing_between(trace.values, low, high + 1),
    ensures
        partition_scan(trace, scan, scan, high, trace.values[high]) == (trace, high),
    decreases high - scan,
{
    if scan < high {
        lemma_partition_scan_rests(trace, scan + 1, low, high);
    }
}

/// The sort of a stretch changes nothing where its values strictly
/// increase.
proof fn lemma_quick_trace_rests(trace: Trace, low: int, high: int)
    requires
        0 <= low,
        high < trace.values.len(),
        strictly_increasing_between(trace.values, low, high + 1),
    ensures
        quick_trace(trace, low, high) == trace,
    decreases high + 1 - low,
{
    if low < high {
        lemma_partition_scan_rests(trace, low, low, high);
        lemma_quick_trace_rests(trace, low, high - 1);
    }
}

/// What quick sort records of an input that is not empty starts with the
/// input, goes on by exchanges of a value with one to its right that is not
/// greater, each frame holding the values of the input, and ends with them
/// in order; it is the one frame of the input where that strictly
/// increases.
pub proof fn law_quick_recording(input: Seq<u32>)
    requires
        input.len() > 0,
    ensures
        records_sort(input, quick_recording(input), Step::DescentSwap),
        strictly_increasing(input) ==> quick_recording(input) == seq![input],
{
    let start = Trace::start(input);
    assert(start.chained(input, Step::DescentSwap));
    if input.len() == 1 {
        start.lemma_chained_records_sort(input, Step::DescentSwap);
    } else {
        lemma_quick_trace(start, 0, input.len() - 1, 0, u32::MAX, input);
        let done = quick_trace(start, 0, input.len() - 1);
        assert(sorted(done.values));
        done.lemma_chained_records_sort(input, Step::DescentSwap);
        if strictly_increasing(input) {
            lemma_quick_trace_rests(start, 0, input.len() - 1);
        }
    }
}

/// Parts the values from `low` to `high`, both included, around the pivot,
/// the value at `high`: a scan from the left moves every value smaller
/// than the pivot to the front of the stretch, by an exchange where it is
/// not there already, and the pivot then changes places with the first
/// value that is not smaller, unless it stands there itself. Returns the
/// final position of the pivot; a frame is recorded after every exchange.
pub(crate) fn partition(
    values: &mut Vec<u32>,
    low_index: usize,
    high_index: usize,
    frames: &mut Vec<Vec<u32>>,
    Ghost(base): Ghost<Seq<Vec<u32>>>,
) -> (store_index: usize)
    requires
        low_index <= high_index < old(values)@.len(),
        grown(base, old(frames)@),
    ensures
        low_index <= store_index <= high_index,
        final(values)@.len() == old(values)@.len(),
        grown(base, final(frames)@),
        final(frames)@.len() >= old(frames)@.len(),
        (trace_of(base, final(frames)@, final(values)@), store_index as int) == partition_trace(
            trace_of(base, old(frames)@, old(values)@),
            low_index as int,
            high_index as int,
        ),
{
    let ghost entry_trace = trace_of(base, frames@, values@);
    let pivot_value = values[high_index];
    let mut store_index = low_index;
    let mut scan_index = low_index;

    while scan_index < high_index
        invariant
            low_index <= store_index <= scan_index <= high_index < values@.len(),
            values@.len() == old(values)@.len(),
            grown(base, frames@),
            frames@.len() >= old(frames)@.len(),
            partition_scan(
                trace_of(base, frames@, values@),
                scan_index as int,
                store_index as int,
                high_index as int,
                pivot_value,
            ) == partition_scan(
                entry_trace,
                low_index as int,
                low_index as int,
                high_index as int,
                pivot_value,
            ),
        decreases high_index - scan_index,
    {
        if values[scan_index] < pivot_value {
            if scan_index != store_index {
                swap_recorded(values, store_index, scan_index, frames, Ghost(base));
            }
            store_index += 1;
        }
        scan_index += 1;
    }

    if store_index != high_index {
        swap_recorded(values, store_index, high_index, frames, Ghost(base));
    }

    store_index
}

/// Sorts the values from `low` to `high`, both included: the stretch is
/// parted around its last value, and the values before the pivot and those
/// after it are sorted in the same way, those before it first.
pub(crate) fn quick_sort_recursive(
    values: &mut Vec<u32>,
    low_index: usize,
    high_index: usize,
    frames: &mut Vec<Vec<u32>>,
    Ghost(base): Ghost<Seq<Vec<u32>>>,
)
    requires
        high_index < old(values)@.len(),
        low_index <= high_index + 1,
        grown(base, old(frames)@),
    ensures
        final(values)@.len() == old(values)@.len(),
        grown(base, final(frames)@),
        final(frames)@.len() >= old(frames)@.len(),
        trace_of(base, final(frames)@, final(values)@) == quick_trace(
            trace_of(base, old(frames)@, old(values)@),
            low_index as int,
            high_index as int,
        ),
    decreases high_index + 1 - low_index,
{
    if low_index >= high_index {
        return;
    }
    let partition_index = partition(values, low_index, high_index, frames, Ghost(base));

    if partition_index > 0 {
        quick_sort_recursive(values, low_index, partition_index - 1, frames, Ghost(base));
    }
    if partition_index < high_index {
        quick_sort_recursive(values, partition_index + 1, high_index, frames, Ghost(base));
    }
}

/// Sorts a copy of `initial_values` by parting stretches around their last
/// value and appends to `frames` the initial values and the arrangement
/// after every exchange.
pub fn quick_sort_with_recording(initial_values: &[u32], frames: &mut Vec<Vec<u32>>)
    ensures
        grown(old(frames)@, final(frames)@),
        appended(old(frames)@, final(frames)@) == quick_recording(initial_values@),
        records_sort(
            initial_values@,
            appended(old(frames)@, final(frames)@),
            Step::DescentSwap,
        ),
        strictly_increasing(initial_values@) && initial_values@.len() > 0 ==> appended(
            old(frames)@,
            final(frames)@,
        ) == seq![initial_values@],
{
    let mut values = slice_to_vec(initial_values);
    if values.is_empty() {
        assert(appended(old(frames)@, frames@) =~= Seq::<Seq<u32>>::empty());
        return;
    }
    let ghost base = frames@;
    record_initial(frames, &values);

    let length = values.len();
    if length > 1 {
        quick_sort_recursive(&mut values, 0, length - 1, frames, Ghost(base));
    }
    seal_recording(frames, values, Ghost(base));
    proof {
        law_quick_recording(initial_values@);
    }
}

} // verus!
