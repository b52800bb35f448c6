use vstd::prelude::*;
use vstd::slice::slice_to_vec;
use crate::order::{sorted, sorted_between};
use crate::recording::{
    appended, grown, record_initial, records_sort, seal_recording, swap_at, swap_recorded,
    trace_of, Step, Trace,
};

verus! {

/// Within the first `size` positions, the value at `i` is at least the
/// values of its children, which stand at `2 * i + 1` and `2 * i + 2`.
pub open spec fn heap_at(s: Seq<u32>, i: int, size: int) -> bool {
    &&& 2 * i + 1 < size ==> s[i] >= s[2 * i + 1]
    &&& 2 * i + 2 < size ==> s[i] >= s[2 * i + 2]
}

/// Within the first `size` positions, every value from position `lo` on is
/// at least the values of its children.
pub open spec fn heap_from(s: Seq<u32>, lo: int, size: int) -> bool {
    forall|i: int| lo <= i < size ==> #[trigger] heap_at(s, i, size)
}

/// As `heap_from`, but for the value at `hole`.
pub open spec fn heap_but(s: Seq<u32>, lo: int, size: int, hole: int) -> bool {
    forall|i: int| lo <= i < size && i != hole ==> #[trigger] heap_at(s, i, size)
}

/// The value at `p` is at least the values of the children of `hole`.
pub open spec fn covers(s: Seq<u32>, p: int, hole: int, size: int) -> bool {
    &&& 2 * hole + 1 < size ==> s[p] >= s[2 * hole + 1]
    &&& 2 * hole + 2 < size ==> s[p] >= s[2 * hole + 2]
}

/// The parent of `hole`, if it lies at `lo` or after it, is at least the
/// children of `hole`.
pub open spec fn heap_over(s: Seq<u32>, lo: int, size: int, hole: int) -> bool {
    forall|p: int|
        lo <= p < size && (2 * p + 1 == hole || 2 * p + 2 == hole) ==> #[trigger] covers(
            s,
            p,
            hole,
            size,
        )
}

/// Among the value at `root` and its children within the first `size`
/// positions, the position of the greatest: of the left child only where
/// it is greater than the value at `root`, and of the right child only
/// where it is greater than both.
pub open spec fn greatest_of_family(s: Seq<u32>, root: int, size: int) -> int {
    let left = 2 * root + 1;
    let right = left + 1;
    let greater = if s[left] > s[root] {
        left
    } else {
        root
    };
    if right < size && s[right] > s[greater] {
        right
    } else {
        greater
    }
}

/// The value at `root` sinks within the first `size` positions: while it
/// has a child and a child is greater, it changes places with the greatest
/// of its family.
pub open spec fn sift_trace(trace: Trace, root: int, size: int) -> Trace
    decreases size - root,
{
    if root < 0 || root >= size / 2 {
        trace
    } else {
        let greatest = greatest_of_family(trace.values, root, size);
        if greatest == root {
            trace
        } else {
            sift_trace(trace.swap(root, greatest), greatest, size)
        }
    }
}

/// The values before `heap_index` sink, one after the other from the last
/// of them down to the first.
pub open spec fn heap_build(trace: Trace, heap_index: int, length: int) -> Trace
    decreases heap_index,
{
    if heap_index <= 0 {
        trace
    } else {
        heap_build(sift_trace(trace, heap_index - 1, length), heap_index - 1, length)
    }
}

/// While more than one of the first `unsorted` values is left, the first
/// changes places with the last of them and sinks among those before it.
pub open spec fn heap_extract(trace: Trace, unsorted: int) -> Trace
    decreases unsorted,
{
    if unsorted <= 1 {
        trace
    } else {
        heap_extract(
            sift_trace(trace.swap(0, unsorted - 1), 0, unsorted - 1),
            unsorted - 1,
        )
    }
}

/// The sort of the values under recording with a heap.
pub open spec fn heap_trace(trace: Trace) -> Trace {
    let length = trace.values.len() as int;
    if length > 1 {
        heap_extract(heap_build(trace, length / 2, length), length)
    } else {
        trace
    }
}

/// The frames that heap sort records of `input`.
pub open spec fn heap_recording(input: Seq<u32>) -> Seq<Seq<u32>> {
    if input.len() == 0 {
        Seq::empty()
    } else {
        heap_trace(Trace::start(input)).sealed()
    }
}

/// In a heap the first value is the greatest.
pub proof fn lemma_heap_root_greatest(s: Seq<u32>, size: int, k: int)
    requires
        heap_from(s, 0, size),
        0 <= k < size <= s.len(),
    ensures
        s[0] >= s[k],
    decreases k,
{
    if k > 0 {
        let parent = (k - 1) / 2;
        assert(heap_at(s, parent, size));
        lemma_heap_root_greatest(s, size, parent);
    }
}

/// Sinking keeps a trace chained and the values of the heap below their
/// bound, and makes a heap from `start` on of what was one but for the
/// value that sinks; values outside the heap stay as they are.
pub proof fn lemma_sift_trace(
    trace: Trace,
    root: int,
    size: int,
    start: int,
    bound: u32,
    input: Seq<u32>,
)
    requires
        trace.chained(input, Step::Swap),
        0 <= start <= root,
        size <= trace.values.len(),
        heap_but(trace.values, start, size, root),
        heap_over(trace.values, start, size, root),
        forall|k: int| 0 <= k < size ==> trace.values[k] <= bound,
    ensures
        sift_trace(trace, root, size).chained(input, Step::Swap),
        heap_from(sift_trace(trace, root, size).values, start, size),
        forall|k: int| 0 <= k < size ==> sift_trace(trace, root, size).values[k] <= bound,
        forall|k: int|
            0 <= k < start || size <= k < trace.values.len() ==> sift_trace(
                trace,
                root,
                size,
            ).values[k] == trace.values[k],
    decreases size - root,
{
    let s = trace.values;
    if root >= size / 2 {
        assert(heap_at(s, root, size));
    } else {
        let greatest = greatest_of_family(s, root, size);
        if greatest == root {
            assert(heap_at(s, root, size));
        } else {
            let next = trace.swap(root, greatest);
            assert(swap_at(s, next.values, root, greatest));
            trace.lemma_chained_step(input, Step::Swap, next.values);
            assert forall|i: int| start <= i < size && i != greatest implies #[trigger] heap_at(
                next.values,
                i,
                size,
            ) by {
                if i == root {
                } else if 2 * i + 1 == root || 2 * i + 2 == root {
                    assert(covers(s, i, root, size));
                    assert(heap_at(s, i, size));
                } else {
                    assert(heap_at(s, i, size));
                }
            }
            assert forall|p: int|
                start <= p < size && (2 * p + 1 == greatest || 2 * p + 2
                    == greatest) implies #[trigger] covers(next.values, p, greatest, size) by {
                assert(p == root);
                assert(heap_at(s, greatest, size));
            }
            lemma_sift_trace(next, greatest, size, start, bound, input);
            let done = sift_trace(next, greatest, size);
            assert forall|k: int| 0 <= k < start || size <= k < s.len() implies done.values[k]
                == s[k] by {
                assert(done.values[k] == next.values[k]);
            }
        }
    }
}

/// Letting the values before `heap_index` sink keeps a trace chained and
/// makes a heap of all values.
proof fn lemma_heap_build(trace: Trace, heap_index: int, input: Seq<u32>)
    requires
        trace.chained(input, Step::Swap),
        0 <= heap_index <= input.len() / 2,
        heap_from(trace.values, heap_index, input.len() as int),
    ensures
        heap_build(trace, heap_index, input.len() as int).chained(input, Step::Swap),
        heap_from(heap_build(trace, heap_index, input.len() as int).values, 0, input.len() as int),
    decreases heap_index,
{
    if heap_index > 0 {
        let length = input.len() as int;
        assert(heap_but(trace.values, heap_index - 1, length, heap_index - 1)) by {
            assert forall|i: int| heap_index - 1 <= i < length && i != heap_index
                - 1 implies #[trigger] heap_at(trace.values, i, length) by {
                assert(heap_at(trace.values, i, length));
            }
        }
        lemma_sift_trace(trace, heap_index - 1, length, heap_index - 1, u32::MAX, input);
        lemma_heap_build(sift_trace(trace, heap_index - 1, length), heap_index - 1, input);
    }
}

/// Taking the greatest value out of the heap, time after time, keeps a
/// trace chained and leaves the values in order.
proof fn lemma_heap_extract(trace: Trace, unsorted: int, input: Seq<u32>)
    requires
        trace.chained(input, Step::Swap),
        1 <= unsorted <= input.len(),
        heap_from(trace.values, 0, unsorted),
        sorted_between(trace.values, unsorted, input.len() as int),
        forall|i: int, j: int|
            0 <= i < unsorted <= j < input.len() ==> trace.values[i] <= trace.values[j],
    ensures
        heap_extract(trace, unsorted).chained(input, Step::Swap),
        sorted(heap_extract(trace, unsorted).values),
    decreases unsorted,
{
    let s = trace.values;
    let length = input.len() as int;
    if unsorted <= 1 {
        assert(sorted(s));
    } else {
        assert forall|k: int| 0 <= k < unsorted implies s[0] >= #[trigger] s[k] by {
            lemma_heap_root_greatest(s, unsorted, k);
        }
        let last = unsorted - 1;
        let exchanged = trace.swap(0, last);
        assert(swap_at(s, exchanged.values, 0, last));
        trace.lemma_chained_step(input, Step::Swap, exchanged.values);
        assert forall|i: int| 1 <= i < last implies #[trigger] heap_at(exchanged.values, i, last) by {
            assert(heap_at(s, i, unsorted));
        }
        lemma_sift_trace(exchanged, 0, last, 0, exchanged.values[last], input);
        let next = sift_trace(exchanged, 0, last);
        assert forall|i: int, j: int| last <= i <= j < length implies next.values[i]
            <= next.values[j] by {
            assert(next.values[i] == exchanged.values[i]);
            assert(next.values[j] == exchanged.values[j]);
            if i == last && j > last {
                assert(s[0] <= s[j]);
            } else if i > last {
                assert(s[i] <= s[j]);
            }
        }
        assert forall|i: int, j: int| 0 <= i < last <= j < length implies next.values[i]
            <= next.values[j] by {
            assert(next.values[j] == exchanged.values[j]);
            assert(next.values[i] <= exchanged.values[last]);
            if j > last {
                assert(s[0] <= s[j]);
            }
        }
        lemma_heap_extract(next, last, input);
    }
}

/// What heap sort records of an input that is not empty starts with the
/// input, goes on by exchanges, each frame holding the values of the
/// input, and ends with them in order; it is the one frame of the input
/// where that is a single value.
pub proof fn law_heap_recording(input: Seq<u32>)
    requires
        input.len() > 0,
    ensures
        records_sort(input, heap_recording(input), Step::Swap),
        input.len() == 1 ==> heap_recording(input) == seq![input],
{
    let start = Trace::start(input);
    let length = input.len() as int;
    assert(start.chained(input, Step::Swap));
    if length > 1 {
        assert(heap_from(input, length / 2, length));
        lemma_heap_build(start, length / 2, input);
        let built = heap_build(start, length / 2, length);
        lemma_heap_extract(built, length, input);
        heap_extract(built, length).lemma_chained_records_sort(input, Step::Swap);
    } else {
        start.lemma_chained_records_sort(input, Step::Swap);
    }
}

/// Lets the value at `start` sink within the first `heap_size` positions:
/// while one of its children is greater, it changes places with the
/// greater child, the left one when both are equal. A frame is recorded
/// after every exchange.
pub(crate) fn sift_down(
    values: &mut Vec<u32>,
    start_index: usize,
    heap_size: usize,
    frames: &mut Vec<Vec<u32>>,
    Ghost(base): Ghost<Seq<Vec<u32>>>,
)
    requires
        heap_size <= old(values)@.len(),
        grown(base, old(frames)@),
    ensures
        final(values)@.len() == old(values)@.len(),
        grown(base, final(frames)@),
        final(frames)@.len() >= old(frames)@.len(),
        trace_of(base, final(frames)@, final(values)@) == sift_trace(
            trace_of(base, old(frames)@, old(values)@),
            start_index as int,
            heap_size as int,
        ),
{
    let ghost whole = sift_trace(
        trace_of(base, frames@, values@),
        start_index as int,
        heap_size as int,
    );
    let mut root_index = start_index;

    loop
        invariant
            heap_size <= values@.len(),
            values@.len() == old(values)@.len(),
            grown(base, frames@),
            frames@.len() >= old(frames)@.len(),
            sift_trace(trace_of(base, frames@, values@), root_index as int, heap_size as int)
                == whole,
        ensures
            trace_of(base, frames@, values@) == whole,
        decreases heap_size - root_index,
    {
        if root_index >= heap_size / 2 {
            break ;
        }
        let left_child_index = 2 * root_index + 1;
        let right_child_index = left_child_index + 1;

        let mut index_of_largest = root_index;

        if values[left_child_index] > values[index_of_largest] {
            index_of_largest = left_child_index;
        }
        if right_child_index < heap_size && values[right_child_index] > values[index_of_largest] {
            index_of_largest = right_child_index;
        }
        if index_of_largest == root_index {
            break ;
        }
        swap_recorded(values, root_index, index_of_largest, frames, Ghost(base));
        root_index = index_of_largest;
    }
}

/// Sorts a copy of `initial_values` with a heap: the values are first made
/// a heap, by letting the values from the middle position down to the
/// first sink; then the first value, the greatest, changes places with the
/// last value not yet in place, and the new first value sinks, until one
/// value is left. Appends to `frames` the initial values and the
/// arrangement after every exchange.
pub fn heap_sort_with_recording(initial_values: &[u32], frames: &mut Vec<Vec<u32>>)
    ensures
        grown(old(frames)@, final(frames)@),
        appended(old(frames)@, final(frames)@) == heap_recording(initial_values@),
        records_sort(initial_values@, appended(old(frames)@, final(frames)@), Step::Swap),
        initial_values@.len() == 1 ==> appended(old(frames)@, final(frames)@)
            == seq![initial_values@],
{
    let mut values = slice_to_vec(initial_values);
    if values.is_empty() {
        assert(appended(old(frames)@, frames@) =~= Seq::<Seq<u32>>::empty());
        return;
    }
    let ghost base = frames@;
    record_initial(frames, &values);

    let length = values.len();
    let ghost built = if length > 1 {
        heap_build(Trace::start(initial_values@), length as int / 2, length as int)
    } else {
        Trace::start(initial_values@)
    };
    let ghost whole = heap_trace(Trace::start(initial_values@));

    // build max heap
    if length > 1 {
        let mut heap_index = length / 2;
        while heap_index > 0
            invariant
                length == values@.len(),
                heap_index <= length / 2,
                grown(base, frames@),
                frames@.len() > base.len(),
                heap_build(trace_of(base, frames@, values@), heap_index as int, length as int)
                    == built,
            decreases heap_index,
        {
            heap_index -= 1;
            sift_down(&mut values, heap_index, length, frames, Ghost(base));
        }
    }

    // extract max repeatedly
    let mut unsorted_size = length;
    while unsorted_size > 1
        invariant
            length == values@.len(),
            1 <= unsorted_size <= length,
            grown(base, frames@),
            frames@.len() > base.len(),
            length > 1 ==> heap_extract(trace_of(base, frames@, values@), unsorted_size as int)
                == whole,
            length == 1 ==> trace_of(base, frames@, values@) == whole,
        decreases unsorted_size,
    {
        unsorted_size -= 1;
        swap_recorded(&mut values, 0, unsorted_size, frames, Ghost(base));
        sift_down(&mut values, 0, unsorted_size, frames, Ghost(base));
    }

    seal_recording(frames, values, Ghost(base));
    proof {
        law_heap_recording(initial_values@);
    }
}

} // verus!
