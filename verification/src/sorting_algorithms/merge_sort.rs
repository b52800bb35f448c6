use vstd::prelude::*;
use vstd::slice::slice_to_vec;
use vstd::seq_lib::lemma_multiset_commutative;
use crate::order::{same_values, sorted, sorted_between};
use crate::recording::{
    appended, grown, record_initial, records_sort, seal_recording, trace_of, write_recorded,
    Step, Trace,
};

verus! {

/// The values of two neighbouring stretches of `s`, from `left` to `middle`
/// and from `right` to `end`, gathered behind `gathered`: while both
/// stretches have values left, the smaller of their first values is taken,
/// the left one where the two are equal; after that what is left of either
/// stretch.
pub open spec fn gather(
    s: Seq<u32>,
    left: int,
    middle: int,
    right: int,
    end: int,
    gathered: Seq<u32>,
) -> Seq<u32>
    decreases (if left < middle { middle - left } else { 0 }) + (if right < end { end - right } else { 0 }),
{
    if left < middle && right < end {
        if s[left] <= s[right] {
            gather(s, left + 1, middle, right, end, gathered.push(s[left]))
        } else {
            gather(s, left, middle, right + 1, end, gathered.push(s[right]))
        }
    } else if left < middle {
        gather(s, left + 1, middle, right, end, gathered.push(s[left]))
    } else if right < end {
        gather(s, left, middle, right + 1, end, gathered.push(s[right]))
    } else {
        gathered
    }
}

/// The values of `source` from position `offset` on are written over the
/// values from `start + offset` on, one by one from the left.
pub open spec fn write_back(trace: Trace, start: int, source: Seq<u32>, offset: int) -> Trace
    decreases source.len() - offset,
{
    if offset < 0 || offset >= source.len() {
        trace
    } else {
        write_back(trace.write(start + offset, source[offset]), start, source, offset + 1)
    }
}

/// The merge of the stretches from `start` to `middle` and from `middle`
/// to `end`.
pub open spec fn merge_trace(trace: Trace, start: int, middle: int, end: int) -> Trace {
    write_back(trace, start, gather(trace.values, start, middle, middle, end, Seq::empty()), 0)
}

/// The sort of the values from `start` up to, not including, `end`.
pub open spec fn merge_sort_trace(trace: Trace, start: int, end: int) -> Trace
    decreases end - start,
{
    if end - start <= 1 {
        trace
    } else {
        let middle = start + (end - start) / 2;
        merge_trace(
            merge_sort_trace(merge_sort_trace(trace, start, middle), middle, end),
            start,
            middle,
            end,
        )
    }
}

/// The frames that merge sort records of `input`.
pub open spec fn merge_recording(input: Seq<u32>) -> Seq<Seq<u32>> {
    if input.len() == 0 {
        Seq::empty()
    } else {
        merge_sort_trace(Trace::start(input), 0, input.len() as int).sealed()
    }
}

/// `merged` holds the values that `s` has from `start` to `left` and from
/// `middle` to `right`, each as often as they occur there.
pub open spec fn merged_from(
    merged: Seq<u32>,
    s: Seq<u32>,
    start: int,
    left: int,
    middle: int,
    right: int,
) -> bool {
    merged.to_multiset() == s.subrange(start, left).to_multiset().add(
        s.subrange(middle, right).to_multiset(),
    )
}

/// Taking the next value of either stretch keeps `merged_from`.
proof fn lemma_merged_take(
    merged: Seq<u32>,
    s: Seq<u32>,
    start: int,
    left: int,
    middle: int,
    right: int,
    from_left: bool,
)
    requires
        0 <= start <= left <= middle <= right <= s.len(),
        merged_from(merged, s, start, left, middle, right),
        from_left ==> left < middle,
        !from_left ==> right < s.len(),
    ensures
        from_left ==> merged_from(merged.push(s[left]), s, start, left + 1, middle, right),
        !from_left ==> merged_from(merged.push(s[right]), s, start, left, middle, right + 1),
{
    broadcast use vstd::multiset::group_multiset_axioms;

    if from_left {
        assert(s.subrange(start, left + 1) =~= s.subrange(start, left).push(s[left]));
        merged.to_multiset_ensures();
        s.subrange(start, left).to_multiset_ensures();
        assert(merged.push(s[left]).to_multiset() =~= s.subrange(start, left + 1).to_multiset().add(
            s.subrange(middle, right).to_multiset(),
        ));
    } else {
        assert(s.subrange(middle, right + 1) =~= s.subrange(middle, right).push(s[right]));
        merged.to_multiset_ensures();
        s.subrange(middle, right).to_multiset_ensures();
        assert(merged.push(s[right]).to_multiset() =~= s.subrange(start, left).to_multiset().add(
            s.subrange(middle, right + 1).to_multiset(),
        ));
    }
}

/// Replacing a stretch of a sequence by a rearrangement of that stretch
/// rearranges the sequence.
proof fn lemma_replaced_stretch(before: Seq<u32>, after: Seq<u32>, merged: Seq<u32>, start: int, end: int)
    requires
        0 <= start <= end <= before.len(),
        after.len() == before.len(),
        merged.len() == end - start,
        same_values(merged, before.subrange(start, end)),
        forall|k: int| 0 <= k < start || end <= k < before.len() ==> after[k] == before[k],
        forall|k: int| 0 <= k < end - start ==> after[start + k] == merged[k],
    ensures
        same_values(after, before),
{
    broadcast use vstd::multiset::group_multiset_axioms;

    let head = before.subrange(0, start);
    let tail = before.subrange(end, before.len() as int);
    let old_middle = before.subrange(start, end);
    assert(before =~= head + old_middle + tail);
    assert(after =~= head + merged + tail);
    lemma_multiset_commutative(head + old_middle, tail);
    lemma_multiset_commutative(head, old_middle);
    lemma_multiset_commutative(head + merged, tail);
    lemma_multiset_commutative(head, merged);
}

/// Gathering two stretches that are in order gives, in order, the values
/// of both.
proof fn lemma_gather(
    s: Seq<u32>,
    left: int,
    middle: int,
    right: int,
    end: int,
    gathered: Seq<u32>,
    start: int,
)
    requires
        0 <= start <= left <= middle <= right <= end <= s.len(),
        sorted_between(s, start, middle),
        sorted_between(s, middle, end),
        sorted(gathered),
        gathered.len() == (left - start) + (right - middle),
        forall|k: int| 0 <= k < gathered.len() && left < middle ==> gathered[k] <= s[left],
        forall|k: int| 0 <= k < gathered.len() && right < end ==> gathered[k] <= s[right],
        merged_from(gathered, s, start, left, middle, right),
    ensures
        sorted(gather(s, left, middle, right, end, gathered)),
        gather(s, left, middle, right, end, gathered).len() == (middle - start) + (end - middle),
        merged_from(gather(s, left, middle, right, end, gathered), s, start, middle, middle, end),
    decreases (middle - left) + (end - right),
{
    if left < middle && right < end {
        if s[left] <= s[right] {
            lemma_merged_take(gathered, s, start, left, middle, right, true);
            lemma_gather(s, left + 1, middle, right, end, gathered.push(s[left]), start);
        } else {
            lemma_merged_take(gathered, s, start, left, middle, right, false);
            lemma_gather(s, left, middle, right + 1, end, gathered.push(s[right]), start);
        }
    } else if left < middle {
        lemma_merged_take(gathered, s, start, left, middle, right, true);
        lemma_gather(s, left + 1, middle, right, end, gathered.push(s[left]), start);
    } else if right < end {
        lemma_merged_take(gathered, s, start, left, middle, right, false);
        lemma_gather(s, left, middle, right + 1, end, gathered.push(s[right]), start);
    }
}

/// Writing back keeps a trace following, puts the values of `source` in
/// place and leaves the values around them as they are.
proof fn lemma_write_back(
    trace: Trace,
    start: int,
    source: Seq<u32>,
    offset: int,
    input: Seq<u32>,
    kind: Step,
)
    requires
        trace.following(input, kind),
        kind is Write || kind is DoubleWrite,
        0 <= start,
        start + source.len() <= trace.values.len(),
        0 <= offset <= source.len(),
    ensures
        write_back(trace, start, source, offset).following(input, kind),
        offset < source.len() ==> write_back(trace, start, source, offset).frames.last()
            == write_back(trace, start, source, offset).values,
        offset == source.len() ==> write_back(trace, start, source, offset) == trace,
        forall|k: int|
            0 <= k < start + offset || start + source.len() <= k < trace.values.len()
                ==> write_back(trace, start, source, offset).values[k] == trace.values[k],
        forall|k: int|
            offset <= k < source.len() ==> write_back(trace, start, source, offset).values[start
                + k] == source[k],
    decreases source.len() - offset,
{
    if offset < source.len() {
        let next = trace.write(start + offset, source[offset]);
        trace.lemma_following_write(input, kind, start + offset, source[offset]);
        lemma_write_back(next, start, source, offset + 1, input, kind);
        let done = write_back(next, start, source, offset + 1);
        assert forall|k: int|
            0 <= k < start + offset || start + source.len() <= k < trace.values.len()
            implies done.values[k] == trace.values[k] by {
            assert(done.values[k] == next.values[k]);
        }
        assert forall|k: int| offset <= k < source.len() implies done.values[start + k]
            == source[k] by {
            if k == offset {
                assert(done.values[start + offset] == next.values[start + offset]);
            }
        }
    }
}

/// A merge of two stretches that are in order keeps a trace following and
/// the values the same, and leaves the two as one stretch in order; values
/// outside it stay as they are.
pub proof fn lemma_merge_trace(
    trace: Trace,
    start: int,
    middle: int,
    end: int,
    whole: Seq<u32>,
    input: Seq<u32>,
    kind: Step,
)
    requires
        trace.following(input, kind),
        kind is Write || kind is DoubleWrite,
        0 <= start <= middle <= end <= trace.values.len(),
        sorted_between(trace.values, start, middle),
        sorted_between(trace.values, middle, end),
        same_values(trace.values, whole),
    ensures
        merge_trace(trace, start, middle, end).following(input, kind),
        start < end ==> merge_trace(trace, start, middle, end).frames.last() == merge_trace(
            trace,
            start,
            middle,
            end,
        ).values,
        start == end ==> merge_trace(trace, start, middle, end) == trace,
        sorted_between(merge_trace(trace, start, middle, end).values, start, end),
        same_values(merge_trace(trace, start, middle, end).values, whole),
        forall|k: int|
            0 <= k < start || end <= k < trace.values.len() ==> merge_trace(
                trace,
                start,
                middle,
                end,
            ).values[k] == trace.values[k],
{
    broadcast use vstd::multiset::group_multiset_axioms;

    let s = trace.values;
    let nothing = Seq::<u32>::empty();
    assert(s.subrange(start, start) =~= nothing);
    assert(s.subrange(middle, middle) =~= nothing);
    nothing.to_multiset_ensures();
    vstd::multiset::lemma_multiset_empty_len(nothing.to_multiset());
    assert(nothing.to_multiset() =~= s.subrange(start, start).to_multiset().add(
        s.subrange(middle, middle).to_multiset(),
    ));
    lemma_gather(s, start, middle, middle, end, nothing, start);
    let gathered = gather(s, start, middle, middle, end, nothing);
    assert(s.subrange(start, end) =~= s.subrange(start, middle) + s.subrange(middle, end));
    lemma_multiset_commutative(s.subrange(start, middle), s.subrange(middle, end));
    assert(same_values(gathered, s.subrange(start, end)));
    lemma_write_back(trace, start, gathered, 0, input, kind);
    let done = write_back(trace, start, gathered, 0);
    lemma_replaced_stretch(s, done.values, gathered, start, end);
    assert forall|i: int, j: int| start <= i <= j < end implies done.values[i] <= done.values[j] by {
        assert(done.values[start + (i - start)] == gathered[i - start]);
        assert(done.values[start + (j - start)] == gathered[j - start]);
    }
}

/// The sort of a stretch keeps a trace following and the values the same,
/// and leaves the stretch in order; values outside it stay as they are.
proof fn lemma_merge_sort_trace(trace: Trace, start: int, end: int, whole: Seq<u32>, input: Seq<u32>)
    requires
        trace.following(input, Step::Write),
        0 <= start <= end <= trace.values.len(),
        same_values(trace.values, whole),
    ensures
        merge_sort_trace(trace, start, end).following(input, Step::Write),
        sorted_between(merge_sort_trace(trace, start, end).values, start, end),
        same_values(merge_sort_trace(trace, start, end).values, whole),
        forall|k: int|
            0 <= k < start || end <= k < trace.values.len() ==> merge_sort_trace(
                trace,
                start,
                end,
            ).values[k] == trace.values[k],
    decreases end - start,
{
    if end - start > 1 {
        let middle = start + (end - start) / 2;
        lemma_merge_sort_trace(trace, start, middle, whole, input);
        let left_done = merge_sort_trace(trace, start, middle);
        lemma_merge_sort_trace(left_done, middle, end, whole, input);
        let right_done = merge_sort_trace(left_done, middle, end);
        assert forall|i: int, j: int| start <= i <= j < middle implies right_done.values[i]
            <= right_done.values[j] by {
            assert(right_done.values[i] == left_done.values[i]);
            assert(right_done.values[j] == left_done.values[j]);
        }
        lemma_merge_trace(right_done, start, middle, end, whole, input, Step::Write);
        let done = merge_trace(right_done, start, middle, end);
        assert forall|k: int| 0 <= k < start || end <= k < trace.values.len() implies done.values[k]
            == trace.values[k] by {
            assert(done.values[k] == right_done.values[k]);
            assert(right_done.values[k] == left_done.values[k]);
            assert(left_done.values[k] == trace.values[k]);
        }
    }
}

/// What merge sort records of an input that is not empty starts with the
/// input, goes on by writes of one value each, and ends with the values of
/// the input in order; it is the one frame of the input where that is a
/// single value.
pub proof fn law_merge_recording(input: Seq<u32>)
    requires
        input.len() > 0,
    ensures
        records_sort(input, merge_recording(input), Step::Write),
        input.len() == 1 ==> merge_recording(input) == seq![input],
{
    let start = Trace::start(input);
    assert(start.following(input, Step::Write));
    lemma_merge_sort_trace(start, 0, input.len() as int, input, input);
    let done = merge_sort_trace(start, 0, input.len() as int);
    assert(sorted(done.values));
    done.lemma_following_records_sort(input, Step::Write);
}

/// Merges two neighbouring sorted stretches, from `start` to `middle` and
/// from `middle` to `end`, into one sorted stretch: the merged values are
/// gathered aside, taking the left value when the two heads are equal, and
/// then written back position by position from the left. A frame is
/// recorded after every write.
pub(crate) fn merge_ranges(
    values: &mut Vec<u32>,
    start_index: usize,
    middle_index: usize,
    end_index: usize,
    frames: &mut Vec<Vec<u32>>,
    Ghost(base): Ghost<Seq<Vec<u32>>>,
)
    requires
        start_index <= middle_index <= end_index <= old(values)@.len(),
        grown(base, old(frames)@),
    ensures
        final(values)@.len() == old(values)@.len(),
        grown(base, final(frames)@),
        final(frames)@.len() >= old(frames)@.len(),
        trace_of(base, final(frames)@, final(values)@) == merge_trace(
            trace_of(base, old(frames)@, old(values)@),
            start_index as int,
            middle_index as int,
            end_index as int,
        ),
{
    let ghost entry_values = values@;
    let ghost entry_trace = trace_of(base, frames@, values@);
    let ghost all_gathered = gather(
        entry_values,
        start_index as int,
        middle_index as int,
        middle_index as int,
        end_index as int,
        Seq::empty(),
    );
    let mut left_index: usize = start_index;
    let mut right_index: usize = middle_index;

    let mut temporary_values: Vec<u32> = Vec::with_capacity(end_index - start_index);

    while left_index < middle_index && right_index < end_index
        invariant
            values@ == entry_values,
            start_index <= left_index <= middle_index <= right_index <= end_index <= values@.len(),
            temporary_values@.len() == (left_index - start_index) + (right_index - middle_index),
            gather(
                entry_values,
                left_index as int,
                middle_index as int,
                right_index as int,
                end_index as int,
                temporary_values@,
            ) == all_gathered,
        decreases (middle_index - left_index) + (end_index - right_index),
    {
        if values[left_index] <= values[right_index] {
            temporary_values.push(values[left_index]);
            left_index += 1;
        } else {
            temporary_values.push(values[right_index]);
            right_index += 1;
        }
    }

    while left_index < middle_index
        invariant
            values@ == entry_values,
            start_index <= left_index <= middle_index <= right_index <= end_index <= values@.len(),
            left_index < middle_index ==> right_index == end_index,
            temporary_values@.len() == (left_index - start_index) + (right_index - middle_index),
            gather(
                entry_values,
                left_index as int,
                middle_index as int,
                right_index as int,
                end_index as int,
                temporary_values@,
            ) == all_gathered,
        decreases middle_index - left_index,
    {
        temporary_values.push(values[left_index]);
        left_index += 1;
    }

    while right_index < end_index
        invariant
            values@ == entry_values,
            start_index <= left_index == middle_index <= right_index <= end_index <= values@.len(),
            temporary_values@.len() == (left_index - start_index) + (right_index - middle_index),
            gather(
                entry_values,
                left_index as int,
                middle_index as int,
                right_index as int,
                end_index as int,
                temporary_values@,
            ) == all_gathered,
        decreases end_index - right_index,
    {
        temporary_values.push(values[right_index]);
        right_index += 1;
    }

    let count = temporary_values.len();
    let mut offset: usize = 0;
    while offset < count
        invariant
            count == temporary_values@.len(),
            count == end_index - start_index,
            offset <= count,
            start_index <= end_index <= values@.len(),
            values@.len() == entry_values.len(),
            temporary_values@ == all_gathered,
            grown(base, frames@),
            frames@.len() >= old(frames)@.len(),
            write_back(
                trace_of(base, frames@, values@),
                start_index as int,
                temporary_values@,
                offset as int,
            ) == write_back(entry_trace, start_index as int, temporary_values@, 0),
        decreases count - offset,
    {
        let temporary_value = temporary_values[offset];
        write_recorded(values, start_index + offset, temporary_value, frames, Ghost(base));
        offset += 1;
    }
}

/// Sorts the values from `start` up to, not including, `end`: each half is
/// sorted in the same way, the left half first, and the two are merged.
pub(crate) fn merge_sort_recursive(
    values: &mut Vec<u32>,
    start_index: usize,
    end_index: usize,
    frames: &mut Vec<Vec<u32>>,
    Ghost(base): Ghost<Seq<Vec<u32>>>,
)
    requires
        start_index <= end_index <= old(values)@.len(),
        grown(base, old(frames)@),
    ensures
        final(values)@.len() == old(values)@.len(),
        grown(base, final(frames)@),
        final(frames)@.len() >= old(frames)@.len(),
        trace_of(base, final(frames)@, final(values)@) == merge_sort_trace(
            trace_of(base, old(frames)@, old(values)@),
            start_index as int,
            end_index as int,
        ),
    decreases end_index - start_index,
{
    if end_index - start_index <= 1 {
        return;
    }
    let middle_index = start_index + (end_index - start_index) / 2;

    merge_sort_recursive(values, start_index, middle_index, frames, Ghost(base));
    merge_sort_recursive(values, middle_index, end_index, frames, Ghost(base));

    merge_ranges(values, start_index, middle_index, end_index, frames, Ghost(base));
}

/// Sorts a copy of `initial_values` by merging sorted halves and appends to
/// `frames` the initial values and the arrangement after every write of a
/// merged value into its position.
pub fn merge_sort_with_recording(initial_values: &[u32], frames: &mut Vec<Vec<u32>>)
    ensures
        grown(old(frames)@, final(frames)@),
        appended(old(frames)@, final(frames)@) == merge_recording(initial_values@),
        records_sort(initial_values@, appended(old(frames)@, final(frames)@), Step::Write),
        initial_values@.len() == 1 ==> appended(old(frames)@, final(frames)@)
            == seq![initial_values@],
{
    let mut values = slice_to_vec(initial_values);
    if values.is_empty() {
        assert(appended(old(frames)@, frames@) =~= Seq::<Seq<u32>>::empty());
        return;
    }
    let ghost base = frames@;
    record_initial(frames, &values);

    let length = values.len();
    if length > 1 {
        merge_sort_recursive(&mut values, 0, length, frames, Ghost(base));
    }
    seal_recording(frames, values, Ghost(base));
    proof {
        law_merge_recording(initial_values@);
    }
}

} // verus!
