use vstd::prelude::*;
use crate::order::{
    lemma_sorted_unique, lemma_swapped_same_values, same_frame, same_values, sorted, swap_values,
    swapped,
};

verus! {

/// The ways in which one frame of a recording may differ from the frame
/// before it.
pub enum Step {
    /// Two neighbours that stood in the wrong order have changed places.
    NeighbourSwap,
    /// Two values that stood in the wrong order have changed places.
    InversionSwap,
    /// Two values, the left one not smaller than the right one, have
    /// changed places.
    DescentSwap,
    /// Two values have changed places.
    Swap,
    /// One position has received a value.
    Write,
    /// At most two positions have received a value.
    DoubleWrite,
}

/// `b` is `a` after the neighbours at `i` and `i + 1`, which stood in the
/// wrong order, have changed places.
pub open spec fn neighbour_swap_at(a: Seq<u32>, b: Seq<u32>, i: int) -> bool {
    &&& 0 <= i < a.len() - 1
    &&& a[i] > a[i + 1]
    &&& b == swapped(a, i, i + 1)
}

/// `b` is `a` after the values at `i` and `j`, which stood in the wrong
/// order, have changed places.
pub open spec fn inversion_swap_at(a: Seq<u32>, b: Seq<u32>, i: int, j: int) -> bool {
    &&& 0 <= i < j < a.len()
    &&& a[i] > a[j]
    &&& b == swapped(a, i, j)
}

/// `b` is `a` after the values at `i` and `j`, the left one not smaller
/// than the right one, have changed places.
pub open spec fn descent_swap_at(a: Seq<u32>, b: Seq<u32>, i: int, j: int) -> bool {
    &&& 0 <= i < j < a.len()
    &&& a[i] >= a[j]
    &&& b == swapped(a, i, j)
}

/// `b` is `a` after the values at `i` and `j` have changed places.
pub open spec fn swap_at(a: Seq<u32>, b: Seq<u32>, i: int, j: int) -> bool {
    &&& 0 <= i < a.len()
    &&& 0 <= j < a.len()
    &&& b == swapped(a, i, j)
}

/// `b` is `a` after position `k` has received the value `v`.
pub open spec fn write_at(a: Seq<u32>, b: Seq<u32>, k: int, v: u32) -> bool {
    &&& 0 <= k < a.len()
    &&& b == a.update(k, v)
}

/// `b` is `a` after position `k` has received the value `v` and then
/// position `m` the value `w`.
pub open spec fn double_write_at(a: Seq<u32>, b: Seq<u32>, k: int, v: u32, m: int, w: u32) -> bool {
    &&& 0 <= k < a.len()
    &&& 0 <= m < a.len()
    &&& b == a.update(k, v).update(m, w)
}

impl Step {
    /// Frame `b` may follow frame `a` in a recording of this kind.
    pub open spec fn allows(self, a: Seq<u32>, b: Seq<u32>) -> bool {
        match self {
            Step::NeighbourSwap => exists|i: int| neighbour_swap_at(a, b, i),
            Step::InversionSwap => exists|i: int, j: int| inversion_swap_at(a, b, i, j),
            Step::DescentSwap => exists|i: int, j: int| descent_swap_at(a, b, i, j),
            Step::Swap => exists|i: int, j: int| swap_at(a, b, i, j),
            Step::Write => exists|k: int, v: u32| write_at(a, b, k, v),
            Step::DoubleWrite => exists|k: int, v: u32, m: int, w: u32|
                double_write_at(a, b, k, v, m, w),
        }
    }

    /// Steps of this kind only move values around.
    pub open spec fn rearranges(self) -> bool {
        self is NeighbourSwap || self is InversionSwap || self is DescentSwap || self is Swap
    }
}

/// A sort under recording: the values as they stand and the frames recorded
/// so far.
pub struct Trace {
    pub values: Seq<u32>,
    pub frames: Seq<Seq<u32>>,
}

impl Trace {
    /// The recording starts: its first frame shows the values.
    pub open spec fn start(values: Seq<u32>) -> Trace {
        Trace { values, frames: seq![values] }
    }

    /// Two values change places, and a frame shows the new arrangement.
    pub open spec fn swap(self, i: int, j: int) -> Trace {
        let values = swapped(self.values, i, j);
        Trace { values, frames: self.frames.push(values) }
    }

    /// A position receives a value, and a frame shows the new arrangement.
    pub open spec fn write(self, k: int, v: u32) -> Trace {
        let values = self.values.update(k, v);
        Trace { values, frames: self.frames.push(values) }
    }

    /// A position receives a value, and no frame shows it.
    pub open spec fn put(self, k: int, v: u32) -> Trace {
        Trace { values: self.values.update(k, v), frames: self.frames }
    }

    /// The recording ends: a last frame shows the values unless the last
    /// frame recorded shows them already.
    pub open spec fn sealed(self) -> Seq<Seq<u32>> {
        if self.frames.len() > 0 && self.frames.last() == self.values {
            self.frames
        } else {
            self.frames.push(self.values)
        }
    }
}

/// The sort under recording that is held in `values`, with the frames that
/// were added to those of `base`.
pub open spec fn trace_of(base: Seq<Vec<u32>>, frames: Seq<Vec<u32>>, values: Seq<u32>) -> Trace {
    Trace { values, frames: appended(base, frames) }
}

/// Every frame but the first follows from the one before it by one step.
pub open spec fn stepwise(rec: Seq<Seq<u32>>, kind: Step) -> bool {
    forall|k: int| 0 <= k < rec.len() - 1 ==> kind.allows(#[trigger] rec[k], rec[k + 1])
}

/// Every frame holds the values of `input`, each as often as `input` does.
pub open spec fn all_same_values(rec: Seq<Seq<u32>>, input: Seq<u32>) -> bool {
    forall|k: int| 0 <= k < rec.len() ==> same_values(#[trigger] rec[k], input)
}

/// Every frame has the given length.
pub open spec fn all_of_len(rec: Seq<Seq<u32>>, len: nat) -> bool {
    forall|k: int| 0 <= k < rec.len() ==> (#[trigger] rec[k]).len() == len
}

/// `after` begins with the frames of `before`, unchanged.
pub open spec fn grown(before: Seq<Vec<u32>>, after: Seq<Vec<u32>>) -> bool {
    &&& before.len() <= after.len()
    &&& forall|k: int| 0 <= k < before.len() ==> (#[trigger] after[k])@ == before[k]@
}

/// The frames that `after` holds beyond those of `before`.
pub open spec fn appended(before: Seq<Vec<u32>>, after: Seq<Vec<u32>>) -> Seq<Seq<u32>> {
    Seq::new((after.len() - before.len()) as nat, |k: int| after[before.len() + k]@)
}

/// `values` is `last` but for one position that has received a value.
pub open spec fn pending_write(last: Seq<u32>, values: Seq<u32>) -> bool {
    exists|p: int, v: u32| write_at(last, values, p, v)
}

/// A step keeps the length of the frame.
pub proof fn lemma_step_len(kind: Step, a: Seq<u32>, b: Seq<u32>)
    requires
        kind.allows(a, b),
    ensures
        a.len() == b.len(),
{
}

/// A step that only moves values around keeps the values.
pub proof fn lemma_step_same_values(kind: Step, a: Seq<u32>, b: Seq<u32>)
    requires
        kind.allows(a, b),
        kind.rearranges(),
    ensures
        same_values(b, a),
{
    match kind {
        Step::NeighbourSwap => {
            let i = choose|i: int| neighbour_swap_at(a, b, i);
            lemma_swapped_same_values(a, i, i + 1);
        },
        Step::InversionSwap => {
            let (i, j) = choose|i: int, j: int| inversion_swap_at(a, b, i, j);
            lemma_swapped_same_values(a, i, j);
        },
        Step::DescentSwap => {
            let (i, j) = choose|i: int, j: int| descent_swap_at(a, b, i, j);
            lemma_swapped_same_values(a, i, j);
        },
        Step::Swap => {
            let (i, j) = choose|i: int, j: int| swap_at(a, b, i, j);
            lemma_swapped_same_values(a, i, j);
        },
        _ => {},
    }
}

/// In a chain of steps all frames are as long as the first.
pub proof fn lemma_stepwise_len(rec: Seq<Seq<u32>>, kind: Step)
    requires
        rec.len() > 0,
        stepwise(rec, kind),
    ensures
        all_of_len(rec, rec[0].len()),
{
    assert forall|k: int| 0 <= k < rec.len() implies (#[trigger] rec[k]).len() == rec[0].len() by {
        lemma_stepwise_len_at(rec, kind, k);
    }
}

/// In a chain of steps the frame at `k` is as long as the first.
proof fn lemma_stepwise_len_at(rec: Seq<Seq<u32>>, kind: Step, k: int)
    requires
        stepwise(rec, kind),
        0 <= k < rec.len(),
    ensures
        rec[k].len() == rec[0].len(),
    decreases k,
{
    if k > 0 {
        lemma_stepwise_len_at(rec, kind, k - 1);
        assert(kind.allows(rec[k - 1], rec[k - 1 + 1]));
        lemma_step_len(kind, rec[k - 1], rec[k]);
    }
}

/// In a chain of steps that only move values around, all frames hold the
/// values of the first.
pub proof fn lemma_stepwise_same_values(rec: Seq<Seq<u32>>, kind: Step)
    requires
        rec.len() > 0,
        stepwise(rec, kind),
        kind.rearranges(),
    ensures
        all_same_values(rec, rec[0]),
{
    assert forall|k: int| 0 <= k < rec.len() implies same_values(#[trigger] rec[k], rec[0]) by {
        lemma_stepwise_same_values_at(rec, kind, k);
    }
}

/// In a chain of steps that only move values around, the frame at `k` holds
/// the values of the first.
proof fn lemma_stepwise_same_values_at(rec: Seq<Seq<u32>>, kind: Step, k: int)
    requires
        stepwise(rec, kind),
        kind.rearranges(),
        0 <= k < rec.len(),
    ensures
        same_values(rec[k], rec[0]),
    decreases k,
{
    if k > 0 {
        lemma_stepwise_same_values_at(rec, kind, k - 1);
        assert(kind.allows(rec[k - 1], rec[k - 1 + 1]));
        lemma_step_same_values(kind, rec[k - 1], rec[k]);
    }
}

/// `rec` records a sort of `input`: it is empty for an empty input; for any
/// other it starts with `input`, goes on by steps of the given kind and ends
/// with the values of `input` in non-decreasing order.
pub open spec fn records_sort(input: Seq<u32>, rec: Seq<Seq<u32>>, kind: Step) -> bool {
    if input.len() == 0 {
        rec.len() == 0
    } else {
        &&& rec.len() > 0
        &&& rec[0] == input
        &&& sorted(rec.last())
        &&& same_values(rec.last(), input)
        &&& stepwise(rec, kind)
        &&& all_of_len(rec, input.len())
        &&& kind.rearranges() ==> all_same_values(rec, input)
    }
}

impl Trace {
    /// The frames begin with `input`, go on by steps of the given kind and
    /// end with the values as they stand, which are as many as those of
    /// `input` and, where the steps only move values around, the same.
    pub open spec fn chained(self, input: Seq<u32>, kind: Step) -> bool {
        &&& self.frames.len() > 0
        &&& self.frames[0] == input
        &&& self.frames.last() == self.values
        &&& stepwise(self.frames, kind)
        &&& self.values.len() == input.len()
        &&& kind.rearranges() ==> same_values(self.values, input)
    }

    /// A chained trace stays chained over a step that a frame shows.
    pub proof fn lemma_chained_step(self, input: Seq<u32>, kind: Step, values: Seq<u32>)
        requires
            self.chained(input, kind),
            kind.allows(self.values, values),
        ensures
            (Trace { values, frames: self.frames.push(values) }).chained(input, kind),
    {
        let next = Trace { values, frames: self.frames.push(values) };
        lemma_step_len(kind, self.values, values);
        if kind.rearranges() {
            lemma_step_same_values(kind, self.values, values);
        }
        assert forall|k: int| 0 <= k < next.frames.len() - 1 implies kind.allows(
            #[trigger] next.frames[k],
            next.frames[k + 1],
        ) by {
            if k < self.frames.len() - 1 {
                assert(kind.allows(self.frames[k], self.frames[k + 1]));
            }
        }
    }

    /// The frames begin with `input` and go on by steps of the given kind,
    /// and the values as they stand are as many as those of `input` and are
    /// what the last frame shows or, in a recording by double writes, the
    /// last frame with one write that no frame shows yet.
    pub open spec fn following(self, input: Seq<u32>, kind: Step) -> bool {
        &&& self.frames.len() > 0
        &&& self.frames[0] == input
        &&& stepwise(self.frames, kind)
        &&& self.values.len() == input.len()
        &&& self.frames.last() == self.values || (kind is DoubleWrite && pending_write(
            self.frames.last(),
            self.values,
        ))
    }

    /// A following trace stays so over a write that a frame shows, and
    /// the frame shows the values as they stand.
    pub proof fn lemma_following_write(self, input: Seq<u32>, kind: Step, k: int, v: u32)
        requires
            self.following(input, kind),
            kind is Write || kind is DoubleWrite,
            0 <= k < self.values.len(),
        ensures
            self.write(k, v).following(input, kind),
            self.write(k, v).frames.last() == self.write(k, v).values,
    {
        let last = self.frames.last();
        let next = self.write(k, v);
        if last == self.values {
            assert(write_at(last, next.values, k, v));
            assert(next.values =~= last.update(k, v).update(k, v));
            assert(double_write_at(last, next.values, k, v, k, v));
        } else {
            let (p, w) = choose|p: int, w: u32| write_at(last, self.values, p, w);
            assert(double_write_at(last, next.values, p, w, k, v));
        }
        assert forall|i: int| 0 <= i < next.frames.len() - 1 implies kind.allows(
            #[trigger] next.frames[i],
            next.frames[i + 1],
        ) by {
            if i < self.frames.len() - 1 {
                assert(kind.allows(self.frames[i], self.frames[i + 1]));
            }
        }
    }

    /// A trace by double writes whose last frame shows the values stays
    /// following over a write that no frame shows.
    pub proof fn lemma_following_put(self, input: Seq<u32>, k: int, v: u32)
        requires
            self.following(input, Step::DoubleWrite),
            self.frames.last() == self.values,
            0 <= k < self.values.len(),
        ensures
            self.put(k, v).following(input, Step::DoubleWrite),
    {
        assert(write_at(self.frames.last(), self.put(k, v).values, k, v));
    }

    /// A following trace whose values are those of `input` in order
    /// records, once sealed, a sort of `input`.
    pub proof fn lemma_following_records_sort(self, input: Seq<u32>, kind: Step)
        requires
            input.len() > 0,
            self.following(input, kind),
            !kind.rearranges(),
            sorted(self.values),
            same_values(self.values, input),
        ensures
            records_sort(input, self.sealed(), kind),
            self.frames.last() == self.values ==> self.sealed() == self.frames,
    {
        let rec = self.sealed();
        if self.frames.last() != self.values {
            let last = self.frames.last();
            let (p, v) = choose|p: int, v: u32| write_at(last, self.values, p, v);
            assert(self.values =~= last.update(p, v).update(p, v));
            assert(double_write_at(last, self.values, p, v, p, v));
            assert forall|i: int| 0 <= i < rec.len() - 1 implies kind.allows(
                #[trigger] rec[i],
                rec[i + 1],
            ) by {
                if i < self.frames.len() - 1 {
                    assert(kind.allows(self.frames[i], self.frames[i + 1]));
                }
            }
        }
        lemma_stepwise_len(rec, kind);
    }

    /// A chained trace whose values are in order is sealed as it is and
    /// records a sort of `input`.
    pub proof fn lemma_chained_records_sort(self, input: Seq<u32>, kind: Step)
        requires
            input.len() > 0,
            self.chained(input, kind),
            sorted(self.values),
            same_values(self.values, input),
        ensures
            self.sealed() == self.frames,
            records_sort(input, self.sealed(), kind),
    {
        lemma_stepwise_len(self.frames, kind);
        if kind.rearranges() {
            lemma_stepwise_same_values(self.frames, kind);
        }
    }
}

/// Two recordings of sorts of the same input end with the same frame.
pub proof fn law_same_last_frame(
    input: Seq<u32>,
    one: Seq<Seq<u32>>,
    one_kind: Step,
    other: Seq<Seq<u32>>,
    other_kind: Step,
)
    requires
        input.len() > 0,
        records_sort(input, one, one_kind),
        records_sort(input, other, other_kind),
    ensures
        one.last() == other.last(),
{
    lemma_sorted_unique(one.last(), other.last());
}

/// Starts a recording: a copy of `values` becomes its first frame.
pub(crate) fn record_initial(frames: &mut Vec<Vec<u32>>, values: &Vec<u32>)
    ensures
        grown(old(frames)@, final(frames)@),
        final(frames)@.len() == old(frames)@.len() + 1,
        trace_of(old(frames)@, final(frames)@, values@) == Trace::start(values@),
{
    let copy = values.clone();
    assert(copy@ =~= values@);
    frames.push(copy);
    assert(appended(old(frames)@, frames@) =~= seq![values@]);
}

/// Records a copy of `values` as the next frame.
pub(crate) fn record_frame(
    frames: &mut Vec<Vec<u32>>,
    values: &Vec<u32>,
    Ghost(base): Ghost<Seq<Vec<u32>>>,
)
    requires
        grown(base, old(frames)@),
    ensures
        grown(base, final(frames)@),
        final(frames)@.len() == old(frames)@.len() + 1,
        appended(base, final(frames)@) == appended(base, old(frames)@).push(values@),
{
    let copy = values.clone();
    assert(copy@ =~= values@);
    frames.push(copy);
    assert(appended(base, frames@) =~= appended(base, old(frames)@).push(values@));
}

/// Exchanges two values and records the new arrangement as the next frame.
pub(crate) fn swap_recorded(
    values: &mut Vec<u32>,
    i: usize,
    j: usize,
    frames: &mut Vec<Vec<u32>>,
    Ghost(base): Ghost<Seq<Vec<u32>>>,
)
    requires
        grown(base, old(frames)@),
        i < old(values)@.len(),
        j < old(values)@.len(),
    ensures
        final(values)@ == swapped(old(values)@, i as int, j as int),
        final(values)@.len() == old(values)@.len(),
        grown(base, final(frames)@),
        final(frames)@.len() == old(frames)@.len() + 1,
        trace_of(base, final(frames)@, final(values)@) == trace_of(
            base,
            old(frames)@,
            old(values)@,
        ).swap(i as int, j as int),
{
    swap_values(values, i, j);
    record_frame(frames, values, Ghost(base));
}

/// Gives one position a value and records the new arrangement as the next
/// frame.
pub(crate) fn write_recorded(
    values: &mut Vec<u32>,
    k: usize,
    v: u32,
    frames: &mut Vec<Vec<u32>>,
    Ghost(base): Ghost<Seq<Vec<u32>>>,
)
    requires
        grown(base, old(frames)@),
        k < old(values)@.len(),
    ensures
        final(values)@ == old(values)@.update(k as int, v),
        grown(base, final(frames)@),
        final(frames)@.len() == old(frames)@.len() + 1,
        trace_of(base, final(frames)@, final(values)@) == trace_of(
            base,
            old(frames)@,
            old(values)@,
        ).write(k as int, v),
{
    values[k] = v;
    record_frame(frames, values, Ghost(base));
}

/// Ends a recording: `values` becomes its last frame unless the last frame
/// already holds these values.
pub(crate) fn seal_recording(
    frames: &mut Vec<Vec<u32>>,
    values: Vec<u32>,
    Ghost(base): Ghost<Seq<Vec<u32>>>,
)
    requires
        grown(base, old(frames)@),
        old(frames)@.len() > base.len(),
    ensures
        grown(base, final(frames)@),
        appended(base, final(frames)@) == trace_of(base, old(frames)@, values@).sealed(),
{
    let count = frames.len();
    assert(appended(base, frames@).last() == frames@.last()@);
    if !same_frame(&frames[count - 1], &values) {
        record_frame(frames, &values, Ghost(base));
    }
}

} // verus!
