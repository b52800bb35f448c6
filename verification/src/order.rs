use vstd::prelude::*;

verus! {

/// The values of `s` never decrease from left to right.
pub open spec fn sorted(s: Seq<u32>) -> bool {
    forall|i: int, j: int| 0 <= i <= j < s.len() ==> s[i] <= s[j]
}

/// The values of `s` strictly increase from left to right.
pub open spec fn strictly_increasing(s: Seq<u32>) -> bool {
    forall|i: int, j: int| 0 <= i < j < s.len() ==> s[i] < s[j]
}

/// The values of `s` at the positions from `lo` up to, not including, `hi`
/// never decrease from left to right.
pub open spec fn sorted_between(s: Seq<u32>, lo: int, hi: int) -> bool {
    forall|i: int, j: int| lo <= i <= j < hi ==> s[i] <= s[j]
}

/// The values of `s` at the positions from `lo` up to, not including, `hi`
/// strictly increase from left to right.
pub open spec fn strictly_increasing_between(s: Seq<u32>, lo: int, hi: int) -> bool {
    forall|i: int, j: int| lo <= i < j < hi ==> s[i] < s[j]
}

/// The values of `s` at the positions from `lo` up to, not including, `hi`
/// lie between `lower` and `upper`.
pub open spec fn bounded_between(s: Seq<u32>, lo: int, hi: int, lower: u32, upper: u32) -> bool {
    forall|k: int| lo <= k < hi ==> lower <= #[trigger] s[k] <= upper
}

/// `s` and `t` have the same values at the positions before `lo` and from
/// `hi` on.
pub open spec fn same_outside(s: Seq<u32>, t: Seq<u32>, lo: int, hi: int) -> bool {
    &&& s.len() == t.len()
    &&& forall|k: int| 0 <= k < lo || hi <= k < s.len() ==> #[trigger] s[k] == t[k]
}

/// The values up to position `frontier` are in order but for the one at
/// `walker`, which is at most every value between it and the frontier.
pub open spec fn ordered_but(s: Seq<u32>, walker: int, frontier: int) -> bool {
    &&& forall|i: int, j: int|
        0 <= i <= j <= frontier && j < s.len() && i != walker && j != walker ==> s[i] <= s[j]
    &&& forall|j: int|
        walker < j <= frontier && j < s.len() && 0 <= walker ==> s[walker] <= #[trigger] s[j]
}

/// `a` and `b` hold the same values, each as often as the other.
pub open spec fn same_values(a: Seq<u32>, b: Seq<u32>) -> bool {
    a.to_multiset() == b.to_multiset()
}

/// `s` with the values at positions `i` and `j` exchanged.
pub open spec fn swapped(s: Seq<u32>, i: int, j: int) -> Seq<u32> {
    s.update(i, s[j]).update(j, s[i])
}

/// Each value is weighted by its position; exchanging an inverted pair
/// strictly increases this sum, which bounds the number of such exchanges.
pub open spec fn position_weight(s: Seq<u32>) -> int
    decreases s.len(),
{
    if s.len() == 0 {
        0
    } else {
        position_weight(s.drop_last()) + (s.len() - 1) * s.last()
    }
}

/// An upper bound of `position_weight` for every sequence of length `n`.
pub open spec fn weight_limit(n: nat) -> int {
    (n * n * 0x1_0000_0000) as int
}

/// Exchanging two values keeps the values and their number.
pub proof fn lemma_swapped_same_values(s: Seq<u32>, i: int, j: int)
    requires
        0 <= i < s.len(),
        0 <= j < s.len(),
    ensures
        same_values(swapped(s, i, j), s),
        swapped(s, i, j).len() == s.len(),
{
    broadcast use vstd::multiset::group_multiset_axioms;

    let mid = s.update(i, s[j]);
    vstd::seq_lib::to_multiset_update(s, i, s[j]);
    vstd::seq_lib::to_multiset_update(mid, j, s[i]);
    s.to_multiset_ensures();
    assert(s.contains(s[i]));
    assert(s.contains(s[j]));
    assert(mid[j] == s[j]);
    assert(swapped(s, i, j).to_multiset() =~= s.to_multiset());
}

/// Exchanging the walking value with a greater left neighbour keeps the
/// rest in order.
pub proof fn lemma_walk_back(s: Seq<u32>, walker: int, frontier: int)
    requires
        ordered_but(s, walker, frontier),
        1 <= walker <= frontier < s.len(),
        s[walker - 1] > s[walker],
    ensures
        ordered_but(swapped(s, walker - 1, walker), walker - 1, frontier),
{
    let t = swapped(s, walker - 1, walker);
    assert forall|i: int, j: int|
        0 <= i <= j <= frontier && j < t.len() && i != walker - 1 && j != walker - 1
        implies t[i] <= t[j] by {
        if j == walker {
            assert(s[i] <= s[walker - 1]);
        } else if i == walker {
            assert(s[walker - 1] <= s[j]);
        } else {
            assert(s[i] <= s[j]);
        }
    }
    assert forall|j: int| walker - 1 < j <= frontier && j < t.len() implies t[walker - 1]
        <= #[trigger] t[j] by {
        if j > walker {
            assert(s[walker] <= s[j]);
        }
    }
}

/// Once the walking value has no greater left neighbour, all values up to
/// the frontier are in order.
pub proof fn lemma_walk_done(s: Seq<u32>, walker: int, frontier: int)
    requires
        ordered_but(s, walker, frontier),
        0 <= walker <= frontier < s.len(),
        walker == 0 || s[walker - 1] <= s[walker],
    ensures
        sorted_between(s, 0, frontier + 1),
{
    assert forall|i: int, j: int| 0 <= i <= j < frontier + 1 implies s[i] <= s[j] by {
        if j == walker && i < walker {
            assert(s[i] <= s[walker - 1]);
        } else if i == walker && j > walker {
            assert(s[walker] <= s[j]);
        }
    }
}

/// A sequence whose neighbours are in order is sorted.
pub proof fn lemma_neighbours_sorted(s: Seq<u32>)
    requires
        forall|k: int| 0 <= k < s.len() - 1 ==> s[k] <= #[trigger] s[k + 1],
    ensures
        sorted(s),
{
    assert forall|i: int, j: int| 0 <= i <= j < s.len() implies s[i] <= s[j] by {
        lemma_neighbours_reach(s, i, j);
    }
}

/// Where neighbours are in order, a value is at most every later one.
proof fn lemma_neighbours_reach(s: Seq<u32>, i: int, j: int)
    requires
        forall|k: int| 0 <= k < s.len() - 1 ==> s[k] <= #[trigger] s[k + 1],
        0 <= i <= j < s.len(),
    ensures
        s[i] <= s[j],
    decreases j - i,
{
    if i < j {
        lemma_neighbours_reach(s, i, j - 1);
        assert(s[j - 1] <= s[(j - 1) + 1]);
    }
}

/// A stretch of a sequence whose neighbours are in order is in order.
pub proof fn lemma_neighbours_sorted_range(s: Seq<u32>, lo: int, hi: int)
    requires
        0 <= lo <= hi < s.len(),
        forall|k: int| lo <= k < hi ==> s[k] <= #[trigger] s[k + 1],
    ensures
        forall|i: int, j: int| lo <= i <= j <= hi ==> s[i] <= s[j],
{
    assert forall|i: int, j: int| lo <= i <= j <= hi implies s[i] <= s[j] by {
        lemma_neighbours_reach_range(s, lo, hi, i, j);
    }
}

/// Within a stretch whose neighbours are in order, a value is at most every
/// later one.
proof fn lemma_neighbours_reach_range(s: Seq<u32>, lo: int, hi: int, i: int, j: int)
    requires
        0 <= lo <= hi < s.len(),
        forall|k: int| lo <= k < hi ==> s[k] <= #[trigger] s[k + 1],
        lo <= i <= j <= hi,
    ensures
        s[i] <= s[j],
    decreases j - i,
{
    if i < j {
        lemma_neighbours_reach_range(s, lo, hi, i, j - 1);
        assert(s[j - 1] <= s[(j - 1) + 1]);
    }
}

/// Two sorted sequences with the same values are the same sequence.
pub proof fn lemma_sorted_unique(a: Seq<u32>, b: Seq<u32>)
    requires
        sorted(a),
        sorted(b),
        same_values(a, b),
    ensures
        a == b,
{
    let leq = |x: u32, y: u32| x <= y;
    assert(vstd::relations::total_ordering(leq));
    assert(vstd::relations::sorted_by(a, leq));
    assert(vstd::relations::sorted_by(b, leq));
    vstd::seq_lib::lemma_sorted_unique(a, b, leq);
}

/// Every value of a rearrangement occurs in the sequence it rearranges.
pub proof fn lemma_same_values_member(a: Seq<u32>, b: Seq<u32>, k: int)
    requires
        same_values(a, b),
        0 <= k < a.len(),
    ensures
        exists|m: int| 0 <= m < b.len() && b[m] == a[k],
{
    a.to_multiset_ensures();
    b.to_multiset_ensures();
    assert(a.contains(a[k]));
    assert(a.to_multiset().count(a[k]) > 0);
    assert(b.to_multiset().count(a[k]) > 0);
    assert(b.contains(a[k]));
    let m = choose|m: int| 0 <= m < b.len() && b[m] == a[k];
    assert(0 <= m < b.len() && b[m] == a[k]);
}

/// Giving position `i` the value `v` changes the weight by `i` times the
/// change of the value.
pub proof fn lemma_position_weight_update(s: Seq<u32>, i: int, v: u32)
    requires
        0 <= i < s.len(),
    ensures
        position_weight(s.update(i, v)) == position_weight(s) + i * (v - s[i]),
    decreases s.len(),
{
    let t = s.update(i, v);
    if i == s.len() - 1 {
        assert(t.drop_last() =~= s.drop_last());
        assert((s.len() - 1) * v == (s.len() - 1) * s.last() + i * (v - s[i])) by (nonlinear_arith)
            requires
                i == s.len() - 1,
                s.last() == s[i],
        ;
    } else {
        assert(t.drop_last() =~= s.drop_last().update(i, v));
        lemma_position_weight_update(s.drop_last(), i, v);
        assert(t.last() == s.last());
    }
}

/// The weight lies between 0 and the limit for the length.
pub proof fn lemma_position_weight_limit(s: Seq<u32>)
    ensures
        0 <= position_weight(s) <= weight_limit(s.len()),
    decreases s.len(),
{
    if s.len() > 0 {
        let n = s.len() as int;
        lemma_position_weight_limit(s.drop_last());
        assert((n - 1) * (n - 1) * 0x1_0000_0000 + (n - 1) * s.last() <= n * n * 0x1_0000_0000
            && 0 <= (n - 1) * s.last()) by (nonlinear_arith)
            requires
                n >= 1,
                0 <= s.last() < 0x1_0000_0000,
        ;
    }
}

/// Exchanging two values that stand in the wrong order raises the weight.
pub proof fn lemma_inversion_swap_weight(s: Seq<u32>, i: int, j: int)
    requires
        0 <= i < j < s.len(),
        s[i] > s[j],
    ensures
        position_weight(swapped(s, i, j)) > position_weight(s),
{
    let mid = s.update(i, s[j]);
    lemma_position_weight_update(s, i, s[j]);
    lemma_position_weight_update(mid, j, s[i]);
    assert(mid[j] == s[j]);
    assert(i * (s[j] - s[i]) + j * (s[i] - s[j]) > 0) by (nonlinear_arith)
        requires
            0 <= i < j,
            s[i] > s[j],
    ;
}

/// Exchanges the values at two positions.
pub fn swap_values(values: &mut Vec<u32>, i: usize, j: usize)
    requires
        i < old(values)@.len(),
        j < old(values)@.len(),
    ensures
        final(values)@ == swapped(old(values)@, i as int, j as int),
{
    let first = values[i];
    let second = values[j];
    values[i] = second;
    values[j] = first;
}

/// Tells whether two frames hold the same values at the same positions.
pub fn same_frame(a: &Vec<u32>, b: &Vec<u32>) -> (result: bool)
    ensures
        result == (a@ == b@),
{
    if a.len() != b.len() {
        return false;
    }
    let length = a.len();
    let mut index: usize = 0;
    while index < length
        invariant
            index <= length,
            length == a@.len(),
            length == b@.len(),
            forall|k: int| 0 <= k < index ==> a@[k] == b@[k],
        decreases length - index,
    {
        if a[index] != b[index] {
            return false;
        }
        index += 1;
    }
    assert(a@ =~= b@);
    true
}

} // verus!
