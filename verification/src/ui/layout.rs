use vstd::prelude::*;

verus! {

/// The most columns that the grid of panels has.
pub const MAX_GRID_COLUMNS: usize = 4;

/// `count` divided by `by`, rounded up.
pub open spec fn divided_up(count: int, by: int) -> int {
    if count % by == 0 {
        count / by
    } else {
        count / by + 1
    }
}

/// The smaller of two numbers.
pub open spec fn least(a: int, b: int) -> int {
    if a <= b {
        a
    } else {
        b
    }
}

/// The number of columns of the grid for `algorithm_count` panels, where
/// the width has room for `columns_from_width` columns and the height for
/// `rows_from_height` rows: as many as the width has room for, at most 4
/// and at most one for each panel; and where there is room for three rows
/// and there are three panels or more, no more than fill three rows, or
/// where there is room for two rows and there are two panels or more, no
/// more than fill two rows.
pub open spec fn grid_columns(
    columns_from_width: int,
    rows_from_height: int,
    algorithm_count: int,
) -> int {
    let capped = least(columns_from_width, MAX_GRID_COLUMNS as int);
    if rows_from_height >= 3 && algorithm_count >= 3 {
        least(least(capped, divided_up(algorithm_count, 3)), algorithm_count)
    } else if rows_from_height >= 2 && algorithm_count > 1 {
        least(least(capped, divided_up(algorithm_count, 2)), algorithm_count)
    } else {
        least(capped, algorithm_count)
    }
}

/// The number of rows that `algorithm_count` panels fill in
/// `column_count` columns, at least 1.
pub open spec fn grid_rows(algorithm_count: int, column_count: int) -> int {
    if divided_up(algorithm_count, column_count) < 1 {
        1
    } else {
        divided_up(algorithm_count, column_count)
    }
}

/// Divides and rounds up.
fn divide_up(count: usize, by: usize) -> (result: usize)
    requires
        by > 0,
    ensures
        result == divided_up(count as int, by as int),
{
    if count % by == 0 {
        count / by
    } else {
        assert(count >= 1) by (nonlinear_arith)
            requires
                by > 0,
                count % by != 0,
                count >= 0,
        ;
        assert(count / by < count) by (nonlinear_arith)
            requires
                by >= 2,
                count >= 1,
        ;
        count / by + 1
    }
}

/// The smaller of two numbers.
fn smaller(a: usize, b: usize) -> (result: usize)
    ensures
        result == least(a as int, b as int),
{
    if a <= b {
        a
    } else {
        b
    }
}

/// Computes the number of columns of the grid.
pub fn grid_column_count(
    columns_from_width: usize,
    rows_from_height: usize,
    algorithm_count: usize,
) -> (columns: usize)
    ensures
        columns == grid_columns(
            columns_from_width as int,
            rows_from_height as int,
            algorithm_count as int,
        ),
{
    let columns_capped = smaller(columns_from_width, MAX_GRID_COLUMNS);
    if rows_from_height >= 3 && algorithm_count >= 3 {
        let max_columns_for_three_rows = divide_up(algorithm_count, 3);
        smaller(smaller(columns_capped, max_columns_for_three_rows), algorithm_count)
    } else if rows_from_height >= 2 && algorithm_count > 1 {
        let max_columns_for_two_rows = divide_up(algorithm_count, 2);
        smaller(smaller(columns_capped, max_columns_for_two_rows), algorithm_count)
    } else {
        smaller(columns_capped, algorithm_count)
    }
}

/// Computes the number of rows of the grid.
pub fn grid_row_count(algorithm_count: usize, column_count: usize) -> (rows: usize)
    requires
        column_count > 0,
    ensures
        rows == grid_rows(algorithm_count as int, column_count as int),
{
    let rows = divide_up(algorithm_count, column_count);
    if rows < 1 {
        1
    } else {
        rows
    }
}

/// The first position at which two frames differ: the first at which both
/// have a value and the values differ, or, where one frame is the start of
/// the other, the length of the shorter one; none where the frames are the
/// same.
pub open spec fn first_difference(previous: Seq<u32>, current: Seq<u32>) -> Option<int> {
    if previous == current {
        None
    } else {
        Some(
            choose|i: int|
                differs_first_at(previous, current, i),
        )
    }
}

/// The frames are the same before position `i` and differ there.
pub open spec fn differs_first_at(previous: Seq<u32>, current: Seq<u32>, i: int) -> bool {
    &&& 0 <= i <= previous.len()
    &&& i <= current.len()
    &&& forall|k: int| 0 <= k < i ==> previous[k] == current[k]
    &&& if i < previous.len() && i < current.len() {
        previous[i] != current[i]
    } else {
        previous.len() != current.len()
    }
}

/// Two positions at which the frames differ first are the same position.
pub proof fn lemma_first_difference_unique(previous: Seq<u32>, current: Seq<u32>, i: int, j: int)
    requires
        differs_first_at(previous, current, i),
        differs_first_at(previous, current, j),
    ensures
        i == j,
{
    if i < j {
        assert(previous[i] == current[i]);
    } else if j < i {
        assert(previous[j] == current[j]);
    }
}

/// Finds the first position at which two frames differ.
pub fn detect_first_changed_index(previous: &[u32], current: &[u32]) -> (changed: Option<usize>)
    ensures
        changed is None <==> previous@ == current@,
        changed matches Some(i) ==> differs_first_at(previous@, current@, i as int)
            && first_difference(previous@, current@) == Some(i as int),
{
    let min_len = if previous.len() <= current.len() {
        previous.len()
    } else {
        current.len()
    };
    let mut index: usize = 0;
    while index < min_len
        invariant
            index <= min_len,
            min_len <= previous@.len(),
            min_len <= current@.len(),
            forall|k: int| 0 <= k < index ==> previous@[k] == current@[k],
        decreases min_len - index,
    {
        if previous[index] != current[index] {
            proof {
                let found = index as int;
                assert(differs_first_at(previous@, current@, found));
                let chosen = choose|i: int| differs_first_at(previous@, current@, i);
                lemma_first_difference_unique(previous@, current@, found, chosen);
            }
            return Some(index);
        }
        index += 1;
    }
    if previous.len() != current.len() {
        proof {
            let found = min_len as int;
            assert(differs_first_at(previous@, current@, found));
            let chosen = choose|i: int| differs_first_at(previous@, current@, i);
            lemma_first_difference_unique(previous@, current@, found, chosen);
        }
        return Some(min_len);
    }
    assert(previous@ =~= current@);
    None
}

} // verus!
