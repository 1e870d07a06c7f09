//! Weight matrices and what can be wrong with them.

use vstd::prelude::*;
use crate::codec::rows_view;
use crate::error::ConstructionError;
use crate::neuron::WEIGHT_ONE;

verus! {

/// What is wrong with a weight matrix.
#[derive(Clone, Copy, Debug, PartialEq, Eq, Structural)]
pub enum WeightsDefect {
    /// The number of rows.
    Rows,
    /// The length of a row.
    Columns,
    /// A weight outside the range.
    Range,
}

/// Every weight of `row` lies between `lo` and `hi`.
pub open spec fn in_range(row: Seq<i32>, lo: int, hi: int) -> bool {
    forall|j: int| 0 <= j < row.len() ==> lo <= #[trigger] row[j] <= hi
}

/// The defect of one row that is to hold `cols` weights between `lo` and `hi`, if it has
/// one: its length is looked at before its weights.
pub open spec fn row_defect(row: Seq<i32>, cols: nat, lo: int, hi: int) -> Option<WeightsDefect> {
    if row.len() != cols {
        Some(WeightsDefect::Columns)
    } else if !in_range(row, lo, hi) {
        Some(WeightsDefect::Range)
    } else {
        None
    }
}

/// The defect of the first defective row among the first `n` rows of `weights`.
pub open spec fn rows_defect(weights: Seq<Seq<i32>>, cols: nat, lo: int, hi: int, n: int) -> Option<
    WeightsDefect,
>
    decreases n,
{
    if n <= 0 {
        None
    } else {
        match rows_defect(weights, cols, lo, hi, n - 1) {
            Some(d) => Some(d),
            None => row_defect(weights[n - 1], cols, lo, hi),
        }
    }
}

/// The defect of a matrix that is to hold `rows` rows of `cols` weights between `lo` and
/// `hi`, if it has one: the number of rows is looked at first, then the rows in their
/// order.
pub open spec fn weights_defect(
    weights: Seq<Seq<i32>>,
    rows: nat,
    cols: nat,
    lo: int,
    hi: int,
) -> Option<WeightsDefect> {
    if weights.len() != rows {
        Some(WeightsDefect::Rows)
    } else {
        rows_defect(weights, cols, lo, hi, weights.len() as int)
    }
}

/// The error that stands for a defect of the extra weights.
pub open spec fn extra_error(defect: WeightsDefect) -> ConstructionError {
    match defect {
        WeightsDefect::Rows => ConstructionError::ExtraWeightsRows,
        WeightsDefect::Columns => ConstructionError::ExtraWeightsColumns,
        WeightsDefect::Range => ConstructionError::ExtraWeightsRange,
    }
}

/// The error that stands for a defect of the intra weights.
pub open spec fn intra_error(defect: WeightsDefect) -> ConstructionError {
    match defect {
        WeightsDefect::Rows => ConstructionError::IntraWeightsRows,
        WeightsDefect::Columns => ConstructionError::IntraWeightsColumns,
        WeightsDefect::Range => ConstructionError::IntraWeightsRange,
    }
}

/// The defect for which extra weights are rejected for a layer of `neurons` neurons and
/// `input_dim` inputs, if they have one: every weight has to lie between zero and one unit.
pub open spec fn extra_weights_defect(weights: Seq<Seq<i32>>, neurons: nat, input_dim: nat) -> Option<
    ConstructionError,
> {
    match weights_defect(weights, neurons, input_dim, 0, WEIGHT_ONE as int) {
        Some(d) => Some(extra_error(d)),
        None => None,
    }
}

/// The defect for which intra weights are rejected for a layer of `neurons` neurons, if
/// they have one: every weight has to lie between minus one unit and zero.
pub open spec fn intra_weights_defect(weights: Seq<Seq<i32>>, neurons: nat) -> Option<
    ConstructionError,
> {
    match weights_defect(weights, neurons, neurons, -(WEIGHT_ONE as int), 0) {
        Some(d) => Some(intra_error(d)),
        None => None,
    }
}

/// The number of inputs that extra weights are written for: the length of their first row,
/// and 0 without rows.
pub open spec fn width_of(weights: Seq<Seq<i32>>) -> nat {
    if weights.len() == 0 {
        0
    } else {
        weights[0].len()
    }
}

/// The defect for which a layer of `neurons` neurons and `input_dim` inputs with these
/// weights is rejected where weights have to lie in their ranges, if it has one. The intra
/// weights are looked at first.
pub open spec fn ranged_defect(
    input_dim: nat,
    neurons: nat,
    extra_weights: Seq<Seq<i32>>,
    intra_weights: Seq<Seq<i32>>,
) -> Option<ConstructionError> {
    match intra_weights_defect(intra_weights, neurons) {
        Some(e) => Some(e),
        None => extra_weights_defect(extra_weights, neurons, input_dim),
    }
}

/// The first `n` rows have no defect exactly if each holds `cols` weights between `lo`
/// and `hi`.
pub proof fn lemma_rows_defect_none(weights: Seq<Seq<i32>>, cols: nat, lo: int, hi: int, n: int)
    requires
        0 <= n <= weights.len(),
    ensures
        rows_defect(weights, cols, lo, hi, n) is None <==> (forall|i: int|
            0 <= i < n ==> (#[trigger] weights[i]).len() == cols && in_range(weights[i], lo, hi)),
    decreases n,
{
    if n > 0 {
        lemma_rows_defect_none(weights, cols, lo, hi, n - 1);
    }
}

/// The first defect found stays the answer however many more rows are looked at.
pub proof fn lemma_rows_defect_stays(
    weights: Seq<Seq<i32>>,
    cols: nat,
    lo: int,
    hi: int,
    n: int,
    k: int,
)
    requires
        n <= k,
        rows_defect(weights, cols, lo, hi, n) is Some,
    ensures
        rows_defect(weights, cols, lo, hi, k) == rows_defect(weights, cols, lo, hi, n),
    decreases k - n,
{
    if n < k {
        lemma_rows_defect_stays(weights, cols, lo, hi, n, k - 1);
    }
}

/// Tells whether every weight of `row` lies between `lo` and `hi`.
pub fn check_range(row: &Vec<i32>, lo: i32, hi: i32) -> (ok: bool)
    ensures
        ok == in_range(row@, lo as int, hi as int),
{
    let mut j: usize = 0;
    while j < row.len()
        invariant
            j <= row@.len(),
            forall|k: int| 0 <= k < j ==> lo <= #[trigger] row@[k] <= hi,
        decreases row@.len() - j,
    {
        if row[j] < lo || row[j] > hi {
            return false;
        }
        j += 1;
    }
    true
}

/// Tells which defect `weights` has as a matrix of `rows` rows of `cols` weights between
/// `lo` and `hi`, if any.
pub fn find_defect(weights: &Vec<Vec<i32>>, rows: usize, cols: usize, lo: i32, hi: i32) -> (defect:
    Option<WeightsDefect>)
    ensures
        defect == weights_defect(
            weights.deep_view(),
            rows as nat,
            cols as nat,
            lo as int,
            hi as int,
        ),
{
    let ghost matrix = weights.deep_view();
    if weights.len() != rows {
        return Some(WeightsDefect::Rows);
    }
    let mut i: usize = 0;
    while i < weights.len()
        invariant
            i <= weights@.len(),
            weights@.len() == rows,
            matrix == weights.deep_view(),
            rows_defect(matrix, cols as nat, lo as int, hi as int, i as int) is None,
        decreases weights@.len() - i,
    {
        assert(matrix[i as int] == weights@[i as int]@);
        proof {
            if row_defect(matrix[i as int], cols as nat, lo as int, hi as int) is Some {
                lemma_rows_defect_stays(
                    matrix,
                    cols as nat,
                    lo as int,
                    hi as int,
                    i + 1,
                    weights@.len() as int,
                );
            }
        }
        if weights[i].len() != cols {
            return Some(WeightsDefect::Columns);
        }
        if !check_range(&weights[i], lo, hi) {
            return Some(WeightsDefect::Range);
        }
        i += 1;
    }
    None
}

/// Copies weight rows of one fixed length into a matrix of vectors.
pub fn weight_rows_of<const COLS: usize>(weights: &[[i32; COLS]]) -> (rows: Vec<Vec<i32>>)
    ensures
        rows.deep_view() == rows_view(weights@),
{
    let mut rows: Vec<Vec<i32>> = Vec::new();
    let mut i: usize = 0;
    while i < weights.len()
        invariant
            i <= weights@.len(),
            rows@.len() == i,
            forall|r: int| 0 <= r < i ==> (#[trigger] rows@[r])@ == weights@[r]@,
        decreases weights@.len() - i,
    {
        let mut row: Vec<i32> = Vec::new();
        let mut j: usize = 0;
        while j < COLS
            invariant
                j <= COLS,
                i < weights@.len(),
                row@.len() == j,
                forall|k: int| 0 <= k < j ==> row@[k] == weights@[i as int]@[k],
            decreases COLS - j,
        {
            row.push(weights[i][j]);
            j += 1;
        }
        assert(row@ =~= weights@[i as int]@);
        rows.push(row);
        i += 1;
    }
    assert(rows.deep_view() =~~= rows_view(weights@));
    rows
}

} // verus!
