//! What can be wrong with a spike matrix that is handed to a network.

use vstd::prelude::*;
use crate::codec::{is_binary_matrix, is_rectangular};
use crate::error::InputContractError;
use crate::spike::{check_binary, is_binary};

verus! {

/// The duration that a matrix states: the length of its first row, and 0 without rows.
pub open spec fn duration_of(matrix: Seq<Seq<u8>>) -> nat {
    if matrix.len() == 0 {
        0
    } else {
        matrix[0].len()
    }
}

/// The defect of one row of a matrix of `duration` instants, if it has one: its length is
/// looked at before its values.
pub open spec fn row_defect(row: Seq<u8>, duration: nat) -> Option<InputContractError> {
    if row.len() != duration {
        Some(InputContractError::RaggedRows)
    } else if !is_binary(row) {
        Some(InputContractError::NonBinarySpike)
    } else {
        None
    }
}

/// The defect of the first defective row among the first `n` rows of `matrix`.
pub open spec fn rows_defect(matrix: Seq<Seq<u8>>, duration: nat, n: int) -> Option<
    InputContractError,
>
    decreases n,
{
    if n <= 0 {
        None
    } else {
        match rows_defect(matrix, duration, n - 1) {
            Some(e) => Some(e),
            None => row_defect(matrix[n - 1], duration),
        }
    }
}

/// The defect for which a network of `input_dim` inputs rejects `matrix`, if it has one:
/// the number of rows is looked at first, then the rows in their order.
pub open spec fn input_defect(input_dim: nat, matrix: Seq<Seq<u8>>) -> Option<
    InputContractError,
> {
    if matrix.len() != input_dim {
        Some(InputContractError::WrongWidth)
    } else {
        rows_defect(matrix, duration_of(matrix), matrix.len() as int)
    }
}

/// The first `n` rows have no defect exactly if each spans `duration` instants and holds
/// only 0 and 1.
pub proof fn lemma_rows_defect_none(matrix: Seq<Seq<u8>>, duration: nat, n: int)
    requires
        0 <= n <= matrix.len(),
    ensures
        rows_defect(matrix, duration, n) is None <==> (forall|i: int|
            0 <= i < n ==> (#[trigger] matrix[i]).len() == duration && is_binary(matrix[i])),
    decreases n,
{
    if n > 0 {
        lemma_rows_defect_none(matrix, duration, n - 1);
    }
}

/// The defect for which a network of `input_dim` inputs rejects a matrix whose rows all
/// span one duration, if it has one.
pub open spec fn spike_defect(input_dim: nat, matrix: Seq<Seq<u8>>) -> Option<
    InputContractError,
> {
    if matrix.len() != input_dim {
        Some(InputContractError::WrongWidth)
    } else if !is_binary_matrix(matrix) {
        Some(InputContractError::NonBinarySpike)
    } else {
        None
    }
}

/// A matrix has no defect exactly if it has one row per input, all rows span the duration
/// that the first one states, and all values are 0 or 1.
pub proof fn lemma_input_defect_none(input_dim: nat, matrix: Seq<Seq<u8>>)
    ensures
        input_defect(input_dim, matrix) is None <==> {
            &&& matrix.len() == input_dim
            &&& is_rectangular(matrix, duration_of(matrix))
            &&& is_binary_matrix(matrix)
        },
{
    lemma_rows_defect_none(matrix, duration_of(matrix), matrix.len() as int);
}

/// The first defect found stays the answer however many more rows are looked at.
pub proof fn lemma_rows_defect_stays(matrix: Seq<Seq<u8>>, duration: nat, n: int, k: int)
    requires
        n <= k,
        rows_defect(matrix, duration, n) is Some,
    ensures
        rows_defect(matrix, duration, k) == rows_defect(matrix, duration, n),
    decreases k - n,
{
    if n < k {
        lemma_rows_defect_stays(matrix, duration, n, k - 1);
    }
}

/// Tells which defect the rows of `spikes` have for a matrix of `duration` instants, if any.
pub fn check_rows(spikes: &Vec<Vec<u8>>, duration: usize) -> (defect: Option<InputContractError>)
    ensures
        defect == rows_defect(spikes.deep_view(), duration as nat, spikes@.len() as int),
{
    let ghost matrix = spikes.deep_view();
    let mut n: usize = 0;
    while n < spikes.len()
        invariant
            n <= spikes@.len(),
            matrix == spikes.deep_view(),
            rows_defect(matrix, duration as nat, n as int) is None,
        decreases spikes@.len() - n,
    {
        assert(matrix[n as int] == spikes@[n as int]@);
        proof {
            if row_defect(matrix[n as int], duration as nat) is Some {
                lemma_rows_defect_stays(matrix, duration as nat, n + 1, spikes@.len() as int);
            }
        }
        if spikes[n].len() != duration {
            return Some(InputContractError::RaggedRows);
        }
        if !check_binary(&spikes[n]) {
            return Some(InputContractError::NonBinarySpike);
        }
        n += 1;
    }
    None
}

} // verus!
