//! Placing a matrix on a register: the matrix is widened to the whole
//! register by Kronecker products with the identity, and then applied.

use vstd::prelude::*;
use crate::error::SimulationError;
use crate::instruction::matrix_view;
use crate::lowering::two_by_two;
use crate::numeric::{amp_one, amp_zero, Amplitude};
use crate::tensor::{
    applies, gate_fits, is_matrix_product, matrix_views, pass_gate, tensor_product_matrix,
};

verus! {

/// The whole part of the binary logarithm of `n`, and zero below two.
pub open spec fn log2_floor(n: nat) -> nat
    decreases n,
{
    if n < 2 {
        0
    } else {
        1 + log2_floor(n / 2)
    }
}

/// The number of qubits that a matrix of `rows` rows acts on.
pub open spec fn span(rows: nat) -> nat {
    log2_floor(rows)
}

/// `m` is the identity on one qubit: ones on the diagonal, zeros off it.
pub open spec fn is_identity<A: Amplitude>(m: Seq<Seq<A>>) -> bool {
    &&& two_by_two(m)
    &&& amp_one(m[0][0])
    &&& amp_zero(m[0][1])
    &&& amp_zero(m[1][0])
    &&& amp_one(m[1][1])
}

/// The matrix has at least two rows, and the qubits it acts on, from `qubit`
/// on, are qubits of a register of `qubits` qubits.
pub open spec fn placed<A>(matrix: Seq<Seq<A>>, qubit: nat, qubits: nat) -> bool {
    matrix.len() >= 2 && qubit + span(matrix.len()) <= qubits
}

/// The factors of the widened matrix: one for the matrix, at position
/// `qubit`, and one identity for every qubit of the register that the matrix
/// does not act on.
pub open spec fn factors<A>(
    matrix: Seq<Seq<A>>,
    qubit: nat,
    qubits: nat,
    identity: Seq<Seq<A>>,
) -> Seq<Seq<Seq<A>>> {
    Seq::new(
        (qubits - span(matrix.len()) + 1) as nat,
        |k: int|
            if k == qubit {
                matrix
            } else {
                identity
            },
    )
}

/// `full` is the matrix widened to the register: the Kronecker product of
/// its [`factors`], for some identity.
pub open spec fn widens<A: Amplitude>(
    matrix: Seq<Seq<A>>,
    qubit: nat,
    qubits: nat,
    full: Seq<Seq<A>>,
) -> bool {
    exists|identity: Seq<Seq<A>>|
        is_identity(identity) && #[trigger] is_matrix_product(
            factors(matrix, qubit, qubits, identity),
            full,
        )
}

/// Applying the matrix at `qubit` can take `state` to `after`: the matrix
/// is placed on the register, and `after` is the state with the widened matrix
/// applied.
pub open spec fn gate_applies<A: Amplitude>(
    state: Seq<A>,
    matrix: Seq<Seq<A>>,
    qubit: nat,
    qubits: nat,
    after: Seq<A>,
) -> bool {
    &&& placed(matrix, qubit, qubits)
    &&& exists|full: Seq<Seq<A>>| #[trigger]
        widens(matrix, qubit, qubits, full) && gate_fits(state, full) && applies(
            state,
            full,
            after,
        )
}

/// Applying the matrix at `qubit` can fail: the matrix is not placed on the
/// register, or the widened matrix does not have the dimension of the state.
pub open spec fn gate_rejected<A: Amplitude>(
    state: Seq<A>,
    matrix: Seq<Seq<A>>,
    qubit: nat,
    qubits: nat,
) -> bool {
    ||| !placed(matrix, qubit, qubits)
    ||| exists|full: Seq<Seq<A>>| #[trigger]
        widens(matrix, qubit, qubits, full) && !gate_fits(state, full)
}

/// The number of qubits that a matrix of `rows` rows acts on.
pub fn qubit_span(rows: usize) -> (r: usize)
    ensures
        r == span(rows as nat),
{
    let mut left: usize = rows;
    let mut r: usize = 0;
    while left >= 2
        invariant
            r + log2_floor(left as nat) == log2_floor(rows as nat),
            r + left <= rows,
        decreases left,
    {
        left = left / 2;
        r += 1;
    }
    r
}

/// The identity on one qubit.
pub fn identity_matrix<A: Amplitude>() -> (m: Vec<Vec<A>>)
    ensures
        is_identity(matrix_view(m)),
{
    let mut top: Vec<A> = Vec::new();
    top.push(A::one());
    top.push(A::zero());
    let mut bottom: Vec<A> = Vec::new();
    bottom.push(A::zero());
    bottom.push(A::one());
    let mut m: Vec<Vec<A>> = Vec::new();
    m.push(top);
    m.push(bottom);
    m
}

/// Applies a matrix to the qubits of a register of `qubits` qubits that start
/// at `qubit`: widens it by Kronecker products with the identity, one for each
/// qubit that it does not act on, and applies the result to the state.
///
/// Fails, and leaves the state as it is, when the matrix has fewer than two
/// rows, reaches beyond the register, or, widened, does not have the
/// dimension of the state.
pub fn apply_gate<A: Amplitude>(
    state: &mut Vec<A>,
    matrix: &Vec<Vec<A>>,
    qubit: usize,
    qubits: usize,
) -> (r: Result<(), SimulationError>)
    ensures
        match r {
            Ok(_) => gate_applies(
                old(state)@,
                matrix_view(*matrix),
                qubit as nat,
                qubits as nat,
                final(state)@,
            ),
            Err(e) => e == SimulationError::DimensionMismatch && gate_rejected(
                old(state)@,
                matrix_view(*matrix),
                qubit as nat,
                qubits as nat,
            ) && final(state)@ == old(state)@,
        },
{
    if matrix.len() < 2 {
        return Err(SimulationError::DimensionMismatch);
    }
    let covered = qubit_span(matrix.len());
    if qubit > qubits || covered > qubits - qubit {
        return Err(SimulationError::DimensionMismatch);
    }
    assert(covered >= 1) by {
        reveal_with_fuel(log2_floor, 2);
    }
    let identity = identity_matrix::<A>();
    let count = qubits - covered + 1;
    let ghost wanted = factors(
        matrix_view(*matrix),
        qubit as nat,
        qubits as nat,
        matrix_view(identity),
    );
    let mut list: Vec<&Vec<Vec<A>>> = Vec::new();
    let mut k: usize = 0;
    while k < count
        invariant
            k <= count,
            list.len() == k,
            forall|j: int|
                0 <= j < k ==> *(#[trigger] list[j]) == if j == qubit {
                    *matrix
                } else {
                    identity
                },
        decreases count - k,
    {
        if k == qubit {
            list.push(matrix);
        } else {
            list.push(&identity);
        }
        k += 1;
    }
    assert(matrix_views(list@) =~= wanted);
    let full = tensor_product_matrix(list);
    assert(widens(matrix_view(*matrix), qubit as nat, qubits as nat, matrix_view(full)));
    pass_gate(state, &full)
}

} // verus!
