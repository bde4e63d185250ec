//! Vectors and matrices of amplitudes: Kronecker products, the application of
//! a gate, norms, and the reading of one qubit out of a basis-state index.

use vstd::prelude::*;
use vstd::arithmetic::div_mod::{lemma_div_denominator, lemma_fundamental_div_mod_converse};
use vstd::arithmetic::power2::{lemma_pow2_pos, lemma_pow2_unfold, pow2};
use crate::error::SimulationError;
use crate::instruction::matrix_view;
use crate::numeric::{
    amp_conjugate, amp_norm_sqr, amp_product, amp_quotient, amp_sum, amp_zero, real_root,
    real_sum, real_zero, Amplitude, Real,
};

verus! {

/// The vectors that a list of references points to, each as a sequence.
pub open spec fn vector_views<A>(vectors: Seq<&Vec<A>>) -> Seq<Seq<A>> {
    Seq::new(vectors.len(), |i: int| vectors[i]@)
}

/// The matrices that a list of references points to, each as its rows.
pub open spec fn matrix_views<A>(matrices: Seq<&Vec<Vec<A>>>) -> Seq<Seq<Seq<A>>> {
    Seq::new(matrices.len(), |i: int| matrix_view(*matrices[i]))
}

/// `r` is the Kronecker product of `v1` and `v2`: it has an entry for every
/// pair of an entry of `v1` and an entry of `v2`, the index into `v1` varying
/// slower, and that entry is their product.
pub open spec fn kron<A: Amplitude>(v1: Seq<A>, v2: Seq<A>, r: Seq<A>) -> bool {
    &&& r.len() == v1.len() * v2.len()
    &&& forall|k: int|
        0 <= k < r.len() ==> amp_product(
            v1[k / (v2.len() as int)],
            v2[k % (v2.len() as int)],
            #[trigger] r[k],
        )
}

/// `accs` are the vectors that a product from left to right passes through:
/// the first factor, then the product of each with the next factor.
pub open spec fn kron_chain<A: Amplitude>(vs: Seq<Seq<A>>, accs: Seq<Seq<A>>) -> bool {
    &&& vs.len() > 0
    &&& accs.len() == vs.len()
    &&& accs[0] == vs[0]
    &&& forall|k: int| 0 < k < vs.len() ==> kron(accs[k - 1], vs[k], #[trigger] accs[k])
}

/// `r` is the Kronecker product of the vectors `vs`, taken from left to right.
pub open spec fn is_tensor_product<A: Amplitude>(vs: Seq<Seq<A>>, r: Seq<A>) -> bool {
    exists|accs: Seq<Seq<A>>| #[trigger] kron_chain(vs, accs) && r == accs[vs.len() - 1]
}

/// `r` is the Kronecker product of the matrices `m1` and `m2`: it has a row
/// for every pair of a row of `m1` and a row of `m2`, the index into `m1`
/// varying slower, and that row is the Kronecker product of the two.
pub open spec fn kron_rows<A: Amplitude>(
    m1: Seq<Seq<A>>,
    m2: Seq<Seq<A>>,
    r: Seq<Seq<A>>,
) -> bool {
    &&& r.len() == m1.len() * m2.len()
    &&& forall|k: int|
        0 <= k < r.len() ==> kron(
            m1[k / (m2.len() as int)],
            m2[k % (m2.len() as int)],
            #[trigger] r[k],
        )
}

/// `accs` are the matrices that a product from left to right passes through.
pub open spec fn kron_rows_chain<A: Amplitude>(
    ms: Seq<Seq<Seq<A>>>,
    accs: Seq<Seq<Seq<A>>>,
) -> bool {
    &&& ms.len() > 0
    &&& accs.len() == ms.len()
    &&& accs[0] == ms[0]
    &&& forall|k: int| 0 < k < ms.len() ==> kron_rows(accs[k - 1], ms[k], #[trigger] accs[k])
}

/// `r` is the Kronecker product of the matrices `ms`, taken from left to
/// right.
pub open spec fn is_matrix_product<A: Amplitude>(ms: Seq<Seq<Seq<A>>>, r: Seq<Seq<A>>) -> bool {
    exists|accs: Seq<Seq<Seq<A>>>| #[trigger] kron_rows_chain(ms, accs) && r == accs[ms.len() - 1]
}

/// A copy of a vector.
pub fn copy_vector<A: Amplitude>(v: &Vec<A>) -> (r: Vec<A>)
    ensures
        r@ == v@,
{
    let mut r: Vec<A> = Vec::new();
    let mut i: usize = 0;
    while i < v.len()
        invariant
            i <= v.len(),
            r@ == v@.take(i as int),
        decreases v.len() - i,
    {
        r.push(v[i]);
        assert(v@.take(i as int).push(v@[i as int]) =~= v@.take(i + 1));
        i += 1;
    }
    assert(v@.take(v.len() as int) =~= v@);
    r
}

/// A copy of a matrix.
pub fn copy_matrix<A: Amplitude>(m: &Vec<Vec<A>>) -> (r: Vec<Vec<A>>)
    ensures
        matrix_view(r) == matrix_view(*m),
{
    let mut r: Vec<Vec<A>> = Vec::new();
    let mut i: usize = 0;
    while i < m.len()
        invariant
            i <= m.len(),
            r.len() == i,
            forall|k: int| 0 <= k < i ==> (#[trigger] r[k])@ == m[k]@,
        decreases m.len() - i,
    {
        r.push(copy_vector(&m[i]));
        i += 1;
    }
    assert(matrix_view(r) =~= matrix_view(*m));
    r
}

/// The Kronecker product of two vectors.
pub fn tensor_product_vector_single<A: Amplitude>(v1: &Vec<A>, v2: &Vec<A>) -> (r: Vec<A>)
    ensures
        kron(v1@, v2@, r@),
{
    let mut result: Vec<A> = Vec::new();
    let ghost n2 = v2.len() as int;
    let mut i: usize = 0;
    while i < v1.len()
        invariant
            i <= v1.len(),
            n2 == v2.len(),
            result.len() == i * n2,
            forall|k: int|
                0 <= k < result.len() ==> amp_product(
                    v1[k / n2],
                    v2[k % n2],
                    #[trigger] result[k],
                ),
        decreases v1.len() - i,
    {
        let mut j: usize = 0;
        while j < v2.len()
            invariant
                i < v1.len(),
                j <= v2.len(),
                n2 == v2.len(),
                result.len() == i * n2 + j,
                forall|k: int|
                    0 <= k < result.len() ==> amp_product(
                        v1[k / n2],
                        v2[k % n2],
                        #[trigger] result[k],
                    ),
            decreases v2.len() - j,
        {
            let product = v1[i].times(&v2[j]);
            proof {
                lemma_fundamental_div_mod_converse(i * n2 + j, n2, i as int, j as int);
            }
            result.push(product);
            j += 1;
        }
        assert((i + 1) * n2 == i * n2 + n2) by (nonlinear_arith);
        i += 1;
    }
    result
}

/// The Kronecker product of a list of vectors, taken from left to right.
pub fn tensor_product_vector<A: Amplitude>(vectors: Vec<&Vec<A>>) -> (r: Vec<A>)
    requires
        vectors.len() > 0,
    ensures
        is_tensor_product(vector_views(vectors@), r@),
{
    let ghost vs = vector_views(vectors@);
    let mut accum = copy_vector(vectors[0]);
    let ghost mut accs: Seq<Seq<A>> = seq![accum@];
    let mut k: usize = 1;
    while k < vectors.len()
        invariant
            1 <= k <= vectors.len(),
            vs == vector_views(vectors@),
            accs.len() == k,
            accs[0] == vs[0],
            forall|j: int| 0 < j < k ==> kron(accs[j - 1], vs[j], #[trigger] accs[j]),
            accum@ == accs[k - 1],
        decreases vectors.len() - k,
    {
        accum = tensor_product_vector_single(&accum, vectors[k]);
        proof {
            accs = accs.push(accum@);
        }
        k += 1;
    }
    assert(kron_chain(vs, accs));
    accum
}

/// The Kronecker product of two matrices.
pub fn tensor_product_matrix_single<A: Amplitude>(m1: &Vec<Vec<A>>, m2: &Vec<Vec<A>>) -> (r: Vec<
    Vec<A>,
>)
    ensures
        kron_rows(matrix_view(*m1), matrix_view(*m2), matrix_view(r)),
{
    let mut result: Vec<Vec<A>> = Vec::new();
    let ghost n2 = m2.len() as int;
    let mut i: usize = 0;
    while i < m1.len()
        invariant
            i <= m1.len(),
            n2 == m2.len(),
            result.len() == i * n2,
            forall|k: int|
                0 <= k < result.len() ==> kron(m1[k / n2]@, m2[k % n2]@, (#[trigger] result[k])@),
        decreases m1.len() - i,
    {
        let mut j: usize = 0;
        while j < m2.len()
            invariant
                i < m1.len(),
                j <= m2.len(),
                n2 == m2.len(),
                result.len() == i * n2 + j,
                forall|k: int|
                    0 <= k < result.len() ==> kron(
                        m1[k / n2]@,
                        m2[k % n2]@,
                        (#[trigger] result[k])@,
                    ),
            decreases m2.len() - j,
        {
            let row = tensor_product_vector_single(&m1[i], &m2[j]);
            proof {
                lemma_fundamental_div_mod_converse(i * n2 + j, n2, i as int, j as int);
            }
            result.push(row);
            j += 1;
        }
        assert((i + 1) * n2 == i * n2 + n2) by (nonlinear_arith);
        i += 1;
    }
    proof {
        let rows = matrix_view(result);
        assert forall|k: int| 0 <= k < rows.len() implies kron(
            matrix_view(*m1)[k / n2],
            matrix_view(*m2)[k % n2],
            #[trigger] rows[k],
        ) by {
            assert(kron(m1[k / n2]@, m2[k % n2]@, result[k]@));
            lemma_index_in_product(k, m1.len() as int, n2);
        }
    }
    result
}

/// An index below `a * b` splits into a quotient below `a` and a remainder
/// below `b`.
pub proof fn lemma_index_in_product(k: int, a: int, b: int)
    requires
        0 <= k < a * b,
        0 <= a,
        0 <= b,
    ensures
        b > 0,
        0 <= k / b < a,
        0 <= k % b < b,
        k == (k / b) * b + k % b,
{
    assert(b > 0) by (nonlinear_arith)
        requires
            0 <= k < a * b,
            0 <= a,
            0 <= b,
    ;
    vstd::arithmetic::div_mod::lemma_fundamental_div_mod(k, b);
    vstd::arithmetic::div_mod::lemma_mod_bound(k, b);
    let q = k / b;
    assert(0 <= q < a) by (nonlinear_arith)
        requires
            0 <= k < a * b,
            b > 0,
            k == b * q + k % b,
            0 <= k % b < b,
    ;
    assert(b * q == q * b) by (nonlinear_arith);
}

/// The Kronecker product of a list of matrices, taken from left to right.
pub fn tensor_product_matrix<A: Amplitude>(matrices: Vec<&Vec<Vec<A>>>) -> (r: Vec<Vec<A>>)
    requires
        matrices.len() > 0,
    ensures
        is_matrix_product(matrix_views(matrices@), matrix_view(r)),
{
    let ghost ms = matrix_views(matrices@);
    let mut accum = copy_matrix(matrices[0]);
    let ghost mut accs: Seq<Seq<Seq<A>>> = seq![matrix_view(accum)];
    let mut k: usize = 1;
    while k < matrices.len()
        invariant
            1 <= k <= matrices.len(),
            ms == matrix_views(matrices@),
            accs.len() == k,
            accs[0] == ms[0],
            forall|j: int| 0 < j < k ==> kron_rows(accs[j - 1], ms[j], #[trigger] accs[j]),
            matrix_view(accum) == accs[k - 1],
        decreases matrices.len() - k,
    {
        accum = tensor_product_matrix_single(&accum, matrices[k]);
        proof {
            accs = accs.push(matrix_view(accum));
        }
        k += 1;
    }
    assert(kron_rows_chain(ms, accs));
    accum
}

/// `sums` are the partial sums, and `terms` the products, of the entries of
/// `state` with the entries of `row` taken in order: the sums start at zero,
/// and each adds one product to the one before.
pub open spec fn dot_trace<A: Amplitude>(
    state: Seq<A>,
    row: Seq<A>,
    terms: Seq<A>,
    sums: Seq<A>,
) -> bool {
    &&& terms.len() == state.len()
    &&& sums.len() == state.len() + 1
    &&& amp_zero(sums[0])
    &&& forall|j: int|
        0 <= j < state.len() ==> amp_product(state[j], row[j], #[trigger] terms[j]) && amp_sum(
            sums[j],
            terms[j],
            sums[j + 1],
        )
}

/// `r` is the sum over `j` of `state[j] * row[j]`, added up from zero in the
/// order of `j`.
pub open spec fn is_dot<A: Amplitude>(state: Seq<A>, row: Seq<A>, r: A) -> bool {
    exists|terms: Seq<A>, sums: Seq<A>| #[trigger]
        dot_trace(state, row, terms, sums) && r == sums[state.len() as int]
}

/// The matrix has one row for each entry of the state, and no row is shorter
/// than the state.
pub open spec fn gate_fits<A>(state: Seq<A>, gate: Seq<Seq<A>>) -> bool {
    &&& gate.len() == state.len()
    &&& forall|i: int| 0 <= i < gate.len() ==> (#[trigger] gate[i]).len() >= state.len()
}

/// `out` is the state with the matrix applied: entry `i` is the sum over `j` of
/// `state[j] * gate[i][j]`.
pub open spec fn applies<A: Amplitude>(state: Seq<A>, gate: Seq<Seq<A>>, out: Seq<A>) -> bool {
    &&& out.len() == state.len()
    &&& forall|i: int| 0 <= i < state.len() ==> is_dot(state, gate[i], #[trigger] out[i])
}

/// Whether the matrix has the dimension of the state.
fn check_gate<A: Amplitude>(tensor: &Vec<A>, gate: &Vec<Vec<A>>) -> (ok: bool)
    ensures
        ok == gate_fits(tensor@, matrix_view(*gate)),
{
    if tensor.len() != gate.len() {
        return false;
    }
    let mut i: usize = 0;
    while i < gate.len()
        invariant
            i <= gate.len(),
            gate.len() == tensor.len(),
            forall|k: int| 0 <= k < i ==> (#[trigger] matrix_view(*gate)[k]).len() >= tensor.len(),
        decreases gate.len() - i,
    {
        if gate[i].len() < tensor.len() {
            assert(matrix_view(*gate)[i as int].len() < tensor.len());
            return false;
        }
        i += 1;
    }
    true
}

/// The sum over `j` of `tensor[j] * row[j]`.
fn dot<A: Amplitude>(tensor: &Vec<A>, row: &Vec<A>) -> (r: A)
    requires
        row.len() >= tensor.len(),
    ensures
        is_dot(tensor@, row@, r),
{
    let mut acc = A::zero();
    let ghost mut terms: Seq<A> = Seq::empty();
    let ghost mut sums: Seq<A> = seq![acc];
    let mut j: usize = 0;
    while j < tensor.len()
        invariant
            j <= tensor.len(),
            row.len() >= tensor.len(),
            terms.len() == j,
            sums.len() == j + 1,
            amp_zero(sums[0]),
            acc == sums[j as int],
            forall|k: int|
                0 <= k < j ==> amp_product(tensor[k], row[k], #[trigger] terms[k]) && amp_sum(
                    sums[k],
                    terms[k],
                    sums[k + 1],
                ),
        decreases tensor.len() - j,
    {
        let term = tensor[j].times(&row[j]);
        let next = acc.plus(&term);
        proof {
            terms = terms.push(term);
            sums = sums.push(next);
        }
        acc = next;
        j += 1;
    }
    assert(dot_trace(tensor@, row@, terms, sums));
    acc
}

/// Applies a gate to a state: entry `i` of the new state is the sum over `j`
/// of `state[j] * gate[i][j]`.
///
/// Fails, and leaves the state as it is, when the matrix does not have one
/// row for each entry of the state or one of its rows is shorter than the
/// state.
pub fn pass_gate<A: Amplitude>(tensor: &mut Vec<A>, gate: &Vec<Vec<A>>) -> (r: Result<
    (),
    SimulationError,
>)
    ensures
        gate_fits(old(tensor)@, matrix_view(*gate)) ==> r is Ok && applies(
            old(tensor)@,
            matrix_view(*gate),
            final(tensor)@,
        ),
        !gate_fits(old(tensor)@, matrix_view(*gate)) ==> r == Err::<(), SimulationError>(
            SimulationError::DimensionMismatch,
        ) && final(tensor)@ == old(tensor)@,
{
    if !check_gate(tensor, gate) {
        return Err(SimulationError::DimensionMismatch);
    }
    let ghost rows = matrix_view(*gate);
    let mut result: Vec<A> = Vec::new();
    let mut i: usize = 0;
    while i < tensor.len()
        invariant
            i <= tensor.len(),
            rows == matrix_view(*gate),
            gate_fits(tensor@, rows),
            result.len() == i,
            forall|k: int| 0 <= k < i ==> is_dot(tensor@, rows[k], #[trigger] result[k]),
        decreases tensor.len() - i,
    {
        assert(rows[i as int].len() >= tensor.len());
        let entry = dot(tensor, &gate[i]);
        result.push(entry);
        i += 1;
    }
    *tensor = result;
    Ok(())
}

/// `sums` are the partial sums, and `terms` the squared magnitudes, of the
/// entries of `v` taken in order.
pub open spec fn norm_trace<A: Amplitude>(
    v: Seq<A>,
    terms: Seq<A::Real>,
    sums: Seq<A::Real>,
) -> bool {
    &&& terms.len() == v.len()
    &&& sums.len() == v.len() + 1
    &&& real_zero(sums[0])
    &&& forall|j: int|
        0 <= j < v.len() ==> amp_norm_sqr(v[j], #[trigger] terms[j]) && real_sum(
            sums[j],
            terms[j],
            sums[j + 1],
        )
}

/// `len` is the Euclidean norm of `v`: the square root of the sum of the
/// squared magnitudes of its entries, added up from zero in order.
pub open spec fn is_length<A: Amplitude>(v: Seq<A>, len: A::Real) -> bool {
    exists|terms: Seq<A::Real>, sums: Seq<A::Real>| #[trigger]
        norm_trace(v, terms, sums) && real_root(sums[v.len() as int], len)
}

/// `out` is `v` with every entry divided by `len`.
pub open spec fn scaled_down<A: Amplitude>(v: Seq<A>, len: A::Real, out: Seq<A>) -> bool {
    &&& out.len() == v.len()
    &&& forall|i: int| 0 <= i < v.len() ==> amp_quotient(v[i], len, #[trigger] out[i])
}

/// `out` is `v` with every entry divided by the Euclidean norm of `v`.
pub open spec fn normalized<A: Amplitude>(v: Seq<A>, out: Seq<A>) -> bool {
    exists|len: A::Real| #[trigger] is_length(v, len) && scaled_down(v, len, out)
}

/// The Euclidean norm of a vector.
pub fn length<A: Amplitude>(tensor: &Vec<A>) -> (len: A::Real)
    ensures
        is_length(tensor@, len),
{
    let mut acc = <A::Real as Real>::zero();
    let ghost mut terms: Seq<A::Real> = Seq::empty();
    let ghost mut sums: Seq<A::Real> = seq![acc];
    let mut j: usize = 0;
    while j < tensor.len()
        invariant
            j <= tensor.len(),
            terms.len() == j,
            sums.len() == j + 1,
            real_zero(sums[0]),
            acc == sums[j as int],
            forall|k: int|
                0 <= k < j ==> amp_norm_sqr(tensor[k], #[trigger] terms[k]) && real_sum(
                    sums[k],
                    terms[k],
                    sums[k + 1],
                ),
        decreases tensor.len() - j,
    {
        let term = tensor[j].norm_sqr();
        let next = acc.plus(&term);
        proof {
            terms = terms.push(term);
            sums = sums.push(next);
        }
        acc = next;
        j += 1;
    }
    let len = acc.root();
    assert(norm_trace(tensor@, terms, sums));
    len
}

/// Divides every entry of a vector by the vector's Euclidean norm.
///
/// Nothing is done about a norm of zero: the quotients are then whatever the
/// amplitudes' division makes of it.
pub fn norm<A: Amplitude>(tensor: &mut Vec<A>)
    ensures
        normalized(old(tensor)@, final(tensor)@),
{
    let len = length(tensor);
    let ghost before = tensor@;
    let mut result: Vec<A> = Vec::new();
    let mut i: usize = 0;
    while i < tensor.len()
        invariant
            i <= tensor.len(),
            tensor@ == before,
            result.len() == i,
            forall|k: int| 0 <= k < i ==> amp_quotient(before[k], len, #[trigger] result[k]),
        decreases tensor.len() - i,
    {
        result.push(tensor[i].over(&len));
        i += 1;
    }
    *tensor = result;
    assert(scaled_down(before, len, tensor@));
}

/// The complex conjugate of an amplitude.
pub fn complement<A: Amplitude>(v: A) -> (r: A)
    ensures
        amp_conjugate(v, r),
{
    v.conjugate()
}

/// What qubit `index` reads in the basis state `k` of a state of `n`
/// amplitudes, qubit 0 being the most significant bit of `k`: one exactly when
/// `k mod (n / 2^index)` is at least `n / 2^(index + 1)`.
pub open spec fn reads_one(index: nat, k: nat, n: nat) -> bool {
    (k as int) % ((n / pow2(index)) as int) >= n / pow2(index + 1)
}

/// The remainder of `k` by `2 * h` is at least `h` exactly when the quotient
/// of `k` by `h` is odd.
proof fn lemma_upper_half(k: int, h: int)
    requires
        0 <= k,
        0 < h,
    ensures
        (k % (2 * h) >= h) == ((k / h) % 2 == 1),
{
    let q = k / h;
    let r = k % h;
    vstd::arithmetic::div_mod::lemma_fundamental_div_mod(k, h);
    vstd::arithmetic::div_mod::lemma_mod_bound(k, h);
    let p = q / 2;
    let b = q % 2;
    assert(q == 2 * p + b);
    assert(k == p * (2 * h) + (h * b + r)) by (nonlinear_arith)
        requires
            k == h * q + r,
            q == 2 * p + b,
    ;
    assert(0 <= h * b + r < 2 * h) by (nonlinear_arith)
        requires
            0 <= b < 2,
            0 <= r < h,
    ;
    lemma_fundamental_div_mod_converse(k, 2 * h, p, h * b + r);
    if b == 0 {
        assert(h * b + r == r) by (nonlinear_arith)
            requires
                b == 0,
        ;
    } else {
        assert(h * b + r == h + r) by (nonlinear_arith)
            requires
                b == 1,
        ;
    }
}

/// In a state of `2^n` amplitudes, qubit `index` reads one in the basis state
/// `k` exactly when the bit of `k` with the value `2^(n - 1 - index)` is set:
/// qubit 0 is the most significant of the `n` bits of `k`.
pub proof fn lemma_reads_one_is_a_bit(index: nat, k: nat, n: nat)
    requires
        index < n,
    ensures
        reads_one(index, k, pow2(n)) == ((k as int / pow2((n - 1 - index) as nat) as int) % 2
            == 1),
{
    let h = pow2((n - 1 - index) as nat);
    vstd::arithmetic::power2::lemma_pow2_subtracts(index, n);
    vstd::arithmetic::power2::lemma_pow2_subtracts(index + 1, n);
    lemma_pow2_unfold((n - index) as nat);
    lemma_pow2_pos((n - 1 - index) as nat);
    assert(pow2(n) / pow2(index) == 2 * h);
    assert(pow2(n) / pow2(index + 1) == h);
    lemma_upper_half(k as int, h as int);
}

/// Whether qubit `tensor_order_index` reads one in the basis state
/// `loc_in_tensor` of a state of `tensor_len` amplitudes.
pub fn is_from_one(tensor_order_index: usize, loc_in_tensor: usize, tensor_len: usize) -> (r: bool)
    requires
        tensor_len as nat / pow2(tensor_order_index as nat) > 0,
    ensures
        r == reads_one(tensor_order_index as nat, loc_in_tensor as nat, tensor_len as nat),
{
    let mut block: usize = tensor_len;
    let mut i: usize = 0;
    proof {
        lemma_pow2_unfold(1);
        vstd::arithmetic::power2::lemma2_to64();
    }
    while i < tensor_order_index
        invariant
            i <= tensor_order_index,
            block == tensor_len as nat / pow2(i as nat),
        decreases tensor_order_index - i,
    {
        proof {
            lemma_pow2_pos(i as nat);
            lemma_pow2_unfold((i + 1) as nat);
            lemma_div_denominator(tensor_len as int, pow2(i as nat) as int, 2);
            assert(pow2(i as nat) * 2 == pow2((i + 1) as nat));
        }
        block = block / 2;
        i += 1;
    }
    proof {
        lemma_pow2_pos(i as nat);
        lemma_pow2_unfold((i + 1) as nat);
        lemma_div_denominator(tensor_len as int, pow2(i as nat) as int, 2);
        assert(pow2(i as nat) * 2 == pow2((i + 1) as nat));
    }
    let half: usize = block / 2;
    loc_in_tensor % block >= half
}

} // verus!
