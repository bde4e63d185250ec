//! Factorization: the search for a way to write a vector as a Kronecker
//! product of smaller vectors.

use vstd::prelude::*;
use vstd::arithmetic::power2::{
    lemma_pow2_adds, lemma_pow2_pos, lemma_pow2_strictly_increases, lemma_pow2_subtracts,
    lemma_pow2_unfold, pow2,
};
use crate::error::SimulationError;
use crate::instruction::matrix_view;
use crate::numeric::{
    amp_conjugate, amp_norm_sqr, amp_product, amp_quotient, amp_same, amp_zero, real_root,
    real_square, Amplitude, Real,
};
use crate::tensor::{
    copy_vector, is_tensor_product, lemma_index_in_product, norm, normalized,
    tensor_product_vector, vector_views,
};
use crate::text::{print_tensor, renders};

verus! {

/// `n` is a power of two.
pub open spec fn is_power_of_two(n: nat) -> bool {
    exists|e: nat| #[trigger] pow2(e) == n
}

/// Halving an even number keeps it a power of two, or keeps it from being
/// one; an odd number is a power of two only when it is one.
proof fn lemma_power_of_two_halves(m: nat)
    requires
        m > 0,
    ensures
        m % 2 == 0 ==> is_power_of_two(m) == is_power_of_two(m / 2),
        m % 2 == 1 ==> is_power_of_two(m) == (m == 1),
{
    vstd::arithmetic::power2::lemma2_to64();
    if is_power_of_two(m) {
        let e = choose|e: nat| #[trigger] pow2(e) == m;
        if e > 0 {
            lemma_pow2_unfold(e);
            assert(pow2((e - 1) as nat) == m / 2);
        }
    }
    if m % 2 == 0 && is_power_of_two(m / 2) {
        let e = choose|e: nat| #[trigger] pow2(e) == m / 2;
        lemma_pow2_unfold(e + 1);
        assert(pow2(e + 1) == m);
    }
    if m == 1 {
        assert(pow2(0) == 1);
    }
}

/// Whether `n` is a power of two.
pub fn power_of_two(n: usize) -> (r: bool)
    ensures
        r == is_power_of_two(n as nat),
{
    if n == 0 {
        proof {
            if is_power_of_two(0) {
                let e = choose|e: nat| #[trigger] pow2(e) == 0;
                lemma_pow2_pos(e);
            }
        }
        return false;
    }
    let mut m: usize = n;
    while m % 2 == 0
        invariant
            m > 0,
            is_power_of_two(m as nat) == is_power_of_two(n as nat),
        decreases m,
    {
        proof {
            lemma_power_of_two_halves(m as nat);
        }
        m = m / 2;
    }
    proof {
        lemma_power_of_two_halves(m as nat);
    }
    m == 1
}

/// The indices `i` and `j` differ in both parts when each is split into an
/// outer part, the quotient by `inner`, and an inner part, the remainder.
pub open spec fn crossing(i: int, j: int, inner: int) -> bool {
    i / inner != j / inner && i % inner != j % inner
}

/// The index with the outer part of `i` and the inner part of `j`.
pub open spec fn crossed(i: int, j: int, inner: int) -> int {
    (i / inner) * inner + j % inner
}

/// The test of one pair of indices gives `verdict`: the product of the
/// amplitudes at `i` and `j` is compared with the product of the amplitudes at
/// the two indices that have their inner parts exchanged.
pub open spec fn pair_checks<A: Amplitude>(
    t: Seq<A>,
    inner: int,
    i: int,
    j: int,
    verdict: bool,
) -> bool {
    exists|p: A, q: A|
        {
            &&& amp_product(t[i], t[j], p)
            &&& amp_product(t[crossed(i, j, inner)], t[crossed(j, i, inner)], q)
            &&& #[trigger] amp_same(p, q, verdict)
        }
}

/// Every pair of indices that differ in both parts passes the test: the
/// vector, read as a matrix with rows of `inner` entries, has rank one.
pub open spec fn all_pairs_agree<A: Amplitude>(t: Seq<A>, inner: int) -> bool {
    forall|i: int, j: int|
        0 <= i < t.len() && 0 <= j < t.len() && crossing(i, j, inner) ==> #[trigger] pair_checks(
            t,
            inner,
            i,
            j,
            true,
        )
}

/// Some pair of indices that differ in both parts fails the test.
pub open spec fn some_pair_differs<A: Amplitude>(t: Seq<A>, inner: int) -> bool {
    exists|i: int, j: int|
        0 <= i < t.len() && 0 <= j < t.len() && crossing(i, j, inner) && #[trigger] pair_checks(
            t,
            inner,
            i,
            j,
            false,
        )
}

/// `d` is the index of the first amplitude that is not zero, or nothing when
/// every amplitude is zero.
pub open spec fn first_nonzero<A: Amplitude>(t: Seq<A>, d: Option<nat>) -> bool {
    exists|zero: A|
        {
            &&& #[trigger] amp_zero(zero)
            &&& match d {
                Some(d) => d < t.len() && amp_same(t[d as int], zero, false) && forall|k: int|
                    0 <= k < d ==> amp_same(#[trigger] t[k], zero, true),
                None => forall|k: int| 0 <= k < t.len() ==> amp_same(#[trigger] t[k], zero, true),
            }
        }
}

/// What the extraction of one factor computes on the way.
pub struct Extraction<A: Amplitude> {
    /// The squared magnitude of the reference amplitude.
    pub magnitude: A::Real,
    /// The magnitude of the reference amplitude.
    pub divisor: A::Real,
    /// The square of the divisor.
    pub square: A::Real,
    /// The conjugate of the reference amplitude, which takes its place.
    pub pivot: A,
    /// The factor before it is normalized.
    pub raw_factor: Seq<A>,
    /// The products of the reference row with the pivot.
    pub products: Seq<A>,
    /// The remainder before it is normalized.
    pub raw_rest: Seq<A>,
}

/// `w` records the extraction of a factor of `outer` entries from `t`, read
/// as `outer` rows of `inner` entries, with the amplitude at `d` as reference.
///
/// The reference is replaced by its conjugate. The factor is the column of the
/// reference, divided by the magnitude of the reference; the remainder is the
/// row of the reference, multiplied by the conjugated reference and divided by
/// the square of that magnitude. Both are then normalized.
pub open spec fn extraction<A: Amplitude>(
    t: Seq<A>,
    outer: int,
    inner: int,
    d: int,
    w: Extraction<A>,
    factor: Seq<A>,
    rest: Seq<A>,
) -> bool {
    let marked = t.update(d, w.pivot);
    &&& amp_norm_sqr(t[d], w.magnitude)
    &&& real_root(w.magnitude, w.divisor)
    &&& real_square(w.divisor, w.square)
    &&& amp_conjugate(t[d], w.pivot)
    &&& w.raw_factor.len() == outer
    &&& forall|i: int|
        0 <= i < outer ==> amp_quotient(
            marked[d % inner + i * inner],
            w.divisor,
            #[trigger] w.raw_factor[i],
        )
    &&& w.products.len() == inner
    &&& w.raw_rest.len() == inner
    &&& forall|i: int|
        0 <= i < inner ==> amp_product(
            marked[(d / inner) * inner + i],
            marked[d],
            #[trigger] w.products[i],
        ) && amp_quotient(w.products[i], w.square, w.raw_rest[i])
    &&& normalized(w.raw_factor, factor)
    &&& normalized(w.raw_rest, rest)
}

/// `factor` and `rest` are a factor of `outer` entries and the remainder of
/// `inner` entries that can be extracted from `t` with the amplitude at `d`
/// as reference.
pub open spec fn extracts<A: Amplitude>(
    t: Seq<A>,
    outer: int,
    inner: int,
    d: int,
    factor: Seq<A>,
    rest: Seq<A>,
) -> bool {
    exists|w: Extraction<A>| #[trigger] extraction(t, outer, inner, d, w, factor, rest)
}

/// An index with the outer part of one index below `n` and any inner part is
/// below `n`, when `n` is a multiple of `inner`.
pub proof fn lemma_crossed_in_range(i: int, r: int, n: int, inner: int)
    requires
        0 <= i < n,
        0 <= r < inner,
        n % inner == 0,
    ensures
        0 <= (i / inner) * inner + r < n,
        (i / inner) * inner + i % inner == i,
        0 <= i % inner < inner,
{
    vstd::arithmetic::div_mod::lemma_fundamental_div_mod(n, inner);
    let m = n / inner;
    assert(n == inner * m);
    assert(m >= 0) by (nonlinear_arith)
        requires
            n == inner * m,
            n > 0,
            inner > 0,
    ;
    assert(inner * m == m * inner) by (nonlinear_arith);
    lemma_index_in_product(i, m, inner);
    let q = i / inner;
    assert(q * inner + r < m * inner) by (nonlinear_arith)
        requires
            0 <= q < m,
            0 <= r < inner,
    ;
    assert(0 <= q * inner) by (nonlinear_arith)
        requires
            0 <= q,
            0 < inner,
    ;
}

/// Whether the vector, read as a matrix with rows of `inner` entries, passes
/// the test for rank one on every pair of indices that differ in both parts.
pub fn can_be_factored<A: Amplitude>(tensor: &Vec<A>, inner: usize) -> (r: bool)
    requires
        inner > 0,
        tensor.len() % inner == 0,
    ensures
        r ==> all_pairs_agree(tensor@, inner as int),
        !r ==> some_pair_differs(tensor@, inner as int),
{
    let n = tensor.len();
    let mut i: usize = 0;
    while i < n
        invariant
            i <= n,
            n == tensor.len(),
            inner > 0,
            n % inner == 0,
            forall|a: int, b: int|
                0 <= a < i && 0 <= b < n && crossing(a, b, inner as int) ==> #[trigger] pair_checks(
                    tensor@,
                    inner as int,
                    a,
                    b,
                    true,
                ),
        decreases n - i,
    {
        let mut j: usize = 0;
        while j < n
            invariant
                i < n,
                j <= n,
                n == tensor.len(),
                inner > 0,
                n % inner == 0,
                forall|b: int|
                    0 <= b < j && crossing(i as int, b, inner as int) ==> #[trigger] pair_checks(
                        tensor@,
                        inner as int,
                        i as int,
                        b,
                        true,
                    ),
            decreases n - j,
        {
            let ia = i / inner;
            let ib = i % inner;
            let ja = j / inner;
            let jb = j % inner;
            if ia != ja && ib != jb {
                proof {
                    lemma_crossed_in_range(i as int, jb as int, n as int, inner as int);
                    lemma_crossed_in_range(j as int, ib as int, n as int, inner as int);
                }
                let p = tensor[ia * inner + ib].times(&tensor[ja * inner + jb]);
                let q = tensor[ia * inner + jb].times(&tensor[ja * inner + ib]);
                let agree = p.same(&q);
                proof {
                    assert(amp_same(p, q, agree));
                    assert(pair_checks(tensor@, inner as int, i as int, j as int, agree));
                }
                if !agree {
                    return false;
                }
            }
            j += 1;
        }
        i += 1;
    }
    true
}

/// The index of the first amplitude that is not zero.
pub fn find_nonzero<A: Amplitude>(tensor: &Vec<A>) -> (d: Option<usize>)
    ensures
        first_nonzero(
            tensor@,
            match d {
                Some(i) => Some(i as nat),
                None => None,
            },
        ),
        d matches Some(i) ==> i < tensor.len(),
{
    let zero = A::zero();
    let mut k: usize = 0;
    while k < tensor.len()
        invariant
            k <= tensor.len(),
            amp_zero(zero),
            forall|j: int| 0 <= j < k ==> amp_same(#[trigger] tensor[j], zero, true),
        decreases tensor.len() - k,
    {
        if !tensor[k].same(&zero) {
            return Some(k);
        }
        k += 1;
    }
    None
}

/// Extracts from the vector, read as `outer` rows of `inner` entries, the
/// factor of `outer` entries and the remainder of `inner` entries, with the
/// amplitude at `d` as reference.
pub fn extract<A: Amplitude>(tensor: &Vec<A>, outer: usize, inner: usize, d: usize) -> (r: (
    Vec<A>,
    Vec<A>,
))
    requires
        inner > 0,
        outer * inner == tensor.len(),
        d < tensor.len(),
    ensures
        extracts(tensor@, outer as int, inner as int, d as int, r.0@, r.1@),
{
    let n = tensor.len();
    proof {
        vstd::arithmetic::div_mod::lemma_mod_multiples_basic(outer as int, inner as int);
    }
    let magnitude = tensor[d].norm_sqr();
    let divisor = magnitude.root();
    let pivot = tensor[d].conjugate();
    let mut marked = copy_vector(tensor);
    marked[d] = pivot;
    proof {
        lemma_crossed_in_range(d as int, 0, n as int, inner as int);
    }
    let column = d % inner;
    let row = d / inner * inner;
    let mut factor: Vec<A> = Vec::new();
    let mut i: usize = 0;
    while i < outer
        invariant
            i <= outer,
            inner > 0,
            outer * inner == n,
            n == marked.len(),
            column == d % inner,
            factor.len() == i,
            forall|k: int|
                0 <= k < i ==> amp_quotient(
                    marked[d % inner + k * inner],
                    divisor,
                    #[trigger] factor[k],
                ),
        decreases outer - i,
    {
        assert(column + i * inner < outer * inner) by (nonlinear_arith)
            requires
                0 <= column < inner,
                0 <= i < outer,
        ;
        assert(0 <= i * inner) by (nonlinear_arith)
            requires
                0 <= i,
                0 < inner,
        ;
        let index = column + i * inner;
        factor.push(marked[index].over(&divisor));
        i += 1;
    }
    let square = divisor.square();
    let mut rest: Vec<A> = Vec::new();
    let ghost mut products: Seq<A> = Seq::empty();
    let mut j: usize = 0;
    while j < inner
        invariant
            j <= inner,
            inner > 0,
            n == marked.len(),
            n % inner == 0,
            d < n,
            row == (d / inner) * inner,
            rest.len() == j,
            products.len() == j,
            forall|k: int|
                0 <= k < j ==> amp_product(
                    marked[(d / inner) * inner + k],
                    marked[d as int],
                    #[trigger] products[k],
                ) && amp_quotient(products[k], square, rest[k]),
        decreases inner - j,
    {
        proof {
            lemma_crossed_in_range(d as int, j as int, n as int, inner as int);
        }
        let index = row + j;
        let product = marked[index].times(&marked[d]);
        let quotient = product.over(&square);
        proof {
            products = products.push(product);
        }
        rest.push(quotient);
        j += 1;
    }
    let ghost w = Extraction {
        magnitude,
        divisor,
        square,
        pivot,
        raw_factor: factor@,
        products,
        raw_rest: rest@,
    };
    norm(&mut factor);
    norm(&mut rest);
    proof {
        assert(marked@ =~= tensor@.update(d as int, pivot));
        assert(normalized(w.raw_factor, factor@));
        assert(normalized(w.raw_rest, rest@));
        assert(extraction(tensor@, outer as int, inner as int, d as int, w, factor@, rest@));
    }
    (factor, rest)
}

/// The state of the search for factors.
pub struct Search<A: Amplitude> {
    /// What is left of the vector.
    pub rest: Seq<A>,
    /// The factors found so far, in the order found.
    pub found: Seq<Seq<A>>,
    /// The number of entries of the factor that is tried next.
    pub size: nat,
}

/// The number of entries that remain when a factor of the size tried is
/// taken off.
pub open spec fn inner_size<A: Amplitude>(s: Search<A>) -> int {
    s.rest.len() as int / s.size as int
}

/// The search has nothing more to try: the size to try has reached the
/// length of what is left.
pub open spec fn finished<A: Amplitude>(s: Search<A>) -> bool {
    s.size >= s.rest.len()
}

/// The search goes from `s` to `n` by giving up on the size tried, since
/// some pair of indices fails the test, and trying twice that size next.
pub open spec fn moves_on<A: Amplitude>(s: Search<A>, n: Search<A>) -> bool {
    &&& !finished(s)
    &&& some_pair_differs(s.rest, inner_size(s))
    &&& n.rest == s.rest
    &&& n.found == s.found
    &&& n.size == s.size * 2
}

/// The search goes from `s` to `n` by taking a factor off: every pair of
/// indices passes the test, the first amplitude that is not zero is the
/// reference, the factor is added to those found, the remainder is what is
/// left, and the search starts again at size two.
pub open spec fn splits_off<A: Amplitude>(s: Search<A>, n: Search<A>) -> bool {
    &&& !finished(s)
    &&& all_pairs_agree(s.rest, inner_size(s))
    &&& n.found.len() == s.found.len() + 1
    &&& n.found.drop_last() == s.found
    &&& n.size == 2
    &&& exists|d: nat| #[trigger]
        first_nonzero(s.rest, Some(d)) && extracts(
            s.rest,
            s.size as int,
            inner_size(s),
            d as int,
            n.found.last(),
            n.rest,
        )
}

/// The search cannot go on from `s`: every pair of indices passes the test,
/// but every amplitude is zero, so that there is no reference to divide by.
pub open spec fn gives_up<A: Amplitude>(s: Search<A>) -> bool {
    &&& !finished(s)
    &&& all_pairs_agree(s.rest, inner_size(s))
    &&& first_nonzero(s.rest, None)
}

/// `trace` is a search: it starts with the whole vector, nothing found and
/// size two, and each state follows from the one before.
pub open spec fn search_trace<A: Amplitude>(trace: Seq<Search<A>>, t: Seq<A>) -> bool {
    &&& trace.len() > 0
    &&& trace[0].rest == t
    &&& trace[0].found.len() == 0
    &&& trace[0].size == 2
    &&& forall|k: int|
        0 <= k < trace.len() - 1 ==> moves_on(#[trigger] trace[k], trace[k + 1]) || splits_off(
            trace[k],
            trace[k + 1],
        )
}

/// The test of the factors against the vector gives `verdict`: the display
/// text of the Kronecker product of the factors is compared with the display
/// text of the vector.
pub open spec fn reproduces<A: Amplitude>(
    factors: Seq<Seq<A>>,
    t: Seq<A>,
    verdict: bool,
) -> bool {
    exists|product: Seq<A>, a: Seq<char>, b: Seq<char>|
        {
            &&& is_tensor_product(factors, product)
            &&& #[trigger] renders(product, a)
            &&& #[trigger] renders(t, b)
            &&& verdict == (a == b)
        }
}

/// `result` is what the factorization of `t` can return.
///
/// The factors are those that a search finds, followed by what is left when
/// the search has finished. They are returned when they pass the test against
/// `t`. The factorization fails when they do not, and when the search cannot
/// go on.
pub open spec fn is_factoring<A: Amplitude>(
    t: Seq<A>,
    result: Result<Seq<Seq<A>>, SimulationError>,
) -> bool {
    exists|trace: Seq<Search<A>>| #[trigger]
        search_trace(trace, t) && match result {
            Ok(factors) => {
                &&& finished(trace.last())
                &&& factors == trace.last().found.push(trace.last().rest)
                &&& reproduces(factors, t, true)
            },
            Err(e) => {
                &&& e == SimulationError::FactorizationInconsistency
                &&& gives_up(trace.last()) || (finished(trace.last()) && reproduces(
                    trace.last().found.push(trace.last().rest),
                    t,
                    false,
                ))
            },
        }
}

/// What a factorization returned, with the factors as sequences.
pub open spec fn factoring_model<A: Amplitude>(
    r: Result<Vec<Vec<A>>, SimulationError>,
) -> Result<Seq<Seq<A>>, SimulationError> {
    match r {
        Ok(factors) => Ok(matrix_view(factors)),
        Err(e) => Err(e),
    }
}

/// Two powers of two of which the first is below the second: the first
/// divides the second, the quotient is a power of two, and twice the first is
/// not above the second.
proof fn lemma_power_below(f: nat, e: nat)
    requires
        pow2(f) < pow2(e),
    ensures
        f < e,
        pow2(f) * pow2((e - f) as nat) == pow2(e),
        pow2(e) / pow2(f) == pow2((e - f) as nat),
        pow2(e) % pow2(f) == 0,
        2 * pow2(f) <= pow2(e),
        pow2((e - f) as nat) < pow2(e) || f == 0,
        pow2((e - f) as nat) > 0,
{
    if f >= e {
        if f > e {
            lemma_pow2_strictly_increases(e, f);
        }
        assert(false);
    }
    lemma_pow2_adds(f, (e - f) as nat);
    lemma_pow2_subtracts(f, e);
    lemma_pow2_pos(f);
    lemma_pow2_pos((e - f) as nat);
    vstd::arithmetic::div_mod::lemma_mod_multiples_basic(
        pow2((e - f) as nat) as int,
        pow2(f) as int,
    );
    assert(pow2(f) * pow2((e - f) as nat) == pow2((e - f) as nat) * pow2(f)) by (nonlinear_arith);
    lemma_pow2_unfold((f + 1) as nat);
    if f + 1 < e {
        lemma_pow2_strictly_increases((f + 1) as nat, e);
    }
    if f > 0 {
        lemma_pow2_strictly_increases((e - f) as nat, e);
    }
}

/// Looks for a way to write the vector as a Kronecker product of smaller
/// vectors.
///
/// Sizes two, four, eight and so on are tried for the first factor. At each
/// size the vector is read as a matrix with one row for each entry of the
/// factor, and tested for rank one. Where the test passes, a factor of that
/// size is taken off and the search starts again on the remainder. The result
/// holds the factors found, in order, and what is left at the end.
///
/// The factors are then multiplied back and compared with the vector by
/// their display texts. The factorization fails when the texts differ, and
/// when a vector that passes the test holds no amplitude other than zero.
pub fn tensor_factor<A: Amplitude>(tensor: Vec<A>) -> (r: Result<Vec<Vec<A>>, SimulationError>)
    requires
        is_power_of_two(tensor.len() as nat),
    ensures
        is_factoring(tensor@, factoring_model(r)),
{
    let given = copy_vector(&tensor);
    let mut left = tensor;
    let mut base_components: Vec<Vec<A>> = Vec::new();
    let mut component_size: usize = 2;
    let mut component2_size: usize = left.len() / 2;
    let ghost mut e: nat = choose|e: nat| #[trigger] pow2(e) == left.len();
    let ghost mut f: nat = 1;
    let ghost mut trace: Seq<Search<A>> = seq![
        Search { rest: left@, found: matrix_view(base_components), size: 2 },
    ];
    proof {
        vstd::arithmetic::power2::lemma2_to64();
    }
    while component_size < left.len()
        invariant
            pow2(e) == left.len(),
            pow2(f) == component_size,
            f >= 1,
            component2_size == left.len() / component_size,
            given@ == tensor@,
            search_trace(trace, given@),
            trace.last().rest == left@,
            trace.last().found == matrix_view(base_components),
            trace.last().size == component_size,
        decreases left.len(), left.len() - component_size,
    {
        let ghost s = trace.last();
        proof {
            vstd::arithmetic::power2::lemma2_to64();
            lemma_power_below(f, e);
            lemma_power_below((e - f) as nat, e);
            assert(component_size * component2_size == left.len());
        }
        let mut step_size: usize = component_size;
        let ghost mut n = s;
        if can_be_factored(&left, component2_size) {
            match find_nonzero(&left) {
                None => {
                    proof {
                        assert(gives_up(s));
                    }
                    return Err(SimulationError::FactorizationInconsistency);
                },
                Some(d) => {
                    let parts = extract(&left, component_size, component2_size, d);
                    let ghost found = matrix_view(base_components);
                    proof {
                        assert(first_nonzero(s.rest, Some(d as nat)));
                        let w = choose|w: Extraction<A>| #[trigger]
                            extraction(
                                left@,
                                component_size as int,
                                component2_size as int,
                                d as int,
                                w,
                                parts.0@,
                                parts.1@,
                            );
                        lemma_normalized_len(w.raw_factor, parts.0@);
                        lemma_normalized_len(w.raw_rest, parts.1@);
                    }
                    left = parts.1;
                    base_components.push(parts.0);
                    step_size = 1;
                    proof {
                        n = Search { rest: left@, found: matrix_view(base_components), size: 2 };
                        assert(n.found.drop_last() =~= found);
                        assert(splits_off(s, n));
                        e = (e - f) as nat;
                        f = 1;
                    }
                },
            }
        } else {
            proof {
                n = Search { rest: s.rest, found: s.found, size: s.size * 2 };
                assert(moves_on(s, n));
                lemma_pow2_unfold(f + 1);
                f = f + 1;
            }
        }
        component_size = step_size * 2;
        component2_size = left.len() / component_size;
        proof {
            let longer = trace.push(n);
            assert forall|k: int| 0 <= k < longer.len() - 1 implies moves_on(
                #[trigger] longer[k],
                longer[k + 1],
            ) || splits_off(longer[k], longer[k + 1]) by {
                if k < trace.len() - 1 {
                    assert(longer[k] == trace[k]);
                    assert(longer[k + 1] == trace[k + 1]);
                }
            }
            trace = longer;
        }
    }
    let ghost last = trace.last();
    let ghost factors = last.found.push(last.rest);
    base_components.push(left);
    assert(matrix_view(base_components) =~= factors);
    let mut list: Vec<&Vec<A>> = Vec::new();
    let mut k: usize = 0;
    while k < base_components.len()
        invariant
            k <= base_components.len(),
            list.len() == k,
            forall|j: int| 0 <= j < k ==> *(#[trigger] list[j]) == base_components[j],
        decreases base_components.len() - k,
    {
        list.push(&base_components[k]);
        k += 1;
    }
    assert(vector_views(list@) =~= factors);
    let product = tensor_product_vector(list);
    let rebuilt = print_tensor(&product);
    let expected = print_tensor(&given);
    let alike = rebuilt == expected;
    assert(reproduces(factors, given@, alike));
    if alike {
        Ok(base_components)
    } else {
        Err(SimulationError::FactorizationInconsistency)
    }
}

/// Normalizing keeps the length.
proof fn lemma_normalized_len<A: Amplitude>(v: Seq<A>, out: Seq<A>)
    requires
        normalized(v, out),
    ensures
        out.len() == v.len(),
{
}

} // verus!
