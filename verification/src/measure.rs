//! Projective measurement of one qubit: sampling a basis state, collapsing
//! the state onto the outcome, and normalizing what is left.

use vstd::prelude::*;
use vstd::arithmetic::power2::pow2;
use crate::error::SimulationError;
use crate::numeric::{
    amp_norm_sqr, amp_quotient, amp_zero, real_difference, real_draw, real_less, Amplitude, Real,
};
use crate::tensor::{is_from_one, is_length, norm, normalized, reads_one, scaled_down};

verus! {

/// `probs` holds the squared magnitude of each amplitude of `state`.
pub open spec fn is_probabilities<A: Amplitude>(state: Seq<A>, probs: Seq<A::Real>) -> bool {
    &&& probs.len() == state.len()
    &&& forall|i: int| 0 <= i < state.len() ==> amp_norm_sqr(state[i], #[trigger] probs[i])
}

/// A walk along the cumulative distribution: `rest[j]` is what is left of the
/// draw when the walk reaches index `j`. At every index before `stop` the
/// remainder is not below the probability there, and the probability is taken
/// off it; at `stop` the remainder is below the probability, or the
/// probabilities have run out.
pub open spec fn walk<R: Real>(probs: Seq<R>, rest: Seq<R>, stop: nat) -> bool {
    &&& stop <= probs.len()
    &&& rest.len() == stop + 1
    &&& forall|j: int|
        0 <= j < stop ==> real_less(#[trigger] rest[j], probs[j], false) && real_difference(
            rest[j],
            probs[j],
            rest[j + 1],
        )
    &&& stop < probs.len() ==> real_less(rest[stop as int], probs[stop as int], true)
}

/// Inverse sampling of the cumulative distribution: `pick` is the first index
/// at which the sum of the probabilities so far exceeds `draw`, found by
/// taking one probability after the other off the draw; or nothing, when the
/// probabilities run out first.
pub open spec fn samples<R: Real>(probs: Seq<R>, draw: R, pick: Option<nat>) -> bool {
    exists|rest: Seq<R>, stop: nat| #[trigger]
        walk(probs, rest, stop) && rest[0] == draw && pick == if stop < probs.len() {
            Some(stop)
        } else {
            None::<nat>
        }
}

/// Some draw from the unit interval, walked along the probabilities of
/// `state`, selects `pick`.
pub open spec fn picks<A: Amplitude>(state: Seq<A>, pick: Option<nat>) -> bool {
    exists|probs: Seq<A::Real>, draw: A::Real|
        is_probabilities(state, probs) && real_draw(draw) && #[trigger] samples(
            probs,
            draw,
            pick,
        )
}

/// `out` is `state` projected onto `outcome` for `qubit`: an amplitude whose
/// basis state reads the other value is zero, and every other amplitude is
/// kept.
pub open spec fn collapsed<A: Amplitude>(
    state: Seq<A>,
    qubit: nat,
    outcome: bool,
    out: Seq<A>,
) -> bool {
    &&& out.len() == state.len()
    &&& forall|k: int|
        0 <= k < state.len() ==> if reads_one(qubit, k as nat, state.len()) == outcome {
            #[trigger] out[k] == state[k]
        } else {
            amp_zero(out[k])
        }
}

/// The rule for reading `qubit` applies to the state: the block of basis
/// states that the rule divides in two, of `len / 2^qubit` states, is not
/// empty.
pub open spec fn can_read<A>(state: Seq<A>, qubit: nat) -> bool {
    state.len() / pow2(qubit) > 0
}

/// A measurement of `qubit` can take `state` to `after` with `outcome`: a
/// sampled basis state reads `outcome`, and `after` is the state collapsed
/// onto it and then normalized.
pub open spec fn measures<A: Amplitude>(
    state: Seq<A>,
    qubit: nat,
    after: Seq<A>,
    outcome: bool,
) -> bool {
    exists|pick: nat, mid: Seq<A>|
        {
            &&& #[trigger] picks(state, Some(pick))
            &&& can_read(state, qubit)
            &&& outcome == reads_one(qubit, pick, state.len())
            &&& #[trigger] collapsed(state, qubit, outcome, mid)
            &&& normalized(mid, after)
        }
}

/// A measurement of `qubit` in `state` can fail with `e`: the distribution is
/// exhausted when no basis state is sampled, and the dimension does not match
/// when one is sampled but the state is too short for the qubit to be read.
pub open spec fn measure_fails<A: Amplitude>(
    state: Seq<A>,
    qubit: nat,
    e: SimulationError,
) -> bool {
    ||| picks(state, None) && e == SimulationError::ExhaustedDistribution
    ||| (exists|pick: nat| #[trigger] picks(state, Some(pick))) && !can_read(state, qubit) && e
        == SimulationError::DimensionMismatch
}

/// `x` is what the division of a zero by `len` gives.
pub open spec fn zero_over<A: Amplitude>(x: A, len: A::Real) -> bool {
    exists|zero: A| amp_zero(zero) && #[trigger] amp_quotient(zero, len, x)
}

/// `state` holds, wherever the basis state reads the other value than
/// `outcome` for `qubit`, a zero divided by `len`.
pub open spec fn cleared<A: Amplitude>(
    state: Seq<A>,
    qubit: nat,
    outcome: bool,
    len: A::Real,
) -> bool {
    forall|k: int|
        0 <= k < state.len() && reads_one(qubit, k as nat, state.len()) != outcome ==> zero_over(
            #[trigger] state[k],
            len,
        )
}

/// Right after a measurement no amplitude is left of a basis state that
/// disagrees with the outcome: the state has its length from before, and each
/// such amplitude is what the division of a zero by one and the same norm
/// gives.
pub proof fn lemma_measurement_collapses<A: Amplitude>(
    state: Seq<A>,
    qubit: nat,
    after: Seq<A>,
    outcome: bool,
)
    requires
        measures(state, qubit, after, outcome),
    ensures
        after.len() == state.len(),
        exists|len: A::Real| #[trigger] cleared(after, qubit, outcome, len),
{
    let (pick, mid) = choose|pick: nat, mid: Seq<A>|
        {
            &&& #[trigger] picks(state, Some(pick))
            &&& can_read(state, qubit)
            &&& outcome == reads_one(qubit, pick, state.len())
            &&& #[trigger] collapsed(state, qubit, outcome, mid)
            &&& normalized(mid, after)
        };
    let len = choose|len: A::Real| #[trigger] is_length(mid, len) && scaled_down(mid, len, after);
    assert forall|k: int|
        0 <= k < after.len() && reads_one(qubit, k as nat, after.len())
            != outcome implies zero_over(#[trigger] after[k], len) by {
        assert(amp_zero(mid[k]));
        assert(amp_quotient(mid[k], len, after[k]));
    }
    assert(cleared(after, qubit, outcome, len));
}

/// A sampled index as a natural number.
pub open spec fn as_index(pick: Option<usize>) -> Option<nat> {
    match pick {
        Some(i) => Some(i as nat),
        None => None,
    }
}

/// The squared magnitude of each amplitude.
pub fn probabilities<A: Amplitude>(state: &Vec<A>) -> (probs: Vec<A::Real>)
    ensures
        is_probabilities(state@, probs@),
{
    let mut probs: Vec<A::Real> = Vec::new();
    let mut i: usize = 0;
    while i < state.len()
        invariant
            i <= state.len(),
            probs.len() == i,
            forall|k: int| 0 <= k < i ==> amp_norm_sqr(state[k], #[trigger] probs[k]),
        decreases state.len() - i,
    {
        probs.push(state[i].norm_sqr());
        i += 1;
    }
    probs
}

/// Walks the cumulative distribution with a given draw: the first index at
/// which the probabilities so far add up to more than the draw.
pub fn choose_with_draw<R: Real>(probabilities: &Vec<R>, draw: R) -> (pick: Option<usize>)
    ensures
        samples(
            probabilities@,
            draw,
            as_index(pick),
        ),
        pick matches Some(i) ==> i < probabilities.len(),
{
    let mut r = draw;
    let ghost mut rest: Seq<R> = seq![draw];
    let mut i: usize = 0;
    while i < probabilities.len()
        invariant
            i <= probabilities.len(),
            rest.len() == i + 1,
            rest[0] == draw,
            r == rest[i as int],
            forall|j: int|
                0 <= j < i ==> real_less(#[trigger] rest[j], probabilities[j], false)
                    && real_difference(rest[j], probabilities[j], rest[j + 1]),
        decreases probabilities.len() - i,
    {
        if r.less_than(&probabilities[i]) {
            assert(walk(probabilities@, rest, i as nat));
            return Some(i);
        }
        let left = r.minus(&probabilities[i]);
        proof {
            let longer = rest.push(left);
            assert forall|j: int| 0 <= j < i + 1 implies real_less(
                #[trigger] longer[j],
                probabilities[j],
                false,
            ) && real_difference(longer[j], probabilities[j], longer[j + 1]) by {
                if j < i {
                    assert(longer[j] == rest[j]);
                    assert(longer[j + 1] == rest[j + 1]);
                }
            }
            rest = longer;
        }
        r = left;
        i += 1;
    }
    assert(walk(probabilities@, rest, i as nat));
    None
}

/// Samples an index from a distribution: one draw from the unit interval,
/// walked along the cumulative probabilities.
pub fn choose_probability<R: Real>(probabilities: &Vec<R>) -> (pick: Option<usize>)
    ensures
        exists|draw: R|
            real_draw(draw) && #[trigger] samples(
                probabilities@,
                draw,
                as_index(pick),
            ),
        pick matches Some(i) ==> i < probabilities.len(),
{
    let draw = R::draw();
    choose_with_draw(probabilities, draw)
}

/// Sets to zero every amplitude whose basis state does not read `outcome` for
/// `qubit`.
pub fn collapse<A: Amplitude>(state: &mut Vec<A>, qubit: usize, outcome: bool)
    requires
        can_read(old(state)@, qubit as nat),
    ensures
        collapsed(old(state)@, qubit as nat, outcome, final(state)@),
{
    let ghost before = state@;
    let n = state.len();
    let mut result: Vec<A> = Vec::new();
    let mut k: usize = 0;
    while k < n
        invariant
            k <= n,
            n == before.len(),
            state@ == before,
            can_read(before, qubit as nat),
            result.len() == k,
            forall|j: int|
                0 <= j < k ==> if reads_one(qubit as nat, j as nat, n as nat) == outcome {
                    #[trigger] result[j] == before[j]
                } else {
                    amp_zero(result[j])
                },
        decreases n - k,
    {
        if is_from_one(qubit, k, n) != outcome {
            result.push(A::zero());
        } else {
            result.push(state[k]);
        }
        k += 1;
    }
    *state = result;
}

/// Measures one qubit: samples a basis state, reads the qubit off it,
/// collapses the state onto what was read and normalizes it. Returns what was
/// read. On failure the state is left as it is.
pub fn measure<A: Amplitude>(state: &mut Vec<A>, qubit: usize) -> (r: Result<
    bool,
    SimulationError,
>)
    ensures
        match r {
            Ok(outcome) => measures(old(state)@, qubit as nat, final(state)@, outcome),
            Err(e) => measure_fails(old(state)@, qubit as nat, e) && final(state)@ == old(state)@,
        },
{
    let ghost before = state@;
    let probs = probabilities(state);
    let pick = choose_probability(&probs);
    proof {
        let model = as_index(pick);
        let draw = choose|draw: A::Real| real_draw(draw) && #[trigger] samples(probs@, draw, model);
        assert(picks(before, model));
    }
    match pick {
        None => Err(SimulationError::ExhaustedDistribution),
        Some(sampled) => {
            if !can_read_qubit(state.len(), qubit) {
                return Err(SimulationError::DimensionMismatch);
            }
            let outcome = is_from_one(qubit, sampled, state.len());
            collapse(state, qubit, outcome);
            let ghost mid = state@;
            norm(state);
            assert(picks(before, Some(sampled as nat)));
            assert(collapsed(before, qubit as nat, outcome, mid));
            Ok(outcome)
        },
    }
}

/// Whether the qubit can be read in a state of `len` amplitudes: whether
/// `len / 2^qubit` is positive.
pub fn can_read_qubit(len: usize, qubit: usize) -> (r: bool)
    ensures
        r == (len as nat / pow2(qubit as nat) > 0),
{
    let mut block: usize = len;
    let mut i: usize = 0;
    proof {
        vstd::arithmetic::power2::lemma2_to64();
    }
    while i < qubit && block > 0
        invariant
            i <= qubit,
            block == len as nat / pow2(i as nat),
        decreases qubit - i,
    {
        proof {
            vstd::arithmetic::power2::lemma_pow2_pos(i as nat);
            vstd::arithmetic::power2::lemma_pow2_unfold((i + 1) as nat);
            vstd::arithmetic::div_mod::lemma_div_denominator(len as int, pow2(i as nat) as int, 2);
            assert(pow2(i as nat) * 2 == pow2((i + 1) as nat));
        }
        block = block / 2;
        i += 1;
    }
    proof {
        if i < qubit {
            vstd::arithmetic::power2::lemma_pow2_pos(i as nat);
            vstd::arithmetic::power2::lemma_pow2_pos(qubit as nat);
            vstd::arithmetic::power2::lemma_pow2_strictly_increases(i as nat, qubit as nat);
            vstd::arithmetic::div_mod::lemma_div_is_ordered_by_denominator(
                len as int,
                pow2(i as nat) as int,
                pow2(qubit as nat) as int,
            );
        }
    }
    block > 0
}

} // verus!
