//! The execution engine: a machine that holds a state vector, a history of
//! measurements and the instructions still to run, and takes one instruction
//! at a time off the front.

use vstd::prelude::*;
use crate::error::SimulationError;
use crate::gate::{apply_gate, gate_applies, gate_rejected};
use crate::instruction::{
    lemma_model_of_circuit, lemma_size_all_concat, model_of, models, size, size_all, Instr,
    Instruction, Measurement,
};
use crate::measure::{cleared, lemma_measurement_collapses, measure, measure_fails, measures};
use crate::numeric::Amplitude;

verus! {

/// The state of one run.
pub struct Machine<A: Amplitude> {
    /// The state vector.
    pub amplitudes: Seq<A>,
    /// Every measurement taken so far, in the order taken, each with the flag
    /// that says whether it is shown to the caller.
    pub history: Seq<(bool, Measurement)>,
    /// The instructions still to run, the next one first.
    pub pending: Seq<Instr<A>>,
}

/// `next` is a machine with these three parts.
pub open spec fn goes<A: Amplitude>(
    next: Result<Machine<A>, SimulationError>,
    amplitudes: Seq<A>,
    history: Seq<(bool, Measurement)>,
    pending: Seq<Instr<A>>,
) -> bool {
    &&& next matches Ok(n)
    &&& n.amplitudes == amplitudes
    &&& n.history == history
    &&& n.pending == pending
}

/// One step of a machine on a register of `qubits` qubits: the machine takes
/// the first pending instruction and becomes `next`, or fails.
///
/// A gate is applied to the state. A measurement changes the state and adds
/// its record to the history. A sub-circuit puts its children in front of what
/// is pending. A conditional looks up the measurement that it refers to: when
/// there is none, the step fails; when its outcome is true, the instruction of
/// the conditional becomes the next one to run; otherwise it is dropped. A
/// measurement that is not in the computational basis does nothing.
pub open spec fn steps<A: Amplitude>(
    m: Machine<A>,
    qubits: nat,
    next: Result<Machine<A>, SimulationError>,
) -> bool {
    &&& m.pending.len() > 0
    &&& match m.pending[0] {
        Instr::Gate(matrix, qubit) => match next {
            Ok(n) => {
                &&& n.history == m.history
                &&& n.pending == m.pending.skip(1)
                &&& gate_applies(m.amplitudes, matrix, qubit, qubits, n.amplitudes)
            },
            Err(e) => e == SimulationError::DimensionMismatch && gate_rejected(
                m.amplitudes,
                matrix,
                qubit,
                qubits,
            ),
        },
        Instr::Measure(qubit, display) => match next {
            Ok(n) => {
                &&& n.pending == m.pending.skip(1)
                &&& n.history.len() == m.history.len() + 1
                &&& n.history.drop_last() == m.history
                &&& n.history.last().0 == display
                &&& n.history.last().1.0 == qubit
                &&& measures(m.amplitudes, qubit, n.amplitudes, n.history.last().1.1)
            },
            Err(e) => measure_fails(m.amplitudes, qubit, e),
        },
        Instr::MeasureAtAngle(_, _, _) => goes(
            next,
            m.amplitudes,
            m.history,
            m.pending.skip(1),
        ),
        Instr::MeasureAtSpinVector(_, _, _) => goes(
            next,
            m.amplitudes,
            m.history,
            m.pending.skip(1),
        ),
        Instr::Circuit(children, _) => goes(
            next,
            m.amplitudes,
            m.history,
            children + m.pending.skip(1),
        ),
        Instr::Dependent(inner, reference) => if reference >= m.history.len() {
            next == Err::<Machine<A>, SimulationError>(SimulationError::OutOfRangeReference)
        } else if m.history[reference as int].1.1 {
            goes(next, m.amplitudes, m.history, seq![*inner] + m.pending.skip(1))
        } else {
            goes(next, m.amplitudes, m.history, m.pending.skip(1))
        },
    }
}

/// A conditional whose measurement is on record never fails. Where the
/// outcome on record is true, its instruction is the next one to run, once,
/// in front of what was pending behind the conditional; where it is false,
/// the instruction is dropped and what was pending behind the conditional
/// stays as it was. Either way the state and the history are not touched.
pub proof fn lemma_conditional_step<A: Amplitude>(
    m: Machine<A>,
    qubits: nat,
    next: Result<Machine<A>, SimulationError>,
)
    requires
        steps(m, qubits, next),
        m.pending[0] is Dependent,
        m.pending[0]->Dependent_1 < m.history.len(),
    ensures
        next is Ok,
        next->Ok_0.amplitudes == m.amplitudes,
        next->Ok_0.history == m.history,
        m.history[m.pending[0]->Dependent_1 as int].1.1 ==> next->Ok_0.pending == seq![
            *m.pending[0]->Dependent_0,
        ] + m.pending.skip(1),
        !m.history[m.pending[0]->Dependent_1 as int].1.1 ==> next->Ok_0.pending == m.pending.skip(
            1,
        ),
{
}

/// A conditional that refers to a measurement not on record fails, and with
/// no other error than that of a reference out of range.
pub proof fn lemma_conditional_without_record<A: Amplitude>(
    m: Machine<A>,
    qubits: nat,
    next: Result<Machine<A>, SimulationError>,
)
    requires
        steps(m, qubits, next),
        m.pending[0] is Dependent,
        m.pending[0]->Dependent_1 >= m.history.len(),
    ensures
        next == Err::<Machine<A>, SimulationError>(SimulationError::OutOfRangeReference),
{
}

/// A measurement that succeeds adds one record to the history, for its qubit
/// and with its flag, and leaves no amplitude of a basis state that disagrees
/// with the outcome on record.
pub proof fn lemma_measure_step<A: Amplitude>(m: Machine<A>, qubits: nat, n: Machine<A>)
    requires
        steps(m, qubits, Ok(n)),
        m.pending[0] is Measure,
    ensures
        n.history.len() == m.history.len() + 1,
        n.history.last().0 == m.pending[0]->Measure_1,
        n.history.last().1.0 == m.pending[0]->Measure_0,
        n.amplitudes.len() == m.amplitudes.len(),
        exists|len: A::Real| #[trigger]
            cleared(n.amplitudes, m.pending[0]->Measure_0, n.history.last().1.1, len),
{
    lemma_measurement_collapses(
        m.amplitudes,
        m.pending[0]->Measure_0,
        n.amplitudes,
        n.history.last().1.1,
    );
}

/// The instructions that a stack of references holds, the top of the stack
/// first.
pub open spec fn pending_of<A: Amplitude>(stack: Seq<&Instruction<A>>) -> Seq<Instr<A>> {
    Seq::new(stack.len(), |k: int| model_of(*stack[stack.len() - 1 - k]))
}

/// The machine that the three parts of a run stand for.
pub open spec fn machine<A: Amplitude>(
    state: Seq<A>,
    history: Seq<(bool, Measurement)>,
    stack: Seq<&Instruction<A>>,
) -> Machine<A> {
    Machine { amplitudes: state, history, pending: pending_of(stack) }
}

/// Puts a list of instructions on the stack so that its first element is on
/// top.
pub fn push_reversed<'a, A: Amplitude>(
    stack: &mut Vec<&'a Instruction<A>>,
    list: &'a Vec<Instruction<A>>,
)
    ensures
        pending_of(final(stack)@) == models(list@) + pending_of(old(stack)@),
{
    let ghost below = pending_of(stack@);
    let mut k: usize = list.len();
    assert(models(list@).skip(k as int) + below =~= below);
    while k > 0
        invariant
            k <= list.len(),
            pending_of(stack@) == models(list@).skip(k as int) + below,
        decreases k,
    {
        let ghost before = stack@;
        k -= 1;
        stack.push(&list[k]);
        proof {
            let now = pending_of(stack@);
            let want = models(list@).skip(k as int) + below;
            assert(pending_of(before).len() == before.len());
            assert((models(list@).skip(k + 1) + below).len() == list.len() - (k + 1)
                + below.len());
            assert(now.len() == before.len() + 1);
            assert(now.len() == want.len());
            assert forall|j: int| 0 <= j < now.len() implies now[j] == want[j] by {
                if j > 0 {
                    assert(now[j] == pending_of(before)[j - 1]);
                    assert(pending_of(before)[j - 1] == (models(list@).skip(k + 1) + below)[j
                        - 1]);
                }
            }
            assert(now =~= want);
        }
    }
    assert(models(list@).skip(0) =~= models(list@));
}

/// One step of a run: takes the instruction on top of the stack and does what
/// it says to the state, the history and the stack. On an empty stack there
/// is nothing to do. A step that fails leaves the state and the history as
/// they were.
pub fn step<'a, A: Amplitude>(
    state: &mut Vec<A>,
    history: &mut Vec<(bool, Measurement)>,
    stack: &mut Vec<&'a Instruction<A>>,
    qubits: usize,
) -> (r: Result<(), SimulationError>)
    ensures
        old(stack).len() > 0 ==> steps(
            machine(old(state)@, old(history)@, old(stack)@),
            qubits as nat,
            match r {
                Ok(_) => Ok(machine(final(state)@, final(history)@, final(stack)@)),
                Err(e) => Err(e),
            },
        ),
        old(stack).len() > 0 && r is Ok ==> size_all(pending_of(final(stack)@)) < size_all(
            pending_of(old(stack)@),
        ),
        old(stack).len() == 0 ==> r is Ok && final(state)@ == old(state)@ && final(history)@
            == old(history)@ && final(stack)@ == old(stack)@,
        r is Err ==> final(state)@ == old(state)@ && final(history)@ == old(history)@,
{
    let ghost before = machine(state@, history@, stack@);
    let top = stack.pop();
    let ghost rest = pending_of(stack@);
    match top {
        None => Ok(()),
        Some(ins) => {
            proof {
                assert(before.pending[0] == model_of(*ins));
                assert(before.pending.skip(1) =~= rest);
                assert(before.pending =~= seq![model_of(*ins)] + rest);
                lemma_size_all_concat(seq![model_of(*ins)], rest);
                assert(size_all(seq![model_of(*ins)]) == size(model_of(*ins))) by {
                    assert(seq![model_of(*ins)].skip(1) =~= Seq::<Instr<A>>::empty());
                    reveal_with_fuel(size_all, 2);
                }
            }
            match ins {
                Instruction::Gate(matrix, qubit) => {
                    apply_gate(state, matrix, *qubit, qubits)
                },
                Instruction::Measure(qubit, display) => {
                    match measure(state, *qubit) {
                        Ok(outcome) => {
                            history.push((*display, Measurement(*qubit, outcome)));
                            assert(history@.drop_last() =~= before.history);
                            Ok(())
                        },
                        Err(e) => Err(e),
                    }
                },
                Instruction::MeasureAtAngle(_, _, _) => Ok(()),
                Instruction::MeasureAtSpinVector(_, _, _) => Ok(()),
                Instruction::Circuit(children, offset) => {
                    proof {
                        lemma_model_of_circuit(*children, *offset);
                    }
                    push_reversed(stack, children);
                    proof {
                        lemma_size_all_concat(models(children@), rest);
                    }
                    Ok(())
                },
                Instruction::Dependent(inner, reference) => {
                    if *reference >= history.len() {
                        return Err(SimulationError::OutOfRangeReference);
                    }
                    if history[*reference].1.1 {
                        stack.push(&**inner);
                        proof {
                            assert(pending_of(stack@) =~= seq![model_of(**inner)] + rest);
                            lemma_size_all_concat(seq![model_of(**inner)], rest);
                            assert(size_all(seq![model_of(**inner)]) == size(model_of(**inner)))
                                by {
                                assert(seq![model_of(**inner)].skip(1) =~= Seq::<
                                    Instr<A>,
                                >::empty());
                                reveal_with_fuel(size_all, 2);
                            }
                        }
                    }
                    Ok(())
                },
            }
        },
    }
}

} // verus!
