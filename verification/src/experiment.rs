//! An experiment: the initial state of each qubit and a lowered program, run
//! as often as wanted.

use vstd::prelude::*;
use crate::engine::{machine, pending_of, push_reversed, step, steps, Machine};
use crate::error::SimulationError;
use crate::instruction::{matrix_view, models, size_all, Instr, Instruction, Measurement};
use crate::lowering::{all_flat, lowerable_all, lowers_all, simplify_instructions};
use crate::numeric::Amplitude;
use crate::tensor::{is_tensor_product, tensor_product_vector, vector_views};

verus! {

/// The measurements of a history that are shown to the caller, in order.
pub open spec fn displayed(history: Seq<(bool, Measurement)>) -> Seq<Measurement>
    decreases history.len(),
{
    if history.len() == 0 {
        Seq::empty()
    } else if history.last().0 {
        displayed(history.drop_last()).push(history.last().1)
    } else {
        displayed(history.drop_last())
    }
}

/// `trace` is a sequence of machines of which each is one step from the one
/// before.
pub open spec fn run_trace<A: Amplitude>(trace: Seq<Machine<A>>, qubits: nat) -> bool {
    &&& trace.len() > 0
    &&& forall|k: int|
        0 <= k < trace.len() - 1 ==> steps(#[trigger] trace[k], qubits, Ok(trace[k + 1]))
}

/// `trace` starts with the product of the qubits' vectors as its state, an
/// empty history, and the whole program pending.
pub open spec fn starts<A: Amplitude>(
    trace: Seq<Machine<A>>,
    vectors: Seq<Seq<A>>,
    program: Seq<Instr<A>>,
) -> bool {
    &&& trace.len() > 0
    &&& is_tensor_product(vectors, trace[0].amplitudes)
    &&& trace[0].history.len() == 0
    &&& trace[0].pending == program
}

/// `trace` ends in `result`: in a machine with nothing pending, whose state
/// and shown measurements are the result; or in a machine whose next step
/// fails with the error that is the result.
pub open spec fn ends<A: Amplitude>(
    trace: Seq<Machine<A>>,
    qubits: nat,
    result: Result<(Seq<A>, Seq<Measurement>), SimulationError>,
) -> bool {
    &&& trace.len() > 0
    &&& match result {
        Ok((state, shown)) => {
            &&& trace.last().pending.len() == 0
            &&& state == trace.last().amplitudes
            &&& shown == displayed(trace.last().history)
        },
        Err(e) => steps(trace.last(), qubits, Err(e)),
    }
}

/// `result` is what one run of `program` on qubits that start in `vectors`
/// can return.
///
/// Without a qubit there is no state, and the run fails with a dimension
/// mismatch. Otherwise the machine starts from the Kronecker product of the
/// vectors and takes one step after the other, until nothing is pending or a
/// step fails.
pub open spec fn is_run<A: Amplitude>(
    vectors: Seq<Seq<A>>,
    program: Seq<Instr<A>>,
    result: Result<(Seq<A>, Seq<Measurement>), SimulationError>,
) -> bool {
    if vectors.len() == 0 {
        result == Err::<(Seq<A>, Seq<Measurement>), SimulationError>(
            SimulationError::DimensionMismatch,
        )
    } else {
        exists|trace: Seq<Machine<A>>| #[trigger]
            run_trace(trace, vectors.len()) && starts(trace, vectors, program) && ends(
                trace,
                vectors.len(),
                result,
            )
    }
}

/// What a run returned, with the vectors as sequences.
pub open spec fn run_model<A: Amplitude>(
    r: Result<(Vec<A>, Vec<Measurement>), SimulationError>,
) -> Result<(Seq<A>, Seq<Measurement>), SimulationError> {
    match r {
        Ok((state, shown)) => Ok((state@, shown@)),
        Err(e) => Err(e),
    }
}

/// The measurements of a history that are shown to the caller.
fn shown_of(history: &Vec<(bool, Measurement)>) -> (r: Vec<Measurement>)
    ensures
        r@ == displayed(history@),
{
    let mut r: Vec<Measurement> = Vec::new();
    let mut i: usize = 0;
    while i < history.len()
        invariant
            i <= history.len(),
            r@ == displayed(history@.take(i as int)),
        decreases history.len() - i,
    {
        proof {
            let longer = history@.take(i + 1);
            assert(longer.drop_last() =~= history@.take(i as int));
            assert(longer.last() == history@[i as int]);
        }
        if history[i].0 {
            r.push(history[i].1);
        }
        i += 1;
    }
    assert(history@.take(history.len() as int) =~= history@);
    r
}

/// The initial state of each qubit and the program to run on them.
pub struct Experiment<A: Amplitude> {
    qbits: Vec<Vec<A>>,
    instructions: Vec<Instruction<A>>,
}

impl<A: Amplitude> Experiment<A> {
    /// The initial state vector of each qubit, in the order declared.
    pub closed spec fn qubits(&self) -> Seq<Seq<A>> {
        matrix_view(self.qbits)
    }

    /// The lowered program that every run executes.
    pub closed spec fn program(&self) -> Seq<Instr<A>> {
        models(self.instructions@)
    }

    /// An experiment on qubits that start in the given vectors. The
    /// instructions are lowered once, here.
    pub fn new(qbits: Vec<Vec<A>>, instructions: Vec<Instruction<A>>) -> (r: Self)
        requires
            lowerable_all(models(instructions@), 0, 0, 0),
        ensures
            r.qubits() == matrix_view(qbits),
            lowers_all(models(instructions@), 0, 0, 0, r.program()),
            all_flat(r.program()),
    {
        let mut instructions = instructions;
        simplify_instructions(&mut instructions, 0, 0);
        Experiment { qbits, instructions }
    }

    /// Runs the program once, and returns the final state vector and the
    /// measurements that are shown, in the order taken.
    pub fn run(&self) -> (r: Result<(Vec<A>, Vec<Measurement>), SimulationError>)
        ensures
            is_run(self.qubits(), self.program(), run_model(r)),
    {
        if self.qbits.len() == 0 {
            return Err(SimulationError::DimensionMismatch);
        }
        let qubits = self.qbits.len();
        let mut vectors: Vec<&Vec<A>> = Vec::new();
        let mut i: usize = 0;
        while i < self.qbits.len()
            invariant
                i <= self.qbits.len(),
                vectors.len() == i,
                forall|k: int| 0 <= k < i ==> *(#[trigger] vectors[k]) == self.qbits[k],
            decreases self.qbits.len() - i,
        {
            vectors.push(&self.qbits[i]);
            i += 1;
        }
        assert(vector_views(vectors@) =~= matrix_view(self.qbits));
        let mut state = tensor_product_vector(vectors);
        let mut history: Vec<(bool, Measurement)> = Vec::new();
        let mut stack: Vec<&Instruction<A>> = Vec::new();
        assert(pending_of(stack@) =~= Seq::<Instr<A>>::empty());
        push_reversed(&mut stack, &self.instructions);
        assert(pending_of(stack@) =~= self.program());
        let ghost mut trace: Seq<Machine<A>> = seq![machine(state@, history@, stack@)];
        while stack.len() > 0
            invariant
                qubits == self.qubits().len(),
                qubits > 0,
                run_trace(trace, qubits as nat),
                starts(trace, self.qubits(), self.program()),
                trace.last() == machine(state@, history@, stack@),
            decreases size_all(pending_of(stack@)),
        {
            let ghost m = machine(state@, history@, stack@);
            match step(&mut state, &mut history, &mut stack, qubits) {
                Ok(_) => {
                    proof {
                        let n = machine(state@, history@, stack@);
                        let longer = trace.push(n);
                        assert forall|k: int| 0 <= k < longer.len() - 1 implies steps(
                            #[trigger] longer[k],
                            qubits as nat,
                            Ok(longer[k + 1]),
                        ) by {
                            if k < trace.len() - 1 {
                                assert(longer[k] == trace[k]);
                                assert(longer[k + 1] == trace[k + 1]);
                            }
                        }
                        assert(longer[0] == trace[0]);
                        trace = longer;
                    }
                },
                Err(e) => {
                    assert(ends(trace, qubits as nat, Err(e)));
                    return Err(e);
                },
            }
        }
        let shown = shown_of(&history);
        proof {
            assert(pending_of(stack@).len() == 0);
            assert(ends(trace, qubits as nat, Ok((state@, shown@))));
        }
        Ok((state, shown))
    }
}

} // verus!
