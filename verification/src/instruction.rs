//! The instructions of a circuit, and their mathematical model.

use vstd::prelude::*;
use crate::numeric::Amplitude;
use crate::tensor::copy_vector;

verus! {

/// One instruction of a circuit.
///
/// Qubit indices count from zero; qubit 0 is the most significant bit of a
/// basis-state index. The flag of the three measuring variants says whether
/// the outcome is shown to the caller of a run.
pub enum Instruction<A: Amplitude> {
    /// Measure the qubit in the computational basis.
    Measure(usize, bool),
    /// Measure the qubit in the basis rotated by the angle.
    MeasureAtAngle(A::Real, usize, bool),
    /// Measure the qubit in the basis given by a two-amplitude spinor.
    MeasureAtSpinVector(Vec<A>, usize, bool),
    /// A sub-circuit whose qubit indices are relative to the offset.
    Circuit(Vec<Instruction<A>>, usize),
    /// Apply the matrix to the qubits that start at the index.
    Gate(Vec<Vec<A>>, usize),
    /// Run the instruction if the measurement with this ordinal came out true.
    Dependent(Box<Instruction<A>>, usize),
}

/// The mathematical model of an [`Instruction`]: the same six variants over
/// sequences and natural numbers.
pub enum Instr<A: Amplitude> {
    Measure(nat, bool),
    MeasureAtAngle(A::Real, nat, bool),
    MeasureAtSpinVector(Seq<A>, nat, bool),
    Circuit(Seq<Instr<A>>, nat),
    Gate(Seq<Seq<A>>, nat),
    Dependent(Box<Instr<A>>, nat),
}

/// One recorded outcome: the qubit that was measured and what it read.
#[derive(Clone, Copy, PartialEq, Eq, Structural)]
pub struct Measurement(pub usize, pub bool);

/// The rows of a matrix, each as a sequence.
pub open spec fn matrix_view<A>(m: Vec<Vec<A>>) -> Seq<Seq<A>> {
    Seq::new(m@.len(), |i: int| m@[i]@)
}

/// The model of an instruction.
pub open spec fn model_of<A: Amplitude>(ins: Instruction<A>) -> Instr<A>
    decreases ins,
{
    match ins {
        Instruction::Measure(i, d) => Instr::Measure(i as nat, d),
        Instruction::MeasureAtAngle(angle, i, d) => Instr::MeasureAtAngle(angle, i as nat, d),
        Instruction::MeasureAtSpinVector(v, i, d) => Instr::MeasureAtSpinVector(v@, i as nat, d),
        Instruction::Circuit(c, o) => Instr::Circuit(
            Seq::new(
                c@.len(),
                |k: int|
                    if 0 <= k < c@.len() {
                        model_of(c@[k])
                    } else {
                        Instr::Measure(0, false)
                    },
            ),
            o as nat,
        ),
        Instruction::Gate(g, i) => Instr::Gate(matrix_view(g), i as nat),
        Instruction::Dependent(b, m) => Instr::Dependent(Box::new(model_of(*b)), m as nat),
    }
}

impl<A: Amplitude> View for Instruction<A> {
    type V = Instr<A>;

    open spec fn view(&self) -> Instr<A> {
        model_of(*self)
    }
}

/// The models of a list of instructions, in order.
pub open spec fn models<A: Amplitude>(list: Seq<Instruction<A>>) -> Seq<Instr<A>> {
    Seq::new(list.len(), |k: int| model_of(list[k]))
}

/// The number of nodes of an instruction: itself and all that it contains.
pub open spec fn size<A: Amplitude>(ins: Instr<A>) -> nat
    decreases ins,
{
    match ins {
        Instr::Circuit(c, _) => 1 + size_all(c),
        Instr::Dependent(b, _) => 1 + size(*b),
        _ => 1,
    }
}

/// The number of nodes of a list of instructions.
pub open spec fn size_all<A: Amplitude>(list: Seq<Instr<A>>) -> nat
    decreases list,
{
    if list.len() == 0 {
        0
    } else {
        size(list[0]) + size_all(list.skip(1))
    }
}

/// The nodes of two lists add up.
pub proof fn lemma_size_all_concat<A: Amplitude>(a: Seq<Instr<A>>, b: Seq<Instr<A>>)
    ensures
        size_all(a + b) == size_all(a) + size_all(b),
    decreases a.len(),
{
    if a.len() == 0 {
        assert(a + b =~= b);
    } else {
        assert((a + b).skip(1) =~= a.skip(1) + b);
        assert((a + b)[0] == a[0]);
        lemma_size_all_concat(a.skip(1), b);
    }
}

/// An element of a list has no more nodes than the list.
pub proof fn lemma_size_all_bounds<A: Amplitude>(list: Seq<Instr<A>>, k: int)
    requires
        0 <= k < list.len(),
    ensures
        size(list[k]) <= size_all(list),
        size(list[k]) >= 1,
    decreases list.len(),
{
    if k > 0 {
        lemma_size_all_bounds(list.skip(1), k - 1);
    }
}

/// Pushing onto a list pushes the model onto the models.
pub proof fn lemma_models_push<A: Amplitude>(list: Seq<Instruction<A>>, ins: Instruction<A>)
    ensures
        models(list.push(ins)) == models(list).push(model_of(ins)),
{
    assert(models(list.push(ins)) =~= models(list).push(model_of(ins)));
}

/// The model of a circuit holds the models of its children.
pub proof fn lemma_model_of_circuit<A: Amplitude>(children: Vec<Instruction<A>>, offset: usize)
    ensures
        model_of(Instruction::Circuit(children, offset)) == Instr::Circuit(
            models(children@),
            offset as nat,
        ),
{
    match model_of(Instruction::Circuit(children, offset)) {
        Instr::Circuit(c, o) => {
            assert(c =~= models(children@));
        },
        _ => {},
    }
}

/// A copy of an instruction, with the same model.
pub fn duplicate<A: Amplitude>(ins: &Instruction<A>) -> (r: Instruction<A>)
    ensures
        r@ == ins@,
    decreases size(ins@),
{
    match ins {
        Instruction::Measure(i, d) => Instruction::Measure(*i, *d),
        Instruction::MeasureAtAngle(angle, i, d) => Instruction::MeasureAtAngle(*angle, *i, *d),
        Instruction::MeasureAtSpinVector(v, i, d) => Instruction::MeasureAtSpinVector(
            copy_vector(v),
            *i,
            *d,
        ),
        Instruction::Circuit(children, offset) => {
            proof {
                lemma_model_of_circuit(*children, *offset);
            }
            let mut copies: Vec<Instruction<A>> = Vec::new();
            let mut k: usize = 0;
            while k < children.len()
                invariant
                    k <= children.len(),
                    copies.len() == k,
                    ins@ == Instr::Circuit(models(children@), *offset as nat),
                    forall|j: int| 0 <= j < k ==> model_of(#[trigger] copies[j]) == model_of(
                        children[j],
                    ),
                decreases children.len() - k,
            {
                proof {
                    lemma_size_all_bounds(models(children@), k as int);
                }
                copies.push(duplicate(&children[k]));
                k += 1;
            }
            proof {
                assert(models(copies@) =~= models(children@));
                lemma_model_of_circuit(copies, *offset);
            }
            Instruction::Circuit(copies, *offset)
        },
        Instruction::Gate(matrix, i) => {
            let mut rows: Vec<Vec<A>> = Vec::new();
            let mut k: usize = 0;
            while k < matrix.len()
                invariant
                    k <= matrix.len(),
                    rows.len() == k,
                    forall|j: int| 0 <= j < k ==> (#[trigger] rows[j])@ == matrix[j]@,
                decreases matrix.len() - k,
            {
                rows.push(copy_vector(&matrix[k]));
                k += 1;
            }
            assert(matrix_view(rows) =~= matrix_view(*matrix));
            Instruction::Gate(rows, *i)
        },
        Instruction::Dependent(inner, m) => Instruction::Dependent(
            Box::new(duplicate(&**inner)),
            *m,
        ),
    }
}

impl<A: Amplitude> Clone for Instruction<A> {
    fn clone(&self) -> (r: Self)
        ensures
            r@ == self@,
    {
        duplicate(self)
    }
}

} // verus!
