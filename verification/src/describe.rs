//! Display text for instructions.

use vstd::prelude::*;
use crate::instruction::{
    lemma_model_of_circuit, lemma_size_all_bounds, models, size, Instr, Instruction,
};
use crate::numeric::{real_degrees_text, Amplitude, Real};
use crate::text::{
    decimal, decimal_text, join, joined, print_matrix_without_breaklines, print_tensor, push_str,
    renders, renders_matrix, texts,
};

verus! {

/// A display text together with the display texts that it was put together
/// from.
pub struct Written {
    /// The text.
    pub text: Seq<char>,
    /// What was written for each instruction inside, in order.
    pub parts: Seq<Written>,
}

/// The texts of a list of written things.
pub open spec fn written_texts(parts: Seq<Written>) -> Seq<Seq<char>> {
    Seq::new(parts.len(), |k: int| parts[k].text)
}

/// `text` is the display text of a measurement at an angle: the qubit and
/// the angle in degrees.
pub open spec fn is_angle_text<R: Real>(angle: R, qubit: nat, text: Seq<char>) -> bool {
    exists|degrees: Seq<char>| #[trigger]
        real_degrees_text(angle, degrees) && text == "{Measure "@ + decimal(qubit) + " @ "@
            + degrees + "}"@
}

/// `text` is the display text of a measurement in the basis of a spinor:
/// the qubit and the spinor.
pub open spec fn is_spinor_text<A: Amplitude>(v: Seq<A>, qubit: nat, text: Seq<char>) -> bool {
    exists|spinor: Seq<char>| #[trigger]
        renders(v, spinor) && text == "{Measure "@ + decimal(qubit) + " @ "@ + spinor + "}"@
}

/// `text` is the display text of a gate: its matrix on one line and the
/// qubit.
pub open spec fn is_gate_text<A: Amplitude>(
    matrix: Seq<Seq<A>>,
    qubit: nat,
    text: Seq<char>,
) -> bool {
    exists|rows: Seq<char>| #[trigger]
        renders_matrix(matrix, "["@, ", "@, "]"@, rows) && text == "{Gate: "@ + rows + " @ "@
            + decimal(qubit) + "}"@
}

/// `w` is what is written for the instruction.
///
/// A measurement in the computational basis names its qubit. A sub-circuit
/// holds what is written for its children between square brackets, separated
/// by a comma and a blank, and its offset. A conditional holds what is written
/// for its instruction and the measurement that it depends on.
pub open spec fn writes<A: Amplitude>(ins: Instr<A>, w: Written) -> bool
    decreases ins,
{
    match ins {
        Instr::Measure(qubit, _) => w.text == "{Measure "@ + decimal(qubit) + " @ |1⟩}"@,
        Instr::MeasureAtAngle(angle, qubit, _) => is_angle_text(angle, qubit, w.text),
        Instr::MeasureAtSpinVector(v, qubit, _) => is_spinor_text(v, qubit, w.text),
        Instr::Circuit(children, offset) => {
            &&& w.parts.len() == children.len()
            &&& forall|k: int|
                0 <= k < children.len() ==> writes(children[k], #[trigger] w.parts[k])
            &&& w.text == "{circuit: ["@ + joined(written_texts(w.parts), ", "@) + "] @ "@
                + decimal(offset) + "}"@
        },
        Instr::Gate(matrix, qubit) => is_gate_text(matrix, qubit, w.text),
        Instr::Dependent(inner, reference) => {
            &&& w.parts.len() == 1
            &&& writes(*inner, w.parts[0])
            &&& w.text == "{"@ + w.parts[0].text + " depending on measurement #"@ + decimal(
                reference,
            ) + "}"@
        },
    }
}

/// `text` is a display text of the instruction.
pub open spec fn describes<A: Amplitude>(ins: Instr<A>, text: Seq<char>) -> bool {
    exists|w: Written| #[trigger] writes(ins, w) && w.text == text
}

/// Writes an instruction, and keeps what was written for each instruction
/// inside.
fn write<A: Amplitude>(ins: &Instruction<A>) -> (r: (String, Ghost<Written>))
    ensures
        writes(ins@, r.1@),
        r.1@.text == r.0@,
    decreases size(ins@),
{
    match ins {
        Instruction::Measure(qubit, _) => {
            let mut text = "{Measure ".to_owned();
            push_str(&mut text, decimal_text(*qubit).as_str());
            push_str(&mut text, " @ |1⟩}");
            let ghost w = Written { text: text@, parts: Seq::empty() };
            (text, Ghost(w))
        },
        Instruction::MeasureAtAngle(angle, qubit, _) => {
            let mut text = "{Measure ".to_owned();
            push_str(&mut text, decimal_text(*qubit).as_str());
            push_str(&mut text, " @ ");
            let degrees = angle.degrees_text();
            push_str(&mut text, degrees.as_str());
            push_str(&mut text, "}");
            proof {
                assert(real_degrees_text(*angle, degrees@));
            }
            let ghost w = Written { text: text@, parts: Seq::empty() };
            (text, Ghost(w))
        },
        Instruction::MeasureAtSpinVector(v, qubit, _) => {
            let mut text = "{Measure ".to_owned();
            push_str(&mut text, decimal_text(*qubit).as_str());
            push_str(&mut text, " @ ");
            let spinor = print_tensor(v);
            push_str(&mut text, spinor.as_str());
            push_str(&mut text, "}");
            let ghost w = Written { text: text@, parts: Seq::empty() };
            (text, Ghost(w))
        },
        Instruction::Circuit(children, offset) => {
            proof {
                lemma_model_of_circuit(*children, *offset);
            }
            let mut items: Vec<String> = Vec::new();
            let ghost mut parts: Seq<Written> = Seq::empty();
            let mut k: usize = 0;
            while k < children.len()
                invariant
                    k <= children.len(),
                    items.len() == k,
                    parts.len() == k,
                    ins@ == Instr::Circuit(models(children@), *offset as nat),
                    forall|j: int| 0 <= j < k ==> writes(children[j]@, #[trigger] parts[j]),
                    forall|j: int| 0 <= j < k ==> (#[trigger] parts[j]).text == items[j]@,
                decreases children.len() - k,
            {
                proof {
                    lemma_size_all_bounds(models(children@), k as int);
                }
                let child = write(&children[k]);
                proof {
                    parts = parts.push(child.1@);
                }
                items.push(child.0);
                k += 1;
            }
            let mut text = "{circuit: [".to_owned();
            let body = join(&items, ", ");
            push_str(&mut text, body.as_str());
            push_str(&mut text, "] @ ");
            push_str(&mut text, decimal_text(*offset).as_str());
            push_str(&mut text, "}");
            let ghost w = Written { text: text@, parts };
            proof {
                assert(written_texts(parts) =~= texts(items@));
                assert forall|j: int| 0 <= j < models(children@).len() implies writes(
                    models(children@)[j],
                    #[trigger] w.parts[j],
                ) by {
                    assert(writes(children[j]@, parts[j]));
                }
            }
            (text, Ghost(w))
        },
        Instruction::Gate(matrix, qubit) => {
            let mut text = "{Gate: ".to_owned();
            let rows = print_matrix_without_breaklines(matrix);
            push_str(&mut text, rows.as_str());
            push_str(&mut text, " @ ");
            push_str(&mut text, decimal_text(*qubit).as_str());
            push_str(&mut text, "}");
            let ghost w = Written { text: text@, parts: Seq::empty() };
            (text, Ghost(w))
        },
        Instruction::Dependent(inner, reference) => {
            let part = write(&**inner);
            let mut text = "{".to_owned();
            push_str(&mut text, part.0.as_str());
            push_str(&mut text, " depending on measurement #");
            push_str(&mut text, decimal_text(*reference).as_str());
            push_str(&mut text, "}");
            let ghost w = Written { text: text@, parts: seq![part.1@] };
            (text, Ghost(w))
        },
    }
}

impl<A: Amplitude> Instruction<A> {
    /// A display text of the instruction.
    pub fn text(&self) -> (text: String)
        ensures
            describes(self@, text@),
    {
        let written = write(self);
        written.0
    }
}

} // verus!
