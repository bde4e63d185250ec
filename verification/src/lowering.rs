//! Lowering: from a circuit with nested sub-circuits and measurements in
//! arbitrary bases to a flat program of gates, plain measurements and
//! conditionals.

use vstd::prelude::*;
use crate::instruction::{
    lemma_model_of_circuit, lemma_models_push, lemma_size_all_bounds, matrix_view, model_of,
    models, size, size_all, Instr, Instruction,
};
use crate::numeric::{amp_conjugate, amp_negation, amp_spinor, Amplitude};

verus! {

/// By how much an instruction advances the measurement counter of the list it
/// stands in. A sub-circuit and a conditional do not advance it.
pub open spec fn measured<A: Amplitude>(ins: Instr<A>) -> nat {
    match ins {
        Instr::Measure(_, _) => 1,
        Instr::MeasureAtAngle(_, _, _) => 1,
        Instr::MeasureAtSpinVector(_, _, _) => 1,
        _ => 0,
    }
}

/// The number of instructions that an instruction lowers to.
pub open spec fn lowered_len<A: Amplitude>(ins: Instr<A>) -> nat
    decreases ins,
{
    match ins {
        Instr::Measure(_, _) => 1,
        Instr::MeasureAtAngle(_, _, _) => 3,
        Instr::MeasureAtSpinVector(_, _, _) => 3,
        Instr::Circuit(children, _) => lowered_len_all(children),
        Instr::Gate(_, _) => 1,
        Instr::Dependent(_, _) => 1,
    }
}

/// The number of instructions that a list lowers to.
pub open spec fn lowered_len_all<A: Amplitude>(list: Seq<Instr<A>>) -> nat
    decreases list,
{
    if list.len() == 0 {
        0
    } else {
        lowered_len(list[0]) + lowered_len_all(list.skip(1))
    }
}

/// `m` has two rows of two entries.
pub open spec fn two_by_two<A>(m: Seq<Seq<A>>) -> bool {
    m.len() == 2 && m[0].len() == 2 && m[1].len() == 2
}

/// `out` is rotate, measure, rotate back: the three instructions that stand
/// for a measurement of `qubit` in the basis of the spinor `(a, b)`.
///
/// The first gate is `[[b, -a], [conj(a), conj(b)]]`: it turns the basis of the
/// spinor into the computational basis. The last gate is its inverse,
/// `[[conj(b), a], [-conj(a), b]]`, built from the same conjugates.
pub open spec fn is_sandwich<A: Amplitude>(
    a: A,
    b: A,
    qubit: nat,
    display: bool,
    out: Seq<Instr<A>>,
) -> bool {
    &&& out.len() == 3
    &&& out[1] == Instr::<A>::Measure(qubit, display)
    &&& out[0] matches Instr::Gate(rotate, at)
    &&& at == qubit
    &&& out[2] matches Instr::Gate(restore, back)
    &&& back == qubit
    &&& two_by_two(rotate)
    &&& two_by_two(restore)
    &&& rotate[0][0] == b
    &&& amp_negation(a, rotate[0][1])
    &&& amp_conjugate(a, rotate[1][0])
    &&& amp_conjugate(b, rotate[1][1])
    &&& restore[0][0] == rotate[1][1]
    &&& restore[0][1] == a
    &&& amp_negation(rotate[1][0], restore[1][0])
    &&& restore[1][1] == b
}

/// `out` is the sandwich for the spinor that belongs to `angle`: the spinor
/// can be read off the gates, as the upper right entry of the last and the
/// upper left entry of the first.
pub open spec fn is_angle_sandwich<A: Amplitude>(
    angle: A::Real,
    qubit: nat,
    display: bool,
    out: Seq<Instr<A>>,
) -> bool {
    &&& out.len() == 3
    &&& out[0] matches Instr::Gate(rotate, _)
    &&& out[2] matches Instr::Gate(restore, _)
    &&& two_by_two(rotate)
    &&& two_by_two(restore)
    &&& amp_spinor(angle, (restore[0][1], rotate[0][0]))
    &&& is_sandwich(restore[0][1], rotate[0][0], qubit, display, out)
}

/// `out` is what one instruction lowers to.
///
/// `base` is the number of measurements that precede the list in which the
/// instruction stands, `counted` the number that the list itself has counted
/// before the instruction, and `shift` the qubit offset of the list.
///
/// A measurement and a gate keep their form, with `shift` added to the qubit
/// index. A measurement at an angle or in the basis of a spinor becomes a
/// sandwich. A sub-circuit is replaced by what its children lower to, with its
/// offset added to `shift` and the measurements counted so far added to
/// `base`. A conditional stays one instruction: its own instruction, lowered
/// as a list of one, wrapped in a circuit that remembers `shift`, and its
/// reference counted from `base`.
pub open spec fn lowers<A: Amplitude>(
    ins: Instr<A>,
    base: nat,
    counted: nat,
    shift: nat,
    out: Seq<Instr<A>>,
) -> bool
    decreases ins,
{
    match ins {
        Instr::Measure(i, d) => out == seq![Instr::<A>::Measure(i + shift, d)],
        Instr::MeasureAtAngle(angle, i, d) => is_angle_sandwich(angle, i + shift, d, out),
        Instr::MeasureAtSpinVector(v, i, d) => v.len() >= 2 && is_sandwich(
            v[0],
            v[1],
            i + shift,
            d,
            out,
        ),
        Instr::Circuit(children, offset) => lowers_all(
            children,
            base + counted,
            0,
            shift + offset,
            out,
        ),
        Instr::Gate(g, i) => out == seq![Instr::Gate(g, i + shift)],
        Instr::Dependent(inner, m) => {
            &&& out.len() == 1
            &&& out[0] matches Instr::Dependent(wrapped, reference)
            &&& reference == base + m
            &&& *wrapped matches Instr::Circuit(body, offset)
            &&& offset == shift
            &&& lowers(*inner, base + counted, 0, shift, body)
        },
    }
}

/// `out` is what a list of instructions lowers to when the list has counted
/// `counted` measurements before its first element: what the first element
/// lowers to, followed by what the rest lowers to.
pub open spec fn lowers_all<A: Amplitude>(
    list: Seq<Instr<A>>,
    base: nat,
    counted: nat,
    shift: nat,
    out: Seq<Instr<A>>,
) -> bool
    decreases list,
{
    if list.len() == 0 {
        out.len() == 0
    } else {
        let k = lowered_len(list[0]) as int;
        &&& k <= out.len()
        &&& lowers(list[0], base, counted, shift, out.take(k))
        &&& lowers_all(list.skip(1), base, counted + measured(list[0]), shift, out.skip(k))
    }
}

/// What an instruction lowers to is as long as [`lowered_len`] says.
pub proof fn lemma_lowers_len<A: Amplitude>(
    ins: Instr<A>,
    base: nat,
    counted: nat,
    shift: nat,
    out: Seq<Instr<A>>,
)
    requires
        lowers(ins, base, counted, shift, out),
    ensures
        out.len() == lowered_len(ins),
    decreases ins,
{
    match ins {
        Instr::Circuit(children, offset) => {
            lemma_lowers_all_len(children, base + counted, 0, shift + offset, out);
        },
        _ => {},
    }
}

/// What a list lowers to is as long as [`lowered_len_all`] says.
pub proof fn lemma_lowers_all_len<A: Amplitude>(
    list: Seq<Instr<A>>,
    base: nat,
    counted: nat,
    shift: nat,
    out: Seq<Instr<A>>,
)
    requires
        lowers_all(list, base, counted, shift, out),
    ensures
        out.len() == lowered_len_all(list),
    decreases list,
{
    if list.len() > 0 {
        let k = lowered_len(list[0]) as int;
        lemma_lowers_len(list[0], base, counted, shift, out.take(k));
        lemma_lowers_all_len(
            list.skip(1),
            base,
            counted + measured(list[0]),
            shift,
            out.skip(k),
        );
    }
}

/// A lowering of the first element followed by a lowering of the rest is a
/// lowering of the list.
pub proof fn lemma_lowers_all_cons<A: Amplitude>(
    list: Seq<Instr<A>>,
    base: nat,
    counted: nat,
    shift: nat,
    head: Seq<Instr<A>>,
    tail: Seq<Instr<A>>,
)
    requires
        list.len() > 0,
        lowers(list[0], base, counted, shift, head),
        lowers_all(list.skip(1), base, counted + measured(list[0]), shift, tail),
    ensures
        lowers_all(list, base, counted, shift, head + tail),
{
    lemma_lowers_len(list[0], base, counted, shift, head);
    let k = lowered_len(list[0]) as int;
    assert((head + tail).take(k) =~= head);
    assert((head + tail).skip(k) =~= tail);
}

/// Every index that lowering computes for the instruction fits the machine,
/// and every spinor has its two amplitudes.
pub open spec fn lowerable<A: Amplitude>(ins: Instr<A>, base: nat, counted: nat, shift: nat) -> bool
    decreases ins,
{
    match ins {
        Instr::Measure(i, _) => i + shift <= usize::MAX,
        Instr::MeasureAtAngle(_, i, _) => i + shift <= usize::MAX,
        Instr::MeasureAtSpinVector(v, i, _) => v.len() >= 2 && i + shift <= usize::MAX,
        Instr::Circuit(children, offset) => {
            &&& base + counted <= usize::MAX
            &&& shift + offset <= usize::MAX
            &&& lowerable_all(children, base + counted, 0, shift + offset)
        },
        Instr::Gate(_, i) => i + shift <= usize::MAX,
        Instr::Dependent(inner, m) => {
            &&& base + counted <= usize::MAX
            &&& base + m <= usize::MAX
            &&& lowerable(*inner, base + counted, 0, shift)
        },
    }
}

/// [`lowerable`] for each instruction of a list, with the counter that the
/// list has reached there.
pub open spec fn lowerable_all<A: Amplitude>(
    list: Seq<Instr<A>>,
    base: nat,
    counted: nat,
    shift: nat,
) -> bool
    decreases list,
{
    list.len() > 0 ==> {
        &&& lowerable(list[0], base, counted, shift)
        &&& lowerable_all(list.skip(1), base, counted + measured(list[0]), shift)
    }
}

/// The instruction is one that lowering leaves behind: a gate, a measurement
/// in the computational basis, or a conditional on a circuit of such
/// instructions.
pub open spec fn is_flat<A: Amplitude>(ins: Instr<A>) -> bool
    decreases ins,
{
    match ins {
        Instr::Gate(_, _) => true,
        Instr::Measure(_, _) => true,
        Instr::Dependent(inner, _) => match *inner {
            Instr::Circuit(body, _) => all_flat(body),
            _ => false,
        },
        _ => false,
    }
}

/// Every instruction of the list is one that lowering leaves behind.
pub open spec fn all_flat<A: Amplitude>(list: Seq<Instr<A>>) -> bool
    decreases list,
{
    forall|k: int| 0 <= k < list.len() ==> is_flat(#[trigger] list[k])
}

/// What an instruction lowers to is flat: no sub-circuit is left in it but
/// as the body of a conditional, and no measurement other than in the
/// computational basis.
pub proof fn lemma_lowered_is_flat<A: Amplitude>(
    ins: Instr<A>,
    base: nat,
    counted: nat,
    shift: nat,
    out: Seq<Instr<A>>,
)
    requires
        lowers(ins, base, counted, shift, out),
    ensures
        all_flat(out),
    decreases ins,
{
    match ins {
        Instr::Circuit(children, offset) => {
            lemma_lowered_list_is_flat(children, base + counted, 0, shift + offset, out);
        },
        Instr::Dependent(inner, m) => {
            match out[0] {
                Instr::Dependent(wrapped, _) => {
                    match *wrapped {
                        Instr::Circuit(body, _) => {
                            lemma_lowered_is_flat(*inner, base + counted, 0, shift, body);
                        },
                        _ => {},
                    }
                },
                _ => {},
            }
        },
        _ => {},
    }
}

/// What a list lowers to is flat.
pub proof fn lemma_lowered_list_is_flat<A: Amplitude>(
    list: Seq<Instr<A>>,
    base: nat,
    counted: nat,
    shift: nat,
    out: Seq<Instr<A>>,
)
    requires
        lowers_all(list, base, counted, shift, out),
    ensures
        all_flat(out),
    decreases list,
{
    if list.len() > 0 {
        let k = lowered_len(list[0]) as int;
        lemma_lowered_is_flat(list[0], base, counted, shift, out.take(k));
        lemma_lowered_list_is_flat(
            list.skip(1),
            base,
            counted + measured(list[0]),
            shift,
            out.skip(k),
        );
        assert forall|j: int| 0 <= j < out.len() implies is_flat(#[trigger] out[j]) by {
            if j < k {
                assert(out[j] == out.take(k)[j]);
            } else {
                assert(out[j] == out.skip(k)[j - k]);
            }
        }
    }
}

/// The instruction is a gate or a measurement in the computational basis.
pub open spec fn is_plain<A: Amplitude>(ins: Instr<A>) -> bool {
    ins is Gate || ins is Measure
}

/// The list holds gates and measurements in the computational basis only.
pub open spec fn all_plain<A: Amplitude>(list: Seq<Instr<A>>) -> bool {
    forall|k: int| 0 <= k < list.len() ==> is_plain(#[trigger] list[k])
}

/// The qubit index of a gate or of a measurement.
pub open spec fn qubit_of<A: Amplitude>(ins: Instr<A>) -> nat {
    match ins {
        Instr::Measure(i, _) => i,
        Instr::MeasureAtAngle(_, i, _) => i,
        Instr::MeasureAtSpinVector(_, i, _) => i,
        Instr::Gate(_, i) => i,
        _ => 0,
    }
}

/// A gate or a measurement, moved down by `shift` qubits.
pub open spec fn shifted<A: Amplitude>(ins: Instr<A>, shift: nat) -> Instr<A> {
    match ins {
        Instr::Measure(i, d) => Instr::Measure(i + shift, d),
        Instr::Gate(g, i) => Instr::Gate(g, i + shift),
        _ => ins,
    }
}

/// Lowering a list that holds only gates and measurements in the
/// computational basis adds no instruction and takes none away: it gives the
/// same instructions in the same order, each moved down by the qubit offset.
pub proof fn lemma_lowering_shifts_plain_lists<A: Amplitude>(
    list: Seq<Instr<A>>,
    base: nat,
    counted: nat,
    shift: nat,
    out: Seq<Instr<A>>,
)
    requires
        all_plain(list),
        lowers_all(list, base, counted, shift, out),
    ensures
        out.len() == list.len(),
        forall|k: int| 0 <= k < list.len() ==> #[trigger] out[k] == shifted(list[k], shift),
    decreases list.len(),
{
    if list.len() > 0 {
        assert(is_plain(list[0]));
        let rest = list.skip(1);
        assert forall|k: int| 0 <= k < rest.len() implies is_plain(#[trigger] rest[k]) by {
            assert(rest[k] == list[k + 1]);
        }
        assert(lowered_len(list[0]) == 1);
        assert(lowers(list[0], base, counted, shift, out.take(1)));
        lemma_lowering_shifts_plain_lists(
            rest,
            base,
            counted + measured(list[0]),
            shift,
            out.skip(1),
        );
        assert(out.take(1)[0] == out[0]);
        match list[0] {
            Instr::Measure(i, d) => {
                assert(out.take(1) == seq![Instr::<A>::Measure(i + shift, d)]);
            },
            Instr::Gate(g, i) => {
                assert(out.take(1) == seq![Instr::Gate(g, i + shift)]);
            },
            _ => {},
        }
        assert(out[0] == shifted(list[0], shift));
        assert forall|k: int| 0 <= k < list.len() implies #[trigger] out[k] == shifted(
            list[k],
            shift,
        ) by {
            if k > 0 {
                assert(out[k] == out.skip(1)[k - 1]);
                assert(list[k] == rest[k - 1]);
            }
        }
    }
}

/// Lowering is the identity on a program that is already flat: a list of
/// gates and measurements in the computational basis, lowered at qubit offset
/// zero, comes back unchanged, whatever the measurement counters are.
pub proof fn lemma_lowering_keeps_plain_programs<A: Amplitude>(
    list: Seq<Instr<A>>,
    base: nat,
    counted: nat,
    out: Seq<Instr<A>>,
)
    requires
        all_plain(list),
        lowers_all(list, base, counted, 0, out),
    ensures
        out == list,
{
    lemma_lowering_shifts_plain_lists(list, base, counted, 0, out);
    assert(out =~= list);
}

/// A list of gates and measurements in the computational basis whose qubit
/// indices stay in range when `shift` is added can be lowered.
pub proof fn lemma_plain_lists_are_lowerable<A: Amplitude>(
    list: Seq<Instr<A>>,
    base: nat,
    counted: nat,
    shift: nat,
)
    requires
        all_plain(list),
        forall|k: int| 0 <= k < list.len() ==> qubit_of(#[trigger] list[k]) + shift <= usize::MAX,
    ensures
        lowerable_all(list, base, counted, shift),
    decreases list.len(),
{
    if list.len() > 0 {
        assert(is_plain(list[0]));
        assert(qubit_of(list[0]) + shift <= usize::MAX);
        let rest = list.skip(1);
        assert forall|k: int| 0 <= k < rest.len() implies is_plain(#[trigger] rest[k])
            && qubit_of(rest[k]) + shift <= usize::MAX by {
            assert(rest[k] == list[k + 1]);
        }
        lemma_plain_lists_are_lowerable(rest, base, counted + measured(list[0]), shift);
        match list[0] {
            Instr::Measure(i, d) => {
                assert(lowerable(list[0], base, counted, shift));
            },
            Instr::Gate(g, i) => {
                assert(lowerable(list[0], base, counted, shift));
            },
            _ => {},
        }
    }
}

/// The list in reverse order, so that its elements can be taken from the end.
pub fn reversed<T>(list: Vec<T>) -> (r: Vec<T>)
    ensures
        r.len() == list.len(),
        forall|k: int| 0 <= k < list.len() ==> r[k] == list[list.len() - 1 - k],
{
    let ghost whole = list@;
    let mut source = list;
    let mut r: Vec<T> = Vec::new();
    while source.len() > 0
        invariant
            source@ == whole.take(source.len() as int),
            source.len() <= whole.len(),
            r.len() + source.len() == whole.len(),
            forall|k: int| 0 <= k < r.len() ==> r[k] == whole[whole.len() - 1 - k],
        decreases source.len(),
    {
        let top = source.pop();
        match top {
            Some(x) => {
                r.push(x);
            },
            None => {},
        }
    }
    r
}

/// A row of two amplitudes.
fn row_of_two<A: Amplitude>(x: A, y: A) -> (r: Vec<A>)
    ensures
        r@ == seq![x, y],
{
    let mut r: Vec<A> = Vec::new();
    r.push(x);
    r.push(y);
    assert(r@ =~= seq![x, y]);
    r
}

/// A matrix of two rows.
fn matrix_of_two<A: Amplitude>(top: Vec<A>, bottom: Vec<A>) -> (r: Vec<Vec<A>>)
    ensures
        matrix_view(r) == seq![top@, bottom@],
{
    let mut r: Vec<Vec<A>> = Vec::new();
    r.push(top);
    r.push(bottom);
    assert(matrix_view(r) =~= seq![top@, bottom@]);
    r
}

/// `after` begins with `before`.
pub open spec fn extends<T>(before: Seq<T>, after: Seq<T>) -> bool {
    before.len() <= after.len() && after.take(before.len() as int) == before
}

/// What `after` holds behind `before`.
pub open spec fn added<T>(before: Seq<T>, after: Seq<T>) -> Seq<T> {
    after.skip(before.len() as int)
}

/// Appends to `out` the three instructions that measure `qubit` in the basis
/// of the spinor `(a, b)`.
fn push_sandwich<A: Amplitude>(
    a: A,
    b: A,
    qubit: usize,
    display: bool,
    out: &mut Vec<Instruction<A>>,
)
    ensures
        extends(models(old(out)@), models(final(out)@)),
        is_sandwich(a, b, qubit as nat, display, added(models(old(out)@), models(final(out)@))),
{
    let ghost before = models(out@);
    let ca = a.conjugate();
    let cb = b.conjugate();
    let na = a.negated();
    let nca = ca.negated();
    let rotate = matrix_of_two(row_of_two(b, na), row_of_two(ca, cb));
    let restore = matrix_of_two(row_of_two(cb, a), row_of_two(nca, b));
    let first = Instruction::Gate(rotate, qubit);
    let second = Instruction::Measure(qubit, display);
    let third = Instruction::Gate(restore, qubit);
    proof {
        lemma_models_push(out@, first);
        lemma_models_push(out@.push(first), second);
        lemma_models_push(out@.push(first).push(second), third);
    }
    out.push(first);
    out.push(second);
    out.push(third);
    proof {
        let after = models(out@);
        assert(after.take(before.len() as int) =~= before);
        let piece = added(before, after);
        assert(piece[0] == model_of(first));
        assert(piece[1] == model_of(second));
        assert(piece[2] == model_of(third));
    }
}

/// Appends to `out` what one instruction lowers to.
fn lower_into<A: Amplitude>(
    ins: Instruction<A>,
    base: usize,
    counted: usize,
    shift: usize,
    out: &mut Vec<Instruction<A>>,
)
    requires
        lowerable(ins@, base as nat, counted as nat, shift as nat),
    ensures
        extends(models(old(out)@), models(final(out)@)),
        lowers(
            ins@,
            base as nat,
            counted as nat,
            shift as nat,
            added(models(old(out)@), models(final(out)@)),
        ),
    decreases size(ins@), 0nat,
{
    let ghost before = models(out@);
    match ins {
        Instruction::Measure(i, d) => {
            let lowered = Instruction::Measure(i + shift, d);
            proof {
                lemma_models_push(out@, lowered);
            }
            out.push(lowered);
            proof {
                assert(models(out@).take(before.len() as int) =~= before);
                assert(added(before, models(out@)) =~= seq![
                    Instr::<A>::Measure((i + shift) as nat, d),
                ]);
            }
        },
        Instruction::MeasureAtAngle(angle, i, d) => {
            let s = A::spinor(&angle);
            push_sandwich(s.0, s.1, i + shift, d, out);
            proof {
                assert(amp_spinor(angle, s));
            }
        },
        Instruction::MeasureAtSpinVector(v, i, d) => {
            push_sandwich(v[0], v[1], i + shift, d, out);
        },
        Instruction::Circuit(children, offset) => {
            proof {
                lemma_model_of_circuit(children, offset);
            }
            lower_list_into(children, base + counted, shift + offset, out);
        },
        Instruction::Gate(g, i) => {
            let ghost rows = matrix_view(g);
            let lowered = Instruction::Gate(g, i + shift);
            proof {
                lemma_models_push(out@, lowered);
            }
            out.push(lowered);
            proof {
                assert(models(out@).take(before.len() as int) =~= before);
                assert(added(before, models(out@)) =~= seq![
                    Instr::<A>::Gate(rows, (i + shift) as nat),
                ]);
            }
        },
        Instruction::Dependent(inner, m) => {
            let mut body: Vec<Instruction<A>> = Vec::new();
            let ghost inner_model = model_of(*inner);
            assert(models(body@) =~= Seq::<Instr<A>>::empty());
            lower_into(*inner, base + counted, 0, shift, &mut body);
            proof {
                assert(added(Seq::<Instr<A>>::empty(), models(body@)) =~= models(body@));
                lemma_model_of_circuit(body, shift);
            }
            let lowered = Instruction::Dependent(
                Box::new(Instruction::Circuit(body, shift)),
                base + m,
            );
            proof {
                lemma_models_push(out@, lowered);
            }
            out.push(lowered);
            proof {
                assert(models(out@).take(before.len() as int) =~= before);
                let piece = added(before, models(out@));
                assert(piece.len() == 1);
                assert(piece[0] == model_of(lowered));
            }
        },
    }
}

/// Whether the instruction can be lowered: whether every index that lowering
/// computes for it fits the machine, and every spinor has its two amplitudes.
pub fn can_lower<A: Amplitude>(
    ins: &Instruction<A>,
    base: usize,
    counted: usize,
    shift: usize,
) -> (r: bool)
    ensures
        r == lowerable(ins@, base as nat, counted as nat, shift as nat),
    decreases size(ins@), 0nat,
{
    match ins {
        Instruction::Measure(i, _) => *i <= usize::MAX - shift,
        Instruction::MeasureAtAngle(_, i, _) => *i <= usize::MAX - shift,
        Instruction::MeasureAtSpinVector(v, i, _) => v.len() >= 2 && *i <= usize::MAX - shift,
        Instruction::Circuit(children, offset) => {
            proof {
                lemma_model_of_circuit(*children, *offset);
            }
            if base > usize::MAX - counted || shift > usize::MAX - *offset {
                false
            } else {
                can_lower_all(children, base + counted, shift + *offset)
            }
        },
        Instruction::Gate(_, i) => *i <= usize::MAX - shift,
        Instruction::Dependent(inner, m) => {
            if base > usize::MAX - counted || base > usize::MAX - *m {
                false
            } else {
                can_lower(&**inner, base + counted, 0, shift)
            }
        },
    }
}

/// Whether the list can be lowered as a list that no measurement precedes in
/// its own scope: whether each of its instructions can be lowered with the
/// counter that the list has reached there.
pub fn can_lower_all<A: Amplitude>(list: &Vec<Instruction<A>>, base: usize, shift: usize) -> (r:
    bool)
    ensures
        r == lowerable_all(models(list@), base as nat, 0, shift as nat),
    decreases size_all(models(list@)), 1nat,
{
    let ghost whole = models(list@);
    let mut counted: usize = 0;
    let mut k: usize = 0;
    assert(whole.skip(0) =~= whole);
    while k < list.len()
        invariant
            k <= list.len(),
            counted <= k,
            whole == models(list@),
            lowerable_all(whole, base as nat, 0, shift as nat) == lowerable_all(
                whole.skip(k as int),
                base as nat,
                counted as nat,
                shift as nat,
            ),
        decreases list.len() - k,
    {
        let ghost rest = whole.skip(k as int);
        proof {
            assert(rest[0] == model_of(list@[k as int]));
            assert(rest.skip(1) =~= whole.skip(k + 1));
            lemma_size_all_bounds(whole, k as int);
        }
        if !can_lower(&list[k], base, counted, shift) {
            return false;
        }
        counted = counted + counts(&list[k]);
        k += 1;
    }
    true
}

/// By how much the instruction advances the measurement counter.
fn counts<A: Amplitude>(ins: &Instruction<A>) -> (r: usize)
    ensures
        r == measured(ins@),
{
    match ins {
        Instruction::Measure(_, _) => 1,
        Instruction::MeasureAtAngle(_, _, _) => 1,
        Instruction::MeasureAtSpinVector(_, _, _) => 1,
        _ => 0,
    }
}

/// Appends to `out` what a list of instructions lowers to.
fn lower_list_into<A: Amplitude>(
    list: Vec<Instruction<A>>,
    base: usize,
    shift: usize,
    out: &mut Vec<Instruction<A>>,
)
    requires
        lowerable_all(models(list@), base as nat, 0, shift as nat),
    ensures
        extends(models(old(out)@), models(final(out)@)),
        lowers_all(
            models(list@),
            base as nat,
            0,
            shift as nat,
            added(models(old(out)@), models(final(out)@)),
        ),
    decreases size_all(models(list@)), 1nat,
{
    let ghost whole = models(list@);
    let ghost before = models(out@);
    let n = list.len();
    let mut stack = reversed(list);
    let mut counted: usize = 0;
    assert(whole.skip(0) =~= whole);
    assert(models(out@).take(before.len() as int) =~= before);
    assert(added(before, models(out@)) + Seq::<Instr<A>>::empty() =~= added(
        before,
        models(out@),
    ));
    while stack.len() > 0
        invariant
            whole == models(list@),
            n == whole.len(),
            stack.len() <= n,
            forall|k: int|
                0 <= k < stack.len() ==> model_of(#[trigger] stack[k]) == whole[n - 1 - k],
            counted <= n - stack.len(),
            lowerable_all(whole.skip(n - stack.len()), base as nat, counted as nat, shift as nat),
            extends(before, models(out@)),
            forall|tail: Seq<Instr<A>>| #[trigger]
                lowers_all(
                    whole.skip(n - stack.len()),
                    base as nat,
                    counted as nat,
                    shift as nat,
                    tail,
                ) ==> lowers_all(
                    whole,
                    base as nat,
                    0,
                    shift as nat,
                    added(before, models(out@)) + tail,
                ),
        decreases stack.len(),
    {
        let ghost i = n - stack.len();
        let ghost rest = whole.skip(i);
        let ghost done = added(before, models(out@));
        let ghost middle = models(out@);
        let top = stack.pop();
        match top {
            Some(e) => {
                let ghost head = model_of(e);
                assert(head == whole[i]);
                assert(rest[0] == whole[i]);
                assert(rest.skip(1) =~= whole.skip(i + 1));
                let step = counts(&e);
                proof {
                    lemma_size_all_bounds(whole, i);
                }
                lower_into(e, base, counted, shift, out);
                proof {
                    let piece = added(middle, models(out@));
                    assert(models(out@).take(before.len() as int) =~= middle.take(
                        before.len() as int,
                    ));
                    assert(added(before, models(out@)) =~= done + piece);
                    assert forall|tail: Seq<Instr<A>>| #[trigger]
                        lowers_all(
                            whole.skip(i + 1),
                            base as nat,
                            (counted + step) as nat,
                            shift as nat,
                            tail,
                        ) implies lowers_all(
                        whole,
                        base as nat,
                        0,
                        shift as nat,
                        done + piece + tail,
                    ) by {
                        lemma_lowers_all_cons(
                            rest,
                            base as nat,
                            counted as nat,
                            shift as nat,
                            piece,
                            tail,
                        );
                        assert(done + (piece + tail) =~= done + piece + tail);
                    }
                }
                counted = counted + step;
            },
            None => {},
        }
    }
    proof {
        let done = added(before, models(out@));
        assert(whole.skip(n as int) =~= Seq::<Instr<A>>::empty());
        assert(lowers_all(
            whole.skip(n as int),
            base as nat,
            counted as nat,
            shift as nat,
            Seq::<Instr<A>>::empty(),
        ));
        assert(done + Seq::<Instr<A>>::empty() =~= done);
    }
}

/// Lowers a list of instructions in place.
///
/// `measurements` is the number of measurements that precede the list, and
/// `vertical_shift` the qubit offset that is added to every index in it.
/// Sub-circuits are inlined; a measurement at an angle or in the basis of a
/// spinor becomes a rotation, a plain measurement and the inverse rotation; a
/// conditional keeps its place, with its instruction lowered in turn and its
/// reference counted from the start of the whole program.
pub fn simplify_instructions<A: Amplitude>(
    instructions: &mut Vec<Instruction<A>>,
    measurements: usize,
    vertical_shift: usize,
)
    requires
        lowerable_all(models(old(instructions)@), measurements as nat, 0, vertical_shift as nat),
    ensures
        lowers_all(
            models(old(instructions)@),
            measurements as nat,
            0,
            vertical_shift as nat,
            models(final(instructions)@),
        ),
        all_flat(models(final(instructions)@)),
{
    let mut taken: Vec<Instruction<A>> = Vec::new();
    core::mem::swap(instructions, &mut taken);
    assert(models(instructions@) =~= Seq::<Instr<A>>::empty());
    lower_list_into(taken, measurements, vertical_shift, instructions);
    assert(added(Seq::<Instr<A>>::empty(), models(instructions@)) =~= models(instructions@));
    proof {
        lemma_lowered_list_is_flat(
            models(taken@),
            measurements as nat,
            0,
            vertical_shift as nat,
            models(instructions@),
        );
    }
}

} // verus!
