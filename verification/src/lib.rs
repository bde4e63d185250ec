//! A state-vector simulator for small quantum circuits.
//!
//! A circuit is a list of [`Instruction`]s on qubits that each start in a
//! vector of their own. An [`Experiment`] lowers the circuit once to a flat
//! program, and then runs it as often as wanted: gates are applied to the
//! state vector, measurements sample an outcome and collapse the state, and
//! conditionals look at the outcomes so far.
//!
//! The numbers are not the library's own. Amplitudes and real numbers come
//! with the types that implement [`Amplitude`] and [`Real`], and every contract
//! says which of their operations produced which value.

pub mod aggregate;
pub mod describe;
pub mod engine;
pub mod error;
pub mod experiment;
pub mod factor;
pub mod gate;
pub mod instruction;
pub mod lowering;
pub mod measure;
pub mod numeric;
pub mod tensor;
pub mod text;

pub use crate::aggregate::pretty;
pub use crate::engine::step;
pub use crate::error::SimulationError;
pub use crate::experiment::Experiment;
pub use crate::factor::{can_be_factored, extract, find_nonzero, power_of_two, tensor_factor};
pub use crate::gate::{apply_gate, identity_matrix, qubit_span};
pub use crate::instruction::{Instruction, Measurement};
pub use crate::lowering::{can_lower, can_lower_all, simplify_instructions};
pub use crate::measure::{
    choose_probability, choose_with_draw, collapse, measure, probabilities, can_read_qubit,
};
pub use crate::numeric::{Amplitude, Real};
pub use crate::tensor::{
    complement, copy_matrix, copy_vector, is_from_one, length, norm, pass_gate,
    tensor_product_matrix, tensor_product_matrix_single, tensor_product_vector,
    tensor_product_vector_single,
};
pub use crate::text::{
    correct, decimal_text, key_text, print_matrix, print_matrix_without_breaklines, print_tensor,
};
