//! The conditions that end a simulation.

use vstd::prelude::*;

verus! {

/// Why an operation of the simulator gave up. None of these is retried.
#[derive(Clone, Copy, Debug, PartialEq, Eq, Structural)]
pub enum SimulationError {
    /// An instruction does not fit the state it is applied to: a gate whose
    /// dimension differs from the length of the state vector or that reaches
    /// beyond the register, a qubit index too large for the state to be
    /// read, or a register without a qubit.
    DimensionMismatch,
    /// The cumulative probability never exceeded the random draw, so no basis
    /// state could be sampled.
    ExhaustedDistribution,
    /// A conditional refers to a measurement that has not been recorded in
    /// the current run.
    OutOfRangeReference,
    /// The factors found for a vector do not multiply back to that vector.
    FactorizationInconsistency,
}

} // verus!
