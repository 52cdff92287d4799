//! Simulation of quantum circuits: a circuit is a graph of qubit handles, which is
//! resolved into a causally ordered list of operations and folded over a dense
//! state vector of complex amplitudes.

pub mod bits;
pub mod precision;
pub mod initial;
pub mod scatter;
pub mod validity;
pub mod state;
pub mod qubits;
pub mod reach;
pub mod resolve;
pub mod pipeline;
pub mod matrix;
