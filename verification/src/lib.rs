//! Building and running state-vector simulations of quantum circuits.
//!
//! A [`QuantumSimulator`] owns a state vector of `2^n` amplitudes and a
//! [`Circuit`]; circuits are ordered lists of [`Gate`]s bound to qubits.
//! Amplitudes are `num_complex::Complex64` values, which the library moves
//! and combines but never inspects.

pub mod amplitude;
pub mod bits;
pub mod blocks;
pub mod circuit;
pub mod classical;
pub mod gate;
pub mod qft;
pub mod simulator;

pub use circuit::{Circuit, MappedGate, QubitError};
pub use gate::Gate;
pub use simulator::{QuantumSimulator, QuantumState};
