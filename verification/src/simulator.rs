//! The simulator: a state vector, the circuit that acts on it, and
//! measurement with collapse.
//!
//! `run` applies whatever circuit has been built to whatever state is
//! present: gates may be added before or after `init_state`.

use crate::amplitude::{amp_basis, basis_amplitude, basis_state};
use crate::bits::lemma_shift_is_power;
use crate::circuit::{
    binds, block_len, first_fault, lemma_bound_circuit_fits, Circuit, QubitError,
};
use crate::gate::Gate;
use num_complex::Complex64;
use vstd::prelude::*;

verus! {

/// The state vector of a quantum system.
pub struct QuantumState(pub Vec<Complex64>);

impl View for QuantumState {
    type V = Seq<Complex64>;

    open spec fn view(&self) -> Seq<Complex64> {
        self.0@
    }
}

impl QuantumState {
    /// The amplitudes, by basis-state index.
    pub fn as_ref(&self) -> (r: &[Complex64])
        ensures
            r@ == self@,
    {
        self.0.as_slice()
    }
}

/// A state vector of `2^n` amplitudes and the circuit that acts on it.
pub struct QuantumSimulator {
    /// The circuit built so far.
    pub circuit: Circuit,
    /// The current state.
    pub state: QuantumState,
}

/// Where the walk over the flags from index `from` ends: at the first index
/// whose flag is not set, or past the last flag.
pub open spec fn walk_end(below: Seq<bool>, from: nat) -> nat
    decreases below.len() - from,
{
    if from < below.len() && below[from as int] {
        walk_end(below, from + 1)
    } else {
        from
    }
}

/// The index that a measurement yields: the last one that the walk reaches,
/// or the last index of all when the walk reaches none.
pub open spec fn walk_outcome(below: Seq<bool>) -> int {
    if walk_end(below, 0) == 0 {
        below.len() - 1
    } else {
        walk_end(below, 0) - 1
    }
}

impl QuantumSimulator {
    /// The circuit is well formed and bound to a qubit count `n` from 1 to
    /// 32, and the state holds `2^n` amplitudes.
    pub open spec fn well_formed(self) -> bool {
        &&& self.circuit.well_formed()
        &&& self.circuit.qubit_count matches Some(n) && 1 <= n <= 32 && self.state@.len()
            == block_len(n as nat)
    }

    /// A simulator for `n_qubits` qubits, with an empty circuit and an
    /// all-zero state vector of `2^n_qubits` amplitudes.
    pub fn new(n_qubits: u8) -> (r: QuantumSimulator)
        requires
            1 <= n_qubits <= 32,
            block_len(n_qubits as nat) <= usize::MAX,
        ensures
            r.well_formed(),
            r.circuit.qubit_count == Some(n_qubits),
            r.circuit.gates@.len() == 0,
            r.state@ == Seq::new(block_len(n_qubits as nat), |i: int| basis_amplitude(false)),
    {
        proof {
            lemma_shift_is_power(n_qubits as u64);
        }
        let state_size: usize = (1u64 << (n_qubits as u64)) as usize;
        let mut state_data: Vec<Complex64> = Vec::new();
        let mut i: usize = 0;
        while i < state_size
            invariant
                i <= state_size,
                state_data@.len() == i,
                forall|j: int| 0 <= j < i ==> state_data@[j] == basis_amplitude(false),
            decreases state_size - i,
        {
            state_data.push(amp_basis(false));
            i += 1;
        }
        assert(state_data@ =~= Seq::new(
            block_len(n_qubits as nat),
            |i: int| basis_amplitude(false),
        ));
        QuantumSimulator { circuit: Circuit::new(n_qubits), state: QuantumState(state_data) }
    }

    /// Binds `gate` to `qubit_indices` and appends it to the circuit. On an
    /// error the simulator is left as it was.
    pub fn add_gate(&mut self, gate: Gate, qubit_indices: &[u8]) -> (r: Result<(), QubitError>)
        requires
            old(self).well_formed(),
            qubit_indices@.len() <= 32,
            block_len(qubit_indices@.len()) <= usize::MAX,
            gate.fits(block_len(qubit_indices@.len())),
        ensures
            final(self).well_formed(),
            final(self).state == old(self).state,
            final(self).circuit.qubit_count == old(self).circuit.qubit_count,
            match first_fault(qubit_indices@, old(self).circuit.qubit_count, 0) {
                Some(e) => r == Err::<(), QubitError>(e) && final(self).circuit.gates@ == old(
                    self,
                ).circuit.gates@,
                None => {
                    &&& r is Ok
                    &&& final(self).circuit.gates@.len() == old(self).circuit.gates@.len() + 1
                    &&& final(self).circuit.gates@.subrange(
                        0,
                        old(self).circuit.gates@.len() as int,
                    ) == old(self).circuit.gates@
                    &&& binds(final(self).circuit.gates@.last(), gate, qubit_indices@)
                },
            },
    {
        self.circuit.add_gate(gate, qubit_indices)
    }

    /// Overwrites the state with the basis state `one_index`: afterwards the
    /// amplitude at `one_index` is `1 + 0i`, and it is the only one.
    pub fn init_state(&mut self, one_index: usize)
        requires
            one_index < old(self).state@.len(),
        ensures
            final(self).state@ == basis_state(old(self).state@.len(), one_index as int),
            forall|i: int|
                0 <= i < old(self).state@.len() ==> (#[trigger] final(self).state@[i]
                    == basis_amplitude(true) <==> i == one_index),
            final(self).circuit == old(self).circuit,
    {
        let n = self.state.0.len();
        let zero = amp_basis(false);
        let one = amp_basis(true);
        let mut i: usize = 0;
        while i < n
            invariant
                i <= n == self.state@.len(),
                self.circuit == old(self).circuit,
                zero == basis_amplitude(false),
                forall|j: int| 0 <= j < i ==> self.state@[j] == basis_amplitude(false),
            decreases n - i,
        {
            self.state.0.set(i, zero);
            i += 1;
        }
        self.state.0.set(one_index, one);
        assert(self.state@ =~= basis_state(n as nat, one_index as int));
    }

    /// Applies the circuit built so far to the current state.
    pub fn run(&mut self)
        requires
            old(self).well_formed(),
        ensures
            final(self).well_formed(),
            final(self).circuit == old(self).circuit,
            final(self).state@ == old(self).circuit.apply_spec(old(self).state@),
    {
        proof {
            lemma_bound_circuit_fits(self.circuit);
        }
        self.circuit.apply(&mut self.state.0);
    }

    /// Measures the state and collapses it to the basis state that came out.
    ///
    /// `below[i]` tells whether the probability summed over the indices
    /// before `i` does not exceed the probe that was drawn. The outcome is
    /// the last index that the walk over these flags reaches before the
    /// first unset one, or the last index of all when it reaches none.
    /// Afterwards the amplitude at the outcome is `1 + 0i` and all others
    /// are `0`.
    pub fn measure(&mut self, below: &[bool]) -> (outcome: usize)
        requires
            old(self).state@.len() > 0,
            below@.len() == old(self).state@.len(),
        ensures
            outcome == walk_outcome(below@),
            outcome < old(self).state@.len(),
            final(self).state@ == basis_state(old(self).state@.len(), outcome as int),
            forall|i: int|
                0 <= i < old(self).state@.len() ==> (#[trigger] final(self).state@[i]
                    == basis_amplitude(true) <==> i == outcome),
            final(self).circuit == old(self).circuit,
    {
        let n = below.len();
        let mut index: usize = 0;
        while index < n && below[index]
            invariant
                index <= n == below@.len(),
                walk_end(below@, 0) == walk_end(below@, index as nat),
            decreases n - index,
        {
            index += 1;
        }
        let outcome_index = if index == 0 {
            n - 1
        } else {
            index - 1
        };
        self.init_state(outcome_index);
        outcome_index
    }

    /// The current state vector.
    pub fn state(&self) -> (r: &QuantumState)
        ensures
            *r == self.state,
    {
        &self.state
    }
}

} // verus!
