//! The circuit of the Quantum Fourier Transform.
//!
//! The phase factors are handed in by the caller: `phases[d]` is the factor
//! of the rotation by the `2^d`-th part of a full turn.

use crate::circuit::{
    binds, block_len, first_fault, lemma_block_len_values, Circuit, MappedGate, QubitError,
};
use crate::gate::Gate;
use num_complex::Complex64;
use vstd::prelude::*;

verus! {

/// The gates that the transform applies for qubit `i`: a Hadamard on `i`,
/// then for each lower qubit `j`, in ascending order, the phase
/// `phases[i - j + 1]` on `j` under the control of `i`.
pub open spec fn qft_row(i: nat, phases: Seq<Complex64>) -> Seq<(Gate, Seq<u8>)> {
    seq![(Gate::Hadamard, seq![i as u8])] + Seq::new(
        i,
        |j: int|
            (
                Gate::Controlled(Box::new(Gate::Phase(phases[i - j + 1]))),
                seq![i as u8, j as u8],
            ),
    )
}

/// The rows of the qubits from `n - 1` down to `i`.
pub open spec fn qft_rows(n: nat, i: nat, phases: Seq<Complex64>) -> Seq<(Gate, Seq<u8>)>
    decreases n - i,
{
    if i >= n {
        Seq::empty()
    } else {
        qft_rows(n, i + 1, phases) + qft_row(i, phases)
    }
}

/// The swaps that reverse the order of `n` qubits.
pub open spec fn qft_swaps(n: nat) -> Seq<(Gate, Seq<u8>)> {
    Seq::new(n / 2, |i: int| (Gate::Swap, seq![i as u8, (n - 1 - i) as u8]))
}

/// The gates of the transform on `n` qubits, each with the qubits it is
/// bound to, in the order in which they act.
pub open spec fn qft_steps(n: nat, do_swaps: bool, phases: Seq<Complex64>) -> Seq<
    (Gate, Seq<u8>),
> {
    if do_swaps {
        qft_rows(n, 0, phases) + qft_swaps(n)
    } else {
        qft_rows(n, 0, phases)
    }
}

/// Whether the gates are the given steps, bound in order.
pub open spec fn realizes(gates: Seq<MappedGate>, steps: Seq<(Gate, Seq<u8>)>) -> bool {
    &&& gates.len() == steps.len()
    &&& forall|k: int| 0 <= k < steps.len() ==> binds(#[trigger] gates[k], steps[k].0, steps[k].1)
}

/// A single qubit below the bound binds without a fault.
proof fn lemma_no_fault_one(qubits: Seq<u8>, n: u8)
    requires
        qubits.len() == 1,
        qubits[0] < n,
    ensures
        first_fault(qubits, Some(n), 0) is None,
{
    reveal_with_fuel(first_fault, 3);
    assert(qubits.subrange(0, 0) =~= Seq::<u8>::empty());
}

/// Two different qubits below the bound bind without a fault.
proof fn lemma_no_fault_two(qubits: Seq<u8>, n: u8)
    requires
        qubits.len() == 2,
        qubits[0] < n,
        qubits[1] < n,
        qubits[0] != qubits[1],
    ensures
        first_fault(qubits, Some(n), 0) is None,
{
    reveal_with_fuel(first_fault, 4);
    assert(qubits.subrange(0, 0) =~= Seq::<u8>::empty());
    assert(qubits.subrange(0, 1) =~= seq![qubits[0]]);
}

/// Appending the bound form of one more step realizes the longer list.
proof fn lemma_realizes_push(
    before: Seq<MappedGate>,
    after: Seq<MappedGate>,
    steps: Seq<(Gate, Seq<u8>)>,
    gate: Gate,
    qubits: Seq<u8>,
)
    requires
        realizes(before, steps),
        after.len() == before.len() + 1,
        after.subrange(0, before.len() as int) == before,
        binds(after.last(), gate, qubits),
    ensures
        realizes(after, steps.push((gate, qubits))),
{
    let grown = steps.push((gate, qubits));
    assert forall|k: int| 0 <= k < grown.len() implies binds(
        #[trigger] after[k],
        grown[k].0,
        grown[k].1,
    ) by {
        if k < before.len() {
            assert(after[k] == after.subrange(0, before.len() as int)[k]);
            assert(binds(before[k], steps[k].0, steps[k].1));
        }
    }
}

/// The transform on `n_qubits` qubits, with the final swaps.
pub fn build_qft_circuit(n_qubits: u8, phases: &[Complex64]) -> (r: Result<Circuit, QubitError>)
    requires
        1 <= n_qubits <= 32,
        phases@.len() > n_qubits,
    ensures
        r is Ok,
        r->Ok_0.well_formed(),
        r->Ok_0.qubit_count == Some(n_qubits),
        realizes(r->Ok_0.gates@, qft_steps(n_qubits as nat, true, phases@)),
{
    build_qft_circuit_custom(n_qubits, true, phases)
}

/// The transform on `n_qubits` qubits: for each qubit from the highest
/// down, a Hadamard and the controlled phases onto the lower qubits; then,
/// if `do_swaps`, the swaps that reverse the qubit order.
pub fn build_qft_circuit_custom(n_qubits: u8, do_swaps: bool, phases: &[Complex64]) -> (r: Result<
    Circuit,
    QubitError,
>)
    requires
        1 <= n_qubits <= 32,
        phases@.len() > n_qubits,
    ensures
        r is Ok,
        r->Ok_0.well_formed(),
        r->Ok_0.qubit_count == Some(n_qubits),
        realizes(r->Ok_0.gates@, qft_steps(n_qubits as nat, do_swaps, phases@)),
{
    let mut circuit = Circuit::new(n_qubits);
    let ghost n = n_qubits as nat;
    proof {
        lemma_block_len_values();
    }
    let mut i: u8 = n_qubits;
    while i > 0
        invariant
            i <= n_qubits <= 32,
            n == n_qubits,
            phases@.len() > n_qubits,
            circuit.well_formed(),
            circuit.qubit_count == Some(n_qubits),
            block_len(1) == 2,
            block_len(2) == 4,
            realizes(circuit.gates@, qft_rows(n, i as nat, phases@)),
        decreases i,
    {
        i -= 1;
        let ghost above = qft_rows(n, (i + 1) as nat, phases@);
        let ghost row = qft_row(i as nat, phases@);
        let target = [i];
        let ghost before = circuit.gates@;
        proof {
            lemma_no_fault_one(target@, n_qubits);
        }
        match circuit.add_gate(Gate::hadamard(), target.as_slice()) {
            Ok(()) => {},
            Err(e) => {
                return Err(e);
            },
        }
        proof {
            lemma_realizes_push(before, circuit.gates@, above, Gate::Hadamard, target@);
            assert(above.push((Gate::Hadamard, target@)) =~= above + row.subrange(0, 1)) by {
                assert(target@ =~= seq![i as u8]);
            }
        }
        let mut j: u8 = 0;
        while j < i
            invariant
                j <= i < n_qubits <= 32,
                n == n_qubits,
                phases@.len() > n_qubits,
                circuit.well_formed(),
                circuit.qubit_count == Some(n_qubits),
                block_len(1) == 2,
                block_len(2) == 4,
                row == qft_row(i as nat, phases@),
                realizes(circuit.gates@, above + row.subrange(0, j + 1)),
            decreases i - j,
        {
            let pair = [i, j];
            let distance: usize = (i - j + 1) as usize;
            let gate = Gate::Phase(phases[distance]).control();
            let ghost before = circuit.gates@;
            let ghost steps = above + row.subrange(0, j + 1);
            proof {
                lemma_no_fault_two(pair@, n_qubits);
                assert(gate.fits(4)) by {
                    assert(Gate::Phase(phases@[distance as int]).fits(2));
                }
            }
            match circuit.add_gate(gate, pair.as_slice()) {
                Ok(()) => {},
                Err(e) => {
                    return Err(e);
                },
            }
            proof {
                lemma_realizes_push(before, circuit.gates@, steps, gate, pair@);
                assert(pair@ =~= seq![i as u8, j as u8]);
                assert(row[j + 1] == (gate, pair@));
                assert(steps.push((gate, pair@)) =~= above + row.subrange(0, j + 2));
            }
            j += 1;
        }
        proof {
            assert(row.subrange(0, i + 1) =~= row);
        }
    }
    if do_swaps {
        let ghost rows = qft_rows(n, 0, phases@);
        let ghost swaps = qft_swaps(n);
        assert(rows + swaps.subrange(0, 0) =~= rows);
        let mut i: u8 = 0;
        while i < n_qubits / 2
            invariant
                i <= n_qubits / 2,
                1 <= n_qubits <= 32,
                n == n_qubits,
                circuit.well_formed(),
                circuit.qubit_count == Some(n_qubits),
                block_len(2) == 4,
                rows == qft_rows(n, 0, phases@),
                swaps == qft_swaps(n),
                realizes(circuit.gates@, rows + swaps.subrange(0, i as int)),
            decreases n_qubits / 2 - i,
        {
            let pair = [i, n_qubits - i - 1];
            let ghost before = circuit.gates@;
            let ghost steps = rows + swaps.subrange(0, i as int);
            proof {
                lemma_no_fault_two(pair@, n_qubits);
            }
            match circuit.add_gate(Gate::swap(), pair.as_slice()) {
                Ok(()) => {},
                Err(e) => {
                    return Err(e);
                },
            }
            proof {
                lemma_realizes_push(before, circuit.gates@, steps, Gate::Swap, pair@);
                assert(pair@ =~= seq![i as u8, (n - 1 - i) as u8]);
                assert(swaps[i as int] == (Gate::Swap, pair@));
                assert(steps.push((Gate::Swap, pair@)) =~= rows + swaps.subrange(0, i + 1));
            }
            i += 1;
        }
        assert(swaps.subrange(0, (n / 2) as int) =~= swaps);
    }
    Ok(circuit)
}

} // verus!
