//! The closed set of gates and their action on a local buffer of amplitudes.

use crate::amplitude::{
    amp_add, amp_conj, amp_mul, amp_root_half, amp_sub, conjugate_of, difference_of, exchanged,
    product_of, root_half_of, sum_of,
};
use crate::bits::{lemma_next_residual, next_residual};
use crate::circuit::{
    block_len, lemma_block_len_values, lemma_same_table_scatters_alike, Circuit, MappedGate,
};
use num_complex::Complex64;
use vstd::prelude::*;

verus! {

/// A quantum gate.
#[derive(Debug)]
pub enum Gate {
    /// Hadamard gate: creates superposition.
    Hadamard,
    /// Pauli-X gate: bit flip.
    Not,
    /// Phase gate, holding its unit-modulus phase factor.
    Phase(Complex64),
    /// Exchanges two qubits.
    Swap,
    /// The inner gate, applied where one more control qubit is 1.
    Controlled(Box<Gate>),
    /// A whole circuit used as one gate.
    Circuit(Circuit),
}

impl Gate {
    /// The number of leading `Controlled` wrappers.
    pub open spec fn control_depth(self) -> nat
        decreases self,
    {
        match self {
            Gate::Controlled(inner) => inner.control_depth() + 1,
            _ => 0,
        }
    }

    /// `self` wrapped in `n` more controls.
    pub open spec fn controlled_times(self, n: nat) -> Gate
        decreases n,
    {
        if n == 0 {
            self
        } else {
            Gate::Controlled(Box::new(self.controlled_times((n - 1) as nat)))
        }
    }

    /// Whether a local buffer of `len` amplitudes is long enough, and of the
    /// right shape, for this gate to be applied to it.
    pub open spec fn fits(self, len: nat) -> bool
        decreases self, 0nat, 0nat,
    {
        match self {
            Gate::Hadamard => len >= 2,
            Gate::Not => len >= 2,
            Gate::Phase(_) => len >= 2,
            Gate::Swap => len >= 3,
            Gate::Controlled(inner) => inner.fits((len - len / 2) as nat),
            Gate::Circuit(c) => c.fits(len),
        }
    }

    /// The local buffer after this gate has acted on `s`.
    pub open spec fn apply_spec(self, s: Seq<Complex64>) -> Seq<Complex64>
        decreases self, 0nat, 0nat,
    {
        match self {
            Gate::Hadamard => s.update(0, root_half_of(sum_of(s[0], s[1]))).update(
                1,
                root_half_of(difference_of(s[0], s[1])),
            ),
            Gate::Not => exchanged(s, 0, 1),
            Gate::Phase(p) => s.update(1, product_of(s[1], p)),
            Gate::Swap => exchanged(s, 1, 2),
            Gate::Controlled(inner) => s.subrange(0, (s.len() / 2) as int) + inner.apply_spec(
                s.subrange((s.len() / 2) as int, s.len() as int),
            ),
            Gate::Circuit(c) => c.apply_upto(s, c.gates@.len()),
        }
    }

    /// Whether each circuit directly under the controls of this gate holds
    /// only well-formed bound gates.
    pub open spec fn sound(self) -> bool
        decreases self,
    {
        match self {
            Gate::Controlled(inner) => inner.sound(),
            Gate::Circuit(c) => forall|i: int|
                0 <= i < c.gates@.len() ==> (#[trigger] c.gates@[i]).well_formed(),
            _ => true,
        }
    }

    /// Whether `other` is a copy of this gate: the same variant with the
    /// same phase factor, the same inner gate or the same circuit.
    pub open spec fn same_as(self, other: Gate) -> bool
        decreases self, 1nat,
    {
        match (self, other) {
            (Gate::Hadamard, Gate::Hadamard) => true,
            (Gate::Not, Gate::Not) => true,
            (Gate::Swap, Gate::Swap) => true,
            (Gate::Phase(p), Gate::Phase(q)) => q == p,
            (Gate::Controlled(a), Gate::Controlled(b)) => a.same_as(*b),
            (Gate::Circuit(c), Gate::Circuit(d)) => c.same_as(d),
            _ => false,
        }
    }

    /// Whether `other` is the adjoint of this gate.
    pub open spec fn inverted_by(self, other: Gate) -> bool
        decreases self, 1nat,
    {
        match (self, other) {
            (Gate::Hadamard, Gate::Hadamard) => true,
            (Gate::Not, Gate::Not) => true,
            (Gate::Swap, Gate::Swap) => true,
            (Gate::Phase(p), Gate::Phase(q)) => q == conjugate_of(p),
            (Gate::Controlled(a), Gate::Controlled(b)) => a.inverted_by(*b),
            (Gate::Circuit(c), Gate::Circuit(d)) => c.inverted_by(d),
            _ => false,
        }
    }

    /// The Hadamard gate.
    pub fn hadamard() -> (r: Gate)
        ensures
            r == Gate::Hadamard,
    {
        Gate::Hadamard
    }

    /// The NOT (Pauli-X) gate.
    pub fn not() -> (r: Gate)
        ensures
            r == Gate::Not,
    {
        Gate::Not
    }

    /// The phase gate that multiplies the `|1>` branch by `factor`.
    pub fn phase(factor: Complex64) -> (r: Gate)
        ensures
            r == Gate::Phase(factor),
    {
        Gate::Phase(factor)
    }

    /// The SWAP gate.
    pub fn swap() -> (r: Gate)
        ensures
            r == Gate::Swap,
    {
        Gate::Swap
    }

    /// This gate under one more control.
    pub fn control(self) -> (r: Gate)
        ensures
            r == Gate::Controlled(Box::new(self)),
            r == self.controlled_times(1),
    {
        reveal_with_fuel(Gate::controlled_times, 2);
        Gate::Controlled(Box::new(self))
    }

    /// This gate under `n` more controls.
    pub fn multi_control(self, n: u8) -> (r: Gate)
        ensures
            r == self.controlled_times(n as nat),
    {
        let ghost base = self;
        let mut gate = self;
        let mut i: u8 = 0;
        while i < n
            invariant
                i <= n,
                gate == base.controlled_times(i as nat),
            decreases n - i,
        {
            gate = Gate::Controlled(Box::new(gate));
            i += 1;
        }
        gate
    }

    /// A circuit as one gate.
    pub fn circuit(circuit: Circuit) -> (r: Gate)
        ensures
            r == Gate::Circuit(circuit),
    {
        Gate::Circuit(circuit)
    }

    /// Controlled NOT.
    pub fn cnot() -> (r: Gate)
        ensures
            r == Gate::Controlled(Box::new(Gate::Not)),
    {
        Gate::Not.control()
    }

    /// Controlled CNOT.
    pub fn toffoli() -> (r: Gate)
        ensures
            r == Gate::Controlled(Box::new(Gate::Controlled(Box::new(Gate::Not)))),
    {
        Gate::cnot().control()
    }

    /// Controlled SWAP.
    pub fn fredkin() -> (r: Gate)
        ensures
            r == Gate::Controlled(Box::new(Gate::Swap)),
    {
        Gate::Swap.control()
    }

    /// The number of control qubits of this gate.
    pub fn count_controlled(&self) -> (r: u8)
        requires
            self.control_depth() <= u8::MAX,
        ensures
            r == self.control_depth(),
        decreases self,
    {
        match self {
            Gate::Controlled(inner) => inner.count_controlled() + 1,
            _ => 0,
        }
    }

    /// The number of control qubits, counted no further than `limit`.
    pub(crate) fn leading_controls(&self, limit: usize) -> (r: usize)
        ensures
            r == if self.control_depth() < limit {
                self.control_depth()
            } else {
                limit as nat
            },
        decreases self,
    {
        if limit == 0 {
            return 0;
        }
        match self {
            Gate::Controlled(inner) => inner.leading_controls(limit - 1) + 1,
            _ => 0,
        }
    }

    /// A deep copy of this gate.
    pub fn duplicate(&self) -> (r: Gate)
        ensures
            self.same_as(r),
        decreases self, 1nat,
    {
        match self {
            Gate::Hadamard => Gate::Hadamard,
            Gate::Not => Gate::Not,
            Gate::Swap => Gate::Swap,
            Gate::Phase(c) => Gate::Phase(*c),
            Gate::Controlled(inner) => Gate::Controlled(Box::new(inner.duplicate())),
            Gate::Circuit(circuit) => Gate::Circuit(circuit.duplicate()),
        }
    }

    /// Whether this gate can be applied to a local buffer of `len`
    /// amplitudes.
    pub fn accepts(&self, len: usize) -> (ok: bool)
        requires
            self.sound(),
        ensures
            ok == self.fits(len as nat),
        decreases self,
    {
        match self {
            Gate::Hadamard => len >= 2,
            Gate::Not => len >= 2,
            Gate::Phase(_) => len >= 2,
            Gate::Swap => len >= 3,
            Gate::Controlled(inner) => inner.accepts(len - len / 2),
            Gate::Circuit(circuit) => circuit.accepts(len),
        }
    }

    /// The adjoint of this gate: Hadamard, NOT and SWAP are their own; a
    /// phase is conjugated; composite gates are inverted part by part.
    pub fn inverse(&self) -> (r: Gate)
        ensures
            self.inverted_by(r),
            forall|len: nat| self.fits(len) ==> r.fits(len),
        decreases self, 1nat,
    {
        match self {
            Gate::Hadamard => Gate::Hadamard,
            Gate::Not => Gate::Not,
            Gate::Swap => Gate::Swap,
            Gate::Phase(c) => Gate::Phase(amp_conj(*c)),
            Gate::Controlled(inner) => {
                let inv = inner.inverse();
                assert forall|len: nat| self.fits(len) implies Gate::Controlled(Box::new(inv)).fits(
                    len,
                ) by {
                    assert(inner.fits((len - len / 2) as nat));
                }
                Gate::Controlled(Box::new(inv))
            },
            Gate::Circuit(circuit) => {
                let inv = circuit.inverse();
                assert forall|len: nat| self.fits(len) implies Gate::Circuit(inv).fits(len) by {
                    assert(circuit.fits(len));
                }
                Gate::Circuit(inv)
            },
        }
    }

    /// Applies this gate to the local buffer `state`.
    pub fn apply(&self, state: &mut Vec<Complex64>)
        requires
            self.fits(old(state)@.len()),
        ensures
            final(state)@.len() == old(state)@.len(),
            final(state)@ == self.apply_spec(old(state)@),
        decreases self, 0nat, 2nat,
    {
        assert(state@.subrange(0, state@.len() as int) =~= state@);
        let ghost before = state@;
        self.apply_from(state, 0);
        assert(state@ =~= self.apply_spec(before));
    }

    /// Applies this gate to the part of `state` that starts at `start`.
    pub(crate) fn apply_from(&self, state: &mut Vec<Complex64>, start: usize)
        requires
            start <= old(state)@.len(),
            self.fits((old(state)@.len() - start) as nat),
        ensures
            final(state)@.len() == old(state)@.len(),
            final(state)@ == old(state)@.subrange(0, start as int) + self.apply_spec(
                old(state)@.subrange(start as int, old(state)@.len() as int),
            ),
        decreases self, 0nat, 1nat,
    {
        let ghost before = state@;
        let ghost tail = before.subrange(start as int, before.len() as int);
        let len = state.len() - start;
        assert(self.fits(len as nat));
        match self {
            Gate::Hadamard => {
                let a = state[start];
                let b = state[start + 1];
                state.set(start, amp_root_half(amp_add(a, b)));
                state.set(start + 1, amp_root_half(amp_sub(a, b)));
                assert(state@ =~= before.subrange(0, start as int) + self.apply_spec(tail));
            },
            Gate::Not => {
                let a = state[start];
                let b = state[start + 1];
                state.set(start, b);
                state.set(start + 1, a);
                assert(state@ =~= before.subrange(0, start as int) + self.apply_spec(tail));
            },
            Gate::Swap => {
                let a = state[start + 1];
                let b = state[start + 2];
                state.set(start + 1, b);
                state.set(start + 2, a);
                assert(state@ =~= before.subrange(0, start as int) + self.apply_spec(tail));
            },
            Gate::Phase(phase) => {
                let a = state[start + 1];
                state.set(start + 1, amp_mul(a, *phase));
                assert(state@ =~= before.subrange(0, start as int) + self.apply_spec(tail));
            },
            Gate::Controlled(gate) => {
                let substate_middle = start + (state.len() - start) / 2;
                gate.apply_from(state, substate_middle);
                assert(before.subrange(substate_middle as int, before.len() as int) =~= tail.subrange(
                    (tail.len() / 2) as int,
                    tail.len() as int,
                ));
                assert(state@ =~= before.subrange(0, start as int) + self.apply_spec(tail));
            },
            Gate::Circuit(circuit) => {
                circuit.apply_from(state, start);
            },
        }
    }
}

impl Clone for Gate {
    /// A deep copy, as `duplicate` makes it.
    fn clone(&self) -> (r: Self) {
        self.duplicate()
    }
}

/// The named gates fit the local buffers of their qubits: two amplitudes for
/// Hadamard, NOT and a phase, four for SWAP and CNOT, eight for Toffoli and
/// Fredkin.
pub proof fn lemma_named_gates_fit(factor: Complex64)
    ensures
        Gate::Hadamard.fits(block_len(1)),
        Gate::Not.fits(block_len(1)),
        Gate::Phase(factor).fits(block_len(1)),
        Gate::Swap.fits(block_len(2)),
        Gate::Controlled(Box::new(Gate::Not)).fits(block_len(2)),
        Gate::Controlled(Box::new(Gate::Controlled(Box::new(Gate::Not)))).fits(block_len(3)),
        Gate::Controlled(Box::new(Gate::Swap)).fits(block_len(3)),
{
    lemma_block_len_values();
    reveal_with_fuel(Gate::fits, 3);
}

/// A copy of a gate fits the same buffers as its source.
pub proof fn lemma_copy_fits(a: Gate, b: Gate, len: nat)
    requires
        a.same_as(b),
    ensures
        a.fits(len) == b.fits(len),
    decreases a,
{
    match (a, b) {
        (Gate::Controlled(x), Gate::Controlled(y)) => {
            lemma_copy_fits(*x, *y, (len - len / 2) as nat);
        },
        (Gate::Circuit(c), Gate::Circuit(d)) => {
            assert(c.same_as(d));
            assert forall|i: int| 0 <= i < c.gates@.len() implies (#[trigger] c.gates@[i]).fits(len)
                == d.gates@[i].fits(len) by {
                let m1 = c.gates@[i];
                let m2 = d.gates@[i];
                assert(m1.state_map@ == m2.state_map@ && m1.qubits_mask == m2.qubits_mask
                    && m1.gate.same_as(m2.gate));
                lemma_copy_fits(m1.gate, m2.gate, m1.state_map@.len());
                assert(m1.table_ok() == m2.table_ok());
            }
            if c.fits(len) {
                assert forall|i: int| 0 <= i < d.gates@.len() implies (#[trigger] d.gates@[i]).fits(
                    len,
                ) by {
                    assert(c.gates@[i].fits(len));
                }
            }
            if d.fits(len) {
                assert forall|i: int| 0 <= i < c.gates@.len() implies (#[trigger] c.gates@[i]).fits(
                    len,
                ) by {
                    assert(d.gates@[i].fits(len));
                }
            }
        },
        _ => {},
    }
}

/// A copy of a gate acts on every local buffer as its source does.
pub proof fn lemma_copy_acts_alike(a: Gate, b: Gate, s: Seq<Complex64>)
    requires
        a.same_as(b),
    ensures
        a.apply_spec(s) == b.apply_spec(s),
    decreases a, 0nat, 0nat,
{
    match (a, b) {
        (Gate::Controlled(x), Gate::Controlled(y)) => {
            assert(x.same_as(*y));
            lemma_copy_acts_alike(*x, *y, s.subrange((s.len() / 2) as int, s.len() as int));
        },
        (Gate::Circuit(c), Gate::Circuit(d)) => {
            assert(c.same_as(d));
            lemma_copy_acts_alike_upto(c, d, s, c.gates@.len());
            assert(a.apply_spec(s) == c.apply_upto(s, c.gates@.len()));
            assert(b.apply_spec(s) == d.apply_upto(s, d.gates@.len()));
        },
        _ => {},
    }
}

/// The first `n` gates of a copy of a circuit act as those of the circuit.
pub proof fn lemma_copy_acts_alike_upto(c: Circuit, d: Circuit, s: Seq<Complex64>, n: nat)
    requires
        c.same_as(d),
        n <= c.gates@.len(),
    ensures
        c.apply_upto(s, n) == d.apply_upto(s, n),
    decreases c, n, 0nat,
{
    if n > 0 {
        lemma_copy_acts_alike_upto(c, d, s, (n - 1) as nat);
        let m1 = c.gates@[n - 1];
        let m2 = d.gates@[n - 1];
        assert(m1.state_map@ == m2.state_map@ && m1.qubits_mask == m2.qubits_mask
            && m1.gate.same_as(m2.gate));
        lemma_copy_acts_alike_blocks(
            c.gates@[n - 1],
            d.gates@[n - 1],
            c.apply_upto(s, (n - 1) as nat),
            0,
        );
    }
}

/// A bound gate with the table and the mask of another, and a copy of its gate,
/// acts on the blocks from `o` upwards as the other does.
pub proof fn lemma_copy_acts_alike_blocks(m1: MappedGate, m2: MappedGate, s: Seq<Complex64>, o: u64)
    requires
        m1.state_map@ == m2.state_map@,
        m1.qubits_mask == m2.qubits_mask,
        m1.gate.same_as(m2.gate),
    ensures
        m1.blocks_from(s, o) == m2.blocks_from(s, o),
    decreases m1, u64::MAX - o, 0nat,
{
    if o >= s.len() || o & m1.qubits_mask != 0 || (o | m1.qubits_mask) == u64::MAX {
    } else {
        lemma_next_residual(o, m1.qubits_mask);
        assert(m1.gathered(s, o) =~= m2.gathered(s, o));
        lemma_copy_acts_alike(m1.gate, m2.gate, m1.gathered(s, o));
        let sub = m1.gate.apply_spec(m1.gathered(s, o));
        lemma_same_table_scatters_alike(m1, m2, s, o, sub, m1.state_map@.len());
        assert(m1.block_spec(s, o) == m2.block_spec(s, o));
        lemma_copy_acts_alike_blocks(
            m1,
            m2,
            m1.block_spec(s, o),
            next_residual(o, m1.qubits_mask),
        );
        assert(m1.blocks_from(s, o) == m1.blocks_from(
            m1.block_spec(s, o),
            next_residual(o, m1.qubits_mask),
        ));
        assert(m2.blocks_from(s, o) == m2.blocks_from(
            m2.block_spec(s, o),
            next_residual(o, m2.qubits_mask),
        ));
    }
}

/// Controlling a gate twice gives that gate under two controls, and so the
/// same action on every local buffer.
pub proof fn lemma_double_control(g: Gate, s: Seq<Complex64>)
    ensures
        g.controlled_times(2) == Gate::Controlled(Box::new(Gate::Controlled(Box::new(g)))),
        g.controlled_times(2).apply_spec(s) == Gate::Controlled(
            Box::new(Gate::Controlled(Box::new(g))),
        ).apply_spec(s),
        g.controlled_times(2).control_depth() == g.control_depth() + 2,
{
    reveal_with_fuel(Gate::controlled_times, 3);
    reveal_with_fuel(Gate::control_depth, 3);
}

} // verus!
