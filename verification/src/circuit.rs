//! Gates bound to qubits, and circuits: ordered lists of bound gates.

use crate::bits::{
    has_bit, is_power_of_two, lemma_bit_below_power, lemma_differing_bit, lemma_mask_grows,
    lemma_next_residual,
    lemma_or_below_power, lemma_set_bit, lemma_shift_is_power, next_residual,
};
use crate::gate::{lemma_copy_fits, Gate};
use num_complex::Complex64;
use vstd::prelude::*;

verus! {

/// Why a gate could not be bound to the qubits it was given.
#[derive(Debug, Clone, Copy, PartialEq, Eq, Structural)]
pub enum QubitError {
    /// A qubit index equals or exceeds the circuit's qubit count.
    IndexOutOfBounds,
    /// The same qubit index occurs twice in one gate's list.
    DuplicatedIndex,
}

/// The local bit that the qubit at position `p` of a list of `k` qubits
/// drives, for a gate with `c` controls: controls take the high bits in
/// reverse order, targets the low bits in order.
pub open spec fn local_bit_pos(p: nat, k: nat, c: nat) -> nat {
    if p < c {
        (k - p - 1) as nat
    } else {
        (p - c) as nat
    }
}

/// The OR of `1 << q` over the first `n` qubits of the list.
pub open spec fn mask_of(qubits: Seq<u8>, n: nat) -> u64
    decreases n,
{
    if n == 0 {
        0
    } else {
        mask_of(qubits, (n - 1) as nat) | (1u64 << (qubits[n - 1] as u64))
    }
}

/// The global offset of local index `i` after the first `n` qubits of the
/// list have been bound: the OR of `1 << q` over those positions whose local
/// bit is set in `i`.
pub open spec fn offset_of(i: u64, qubits: Seq<u8>, c: nat, n: nat) -> u64
    decreases n,
{
    if n == 0 {
        0
    } else {
        let rest = offset_of(i, qubits, c, (n - 1) as nat);
        if has_bit(i, local_bit_pos((n - 1) as nat, qubits.len(), c) as u64) {
            rest | (1u64 << (qubits[n - 1] as u64))
        } else {
            rest
        }
    }
}

/// The error that binding `qubits` under the bound `max` runs into first,
/// going through the list from position `from`: an index at or over the
/// bound, or one that stands earlier in the list.
pub open spec fn first_fault(qubits: Seq<u8>, max: Option<u8>, from: int) -> Option<QubitError>
    decreases qubits.len() - from,
{
    if from < 0 || from >= qubits.len() {
        None
    } else if max is Some && qubits[from] >= max->0 {
        Some(QubitError::IndexOutOfBounds)
    } else if qubits.subrange(0, from).contains(qubits[from]) {
        Some(QubitError::DuplicatedIndex)
    } else {
        first_fault(qubits, max, from + 1)
    }
}

/// The length of the local buffer of a gate on `k` qubits.
pub open spec fn block_len(k: nat) -> nat {
    (1u64 << (k as u64)) as nat
}

impl Clone for MappedGate {
    /// A deep copy: the same table and mask with a copy of the bound gate.
    fn clone(&self) -> (r: Self) {
        MappedGate {
            gate: self.gate.duplicate(),
            state_map: self.state_map.clone(),
            qubits_mask: self.qubits_mask,
        }
    }
}

impl Clone for Circuit {
    /// A deep copy, as `duplicate` makes it.
    fn clone(&self) -> (r: Self) {
        self.duplicate()
    }
}

/// The local buffers of gates on one, two and three qubits hold two, four
/// and eight amplitudes.
pub proof fn lemma_block_len_values()
    ensures
        block_len(1) == 2,
        block_len(2) == 4,
        block_len(3) == 8,
{
    assert(1u64 << 1u64 == 2) by (bit_vector);
    assert(1u64 << 2u64 == 4) by (bit_vector);
    assert(1u64 << 3u64 == 8) by (bit_vector);
}

/// The number of positions of a list of `k` qubits that `gate` reads as
/// controls.
pub open spec fn bound_controls(gate: Gate, k: nat) -> nat {
    if gate.control_depth() < k {
        gate.control_depth()
    } else {
        k
    }
}

/// Whether `mg` is `gate` bound to `qubits`: the mask holds one bit per
/// qubit and the table sends each local index to its global offset.
pub open spec fn binds(mg: MappedGate, gate: Gate, qubits: Seq<u8>) -> bool {
    &&& mg.gate == gate
    &&& mg.qubits_mask == mask_of(qubits, qubits.len())
    &&& mg.state_map@.len() == block_len(qubits.len())
    &&& forall|i: int|
        0 <= i < mg.state_map@.len() ==> #[trigger] mg.state_map@[i] == offset_of(
            i as u64,
            qubits,
            bound_controls(gate, qubits.len()),
            qubits.len(),
        )
}

/// Local index 0 has global offset 0.
proof fn lemma_offset_zero(qubits: Seq<u8>, c: nat, n: nat)
    ensures
        offset_of(0, qubits, c, n) == 0,
    decreases n,
{
    if n > 0 {
        lemma_offset_zero(qubits, c, (n - 1) as nat);
        let b = local_bit_pos((n - 1) as nat, qubits.len(), c) as u64;
        assert(0u64 & (1u64 << b) == 0) by (bit_vector);
    }
}

/// Every global offset is made of bits of the mask.
proof fn lemma_offset_within_mask(i: u64, qubits: Seq<u8>, c: nat, n: nat)
    ensures
        offset_of(i, qubits, c, n) & !mask_of(qubits, n) == 0,
    decreases n,
{
    if n == 0 {
        assert(0u64 & !0u64 == 0) by (bit_vector);
    } else {
        lemma_offset_within_mask(i, qubits, c, (n - 1) as nat);
        lemma_mask_grows(
            offset_of(i, qubits, c, (n - 1) as nat),
            mask_of(qubits, (n - 1) as nat),
            1u64 << (qubits[n - 1] as u64),
        );
    }
}

/// Whether no qubit stands twice in the list and each is below 64.
pub open spec fn distinct_qubits(qubits: Seq<u8>) -> bool {
    &&& forall|a: int| 0 <= a < qubits.len() ==> #[trigger] qubits[a] < 64
    &&& forall|a: int, b: int| 0 <= a < b < qubits.len() ==> qubits[a] != qubits[b]
}

/// The offset of local index `i` has the bit of the qubit at position `p`
/// exactly when that position is bound and `i` has the position's local bit.
pub proof fn lemma_offset_bit(i: u64, qubits: Seq<u8>, c: nat, n: nat, p: nat)
    requires
        n <= qubits.len() <= 32,
        p < qubits.len(),
        distinct_qubits(qubits),
    ensures
        has_bit(offset_of(i, qubits, c, n), qubits[p as int] as u64) == (p < n && has_bit(
            i,
            local_bit_pos(p, qubits.len(), c) as u64,
        )),
    decreases n,
{
    let q = qubits[p as int] as u64;
    if n == 0 {
        assert(0u64 & (1u64 << q) == 0) by (bit_vector);
    } else {
        lemma_offset_bit(i, qubits, c, (n - 1) as nat, p);
        let rest = offset_of(i, qubits, c, (n - 1) as nat);
        let last = qubits[n - 1] as u64;
        lemma_set_bit(rest, last, q);
        assert(qubits[n - 1] < 64);
        if p != n - 1 {
            if p < n - 1 {
                assert(qubits[p as int] != qubits[n - 1]);
            } else {
                assert(qubits[n - 1] != qubits[p as int]);
            }
        }
    }
}

/// Different positions of a list drive different local bits.
proof fn lemma_local_bits_differ(p1: nat, p2: nat, k: nat, c: nat)
    requires
        p1 < k,
        p2 < k,
        p1 != p2,
    ensures
        local_bit_pos(p1, k, c) != local_bit_pos(p2, k, c),
        local_bit_pos(p1, k, c) < k,
{
}

/// A local bit that none of the first `n` positions drives does not change
/// the offset over those positions.
proof fn lemma_offset_ignores_bit(i: u64, b: u64, qubits: Seq<u8>, c: nat, n: nat)
    requires
        n <= qubits.len() <= 32,
        b < 64,
        forall|p: nat| p < n ==> local_bit_pos(p, qubits.len(), c) != b,
    ensures
        offset_of(i | (1u64 << b), qubits, c, n) == offset_of(i, qubits, c, n),
    decreases n,
{
    if n > 0 {
        lemma_offset_ignores_bit(i, b, qubits, c, (n - 1) as nat);
        let pb = local_bit_pos((n - 1) as nat, qubits.len(), c);
        assert(pb != b);
        lemma_set_bit(i, b, pb as u64);
    }
}

/// Every set of bits of the mask over the first `n` qubits is the offset of
/// some local index: the one that has the local bit of each position whose
/// qubit is in the set.
pub proof fn lemma_offset_reaches(m: u64, qubits: Seq<u8>, c: nat, n: nat) -> (i: u64)
    requires
        n <= qubits.len() <= 32,
        distinct_qubits(qubits),
        m & !mask_of(qubits, n) == 0,
    ensures
        i < block_len(qubits.len()),
        offset_of(i, qubits, c, n) == m,
        forall|p: nat|
            n <= p < qubits.len() ==> !has_bit(i, #[trigger] local_bit_pos(p, qubits.len(), c) as u64),
    decreases n,
{
    let k = qubits.len();
    lemma_shift_is_power(k as u64);
    if n == 0 {
        assert(m & !0u64 == 0 ==> m == 0) by (bit_vector);
        assert forall|p: nat| n <= p < k implies !has_bit(
            0u64,
            #[trigger] local_bit_pos(p, k, c) as u64,
        ) by {
            let b = local_bit_pos(p, k, c) as u64;
            assert(0u64 & (1u64 << b) == 0) by (bit_vector);
        }
        0
    } else {
        let last = (n - 1) as nat;
        let q = qubits[n - 1] as u64;
        assert(qubits[n - 1] < 64);
        let b = local_bit_pos(last, k, c) as u64;
        let rest_mask = mask_of(qubits, last);
        let m1 = m & !(1u64 << q);
        assert(m1 & !rest_mask == 0) by (bit_vector)
            requires
                m & !(rest_mask | (1u64 << q)) == 0,
                m1 == m & !(1u64 << q),
        ;
        let i1 = lemma_offset_reaches(m1, qubits, c, last);
        assert(!has_bit(i1, local_bit_pos(last, k, c) as u64));
        if has_bit(m, q) {
            let i = i1 | (1u64 << b);
            lemma_bit_below_power(b, k as u64, i1);
            assert forall|p: nat| p < last implies local_bit_pos(p, k, c) != b by {
                lemma_local_bits_differ(p, last, k, c);
            }
            lemma_offset_ignores_bit(i1, b, qubits, c, last);
            lemma_set_bit(i1, b, b);
            assert((m & !(1u64 << q)) | (1u64 << q) == m) by (bit_vector)
                requires
                    m & (1u64 << q) != 0,
            ;
            assert forall|p: nat| n <= p < k implies !has_bit(
                i,
                #[trigger] local_bit_pos(p, k, c) as u64,
            ) by {
                lemma_local_bits_differ(p, last, k, c);
                lemma_set_bit(i1, b, local_bit_pos(p, k, c) as u64);
            }
            i
        } else {
            assert(m & !(1u64 << q) == m) by (bit_vector)
                requires
                    m & (1u64 << q) == 0,
            ;
            i1
        }
    }
}

/// Whether `m` stands in the table.
pub open spec fn reaches(table: Seq<u64>, m: u64) -> bool {
    exists|i: int| 0 <= i < table.len() && #[trigger] table[i] == m
}

/// A table over distinct qubits sends different local indices to different
/// offsets.
pub proof fn lemma_table_injective(i: u64, j: u64, qubits: Seq<u8>, c: nat)
    requires
        qubits.len() <= 32,
        c <= qubits.len(),
        distinct_qubits(qubits),
        i < block_len(qubits.len()),
        j < block_len(qubits.len()),
        i != j,
    ensures
        offset_of(i, qubits, c, qubits.len()) != offset_of(j, qubits, c, qubits.len()),
{
    let k = qubits.len();
    let b = lemma_differing_bit(i, j, k as u64);
    let p: nat = if b < k - c {
        (b + c) as nat
    } else {
        (k - 1 - b) as nat
    };
    assert(local_bit_pos(p, k, c) == b);
    lemma_offset_bit(i, qubits, c, k, p);
    lemma_offset_bit(j, qubits, c, k, p);
}

/// The state after the first `n` gates depends on those gates alone.
pub proof fn lemma_apply_upto_prefix(a: Circuit, b: Circuit, s: Seq<Complex64>, n: nat)
    requires
        n <= a.gates@.len(),
        n <= b.gates@.len(),
        forall|i: int| 0 <= i < n ==> a.gates@[i] == b.gates@[i],
    ensures
        a.apply_upto(s, n) == b.apply_upto(s, n),
    decreases n,
{
    if n > 0 {
        lemma_apply_upto_prefix(a, b, s, (n - 1) as nat);
    }
}

/// A well-formed circuit on `n` qubits can act on every state of `2^n`
/// amplitudes.
pub proof fn lemma_bound_circuit_fits(c: Circuit)
    requires
        c.well_formed(),
        c.qubit_count is Some,
    ensures
        c.fits(block_len(c.qubit_count->0 as nat)),
{
    let n = c.qubit_count->0;
    lemma_shift_is_power(n as u64);
    assert forall|i: int| 0 <= i < c.gates@.len() implies (#[trigger] c.gates@[i]).fits(
        block_len(n as nat),
    ) by {
        assert(c.gates@[i].well_formed());
    }
}

/// Gates act in the order in which they were appended: a circuit with one
/// more gate at its end acts as the shorter circuit followed by that gate.
pub proof fn lemma_appended_gate_acts_last(before: Circuit, after: Circuit, s: Seq<Complex64>)
    requires
        after.gates@.len() == before.gates@.len() + 1,
        after.gates@.subrange(0, before.gates@.len() as int) == before.gates@,
    ensures
        after.apply_spec(s) == after.gates@.last().apply_spec(before.apply_spec(s)),
{
    let n = before.gates@.len();
    assert forall|i: int| 0 <= i < n implies after.gates@[i] == before.gates@[i] by {
        assert(after.gates@.subrange(0, n as int)[i] == after.gates@[i]);
    }
    lemma_apply_upto_prefix(after, before, s, n);
}

/// Bound gates with the same table write a local buffer back alike.
pub proof fn lemma_same_table_scatters_alike(
    m1: MappedGate,
    m2: MappedGate,
    s: Seq<Complex64>,
    o: u64,
    sub: Seq<Complex64>,
    n: nat,
)
    requires
        m1.state_map@ == m2.state_map@,
    ensures
        m1.scattered(s, o, sub, n) == m2.scattered(s, o, sub, n),
    decreases n,
{
    if n > 0 {
        lemma_same_table_scatters_alike(m1, m2, s, o, sub, (n - 1) as nat);
    }
}

/// Whether `b` is `a` with its gate replaced by the adjoint: bound as `a` is,
/// and fit for every buffer that `a`'s gate is fit for.
pub open spec fn mirrors(a: MappedGate, b: MappedGate) -> bool {
    &&& b.state_map@ == a.state_map@
    &&& b.qubits_mask == a.qubits_mask
    &&& a.gate.inverted_by(b.gate)
    &&& forall|len: nat| a.gate.fits(len) ==> b.gate.fits(len)
}

/// A gate with the table that sends its local indices to global offsets.
#[derive(Debug)]
pub struct MappedGate {
    /// The bound gate.
    pub gate: Gate,
    /// Global offset of each local index.
    pub state_map: Vec<u64>,
    /// OR of `1 << q` over the bound qubits.
    pub qubits_mask: u64,
}

/// An ordered list of bound gates, optionally tied to a qubit count.
#[derive(Debug)]
pub struct Circuit {
    /// The qubit count every index must stay under, if the circuit has one.
    pub qubit_count: Option<u8>,
    /// The gates, in the order in which they act.
    pub gates: Vec<MappedGate>,
}

impl MappedGate {
    /// The table has a power-of-two length, starts at offset 0, holds only
    /// offsets made of bits of the mask, holds none of them twice, and holds
    /// every set of bits of the mask: it is a bijection from the local
    /// indices onto the offsets within the mask.
    pub open spec fn table_ok(self) -> bool {
        &&& is_power_of_two(self.state_map@.len())
        &&& self.state_map@[0] == 0
        &&& forall|i: int|
            0 <= i < self.state_map@.len() ==> #[trigger] self.state_map@[i] & !self.qubits_mask
                == 0
        &&& forall|i: int, j: int|
            0 <= i < j < self.state_map@.len() ==> self.state_map@[i] != self.state_map@[j]
        &&& forall|m: u64| m & !self.qubits_mask == 0 ==> #[trigger] reaches(self.state_map@, m)
    }

    /// The table is in order and this gate can act on a buffer of its length.
    pub open spec fn well_formed(self) -> bool {
        self.table_ok() && self.gate.fits(self.state_map@.len())
    }

    /// Whether the bound gate can act on a state of `len` amplitudes.
    pub open spec fn fits(self, len: nat) -> bool
        decreases self, 0nat, 0nat,
    {
        &&& self.table_ok()
        &&& is_power_of_two(len)
        &&& self.qubits_mask < len
        &&& self.gate.fits(self.state_map@.len())
    }

    /// The local buffer of the block with residual `o`.
    pub open spec fn gathered(self, s: Seq<Complex64>, o: u64) -> Seq<Complex64> {
        Seq::new(self.state_map@.len(), |i: int| s[(o | self.state_map@[i]) as int])
    }

    /// `s` after the first `n` entries of `sub` were written back to the
    /// block with residual `o`.
    pub open spec fn scattered(self, s: Seq<Complex64>, o: u64, sub: Seq<Complex64>, n: nat) -> Seq<
        Complex64,
    >
        decreases n,
    {
        if n == 0 {
            s
        } else {
            self.scattered(s, o, sub, (n - 1) as nat).update(
                (o | self.state_map@[n - 1]) as int,
                sub[n - 1],
            )
        }
    }

    /// `s` after this gate has acted on the block with residual `o`.
    pub open spec fn block_spec(self, s: Seq<Complex64>, o: u64) -> Seq<Complex64>
        decreases self, 0nat, 1nat,
    {
        self.scattered(s, o, self.gate.apply_spec(self.gathered(s, o)), self.state_map@.len())
    }

    /// `s` after this gate has acted on every block from residual `o` upwards,
    /// in ascending order. A residual has no bit of the mask; the walk ends
    /// at the first one that is not below the length of `s`.
    pub open spec fn blocks_from(self, s: Seq<Complex64>, o: u64) -> Seq<Complex64>
        decreases self, 1nat, u64::MAX - o,
    {
        if o >= s.len() || o & self.qubits_mask != 0 || (o | self.qubits_mask) == u64::MAX {
            s
        } else {
            proof {
                lemma_next_residual(o, self.qubits_mask);
            }
            self.blocks_from(self.block_spec(s, o), next_residual(o, self.qubits_mask))
        }
    }

    /// The state after the bound gate has acted on all of `s`.
    pub open spec fn apply_spec(self, s: Seq<Complex64>) -> Seq<Complex64> {
        self.blocks_from(s, 0)
    }

    /// The local bit that the qubit at position `input_index` drives.
    fn calc_local_bit_pos(input_index: usize, qubit_count: usize, n_controlled: usize) -> (r: usize)
        requires
            input_index < qubit_count,
        ensures
            r == local_bit_pos(input_index as nat, qubit_count as nat, n_controlled as nat),
            r < qubit_count,
    {
        if input_index < n_controlled {
            qubit_count - input_index - 1
        } else {
            input_index - n_controlled
        }
    }

    /// Binds `gate` to `qubit_indices`, given as `[controls.., targets..]`.
    ///
    /// Fails on the first index that is at or over `max_qubits`, or that
    /// already stands earlier in the list.
    pub fn new(gate: Gate, qubit_indices: &[u8], max_qubits: Option<u8>) -> (r: Result<
        MappedGate,
        QubitError,
    >)
        requires
            qubit_indices@.len() <= 32,
            block_len(qubit_indices@.len()) <= usize::MAX,
            gate.fits(block_len(qubit_indices@.len())),
            max_qubits matches Some(m) ==> m <= 32,
            max_qubits is None ==> forall|j: int|
                0 <= j < qubit_indices@.len() ==> qubit_indices@[j] < 64,
        ensures
            match first_fault(qubit_indices@, max_qubits, 0) {
                Some(e) => r == Err::<MappedGate, QubitError>(e),
                None => r is Ok && binds(r->Ok_0, gate, qubit_indices@) && r->Ok_0.well_formed()
                    && (max_qubits matches Some(m) ==> r->Ok_0.qubits_mask < (1u64 << (m as u64))),
            },
    {
        let qubit_count = qubit_indices.len();
        proof {
            lemma_shift_is_power(qubit_count as u64);
        }
        let size: usize = (1u64 << (qubit_count as u64)) as usize;
        let mut state_map: Vec<u64> = vec![0u64; size];
        let mut qubits_mask: u64 = 0;
        let n_controlled = gate.leading_controls(qubit_count);
        let ghost qubits = qubit_indices@;
        let ghost c = n_controlled as nat;
        proof {
            if let Some(m) = max_qubits {
                assert(0u64 < (1u64 << (m as u64))) by (bit_vector)
                    requires
                        m <= 32,
                ;
            }
        }
        proof {
            assert forall|q: u8| q < 64 implies !#[trigger] has_bit(0u64, q as u64) by {
                let b = q as u64;
                assert(0u64 & (1u64 << b) == 0) by (bit_vector);
            }
        }
        let mut input_index: usize = 0;
        while input_index < qubit_count
            invariant
                input_index <= qubit_count <= 32,
                qubit_count == qubits.len(),
                qubits == qubit_indices@,
                size == block_len(qubit_count as nat),
                state_map@.len() == size,
                c == n_controlled,
                max_qubits matches Some(m) ==> m <= 32,
                max_qubits is None ==> forall|j: int| 0 <= j < qubits.len() ==> qubits[j] < 64,
                first_fault(qubits, max_qubits, 0) == first_fault(
                    qubits,
                    max_qubits,
                    input_index as int,
                ),
                qubits_mask == mask_of(qubits, input_index as nat),
                max_qubits matches Some(m) ==> qubits_mask < (1u64 << (m as u64)),
                distinct_qubits(qubits.subrange(0, input_index as int)),
                forall|q: u8|
                    q < 64 ==> (has_bit(qubits_mask, q as u64) <==> #[trigger] qubits.subrange(
                        0,
                        input_index as int,
                    ).contains(q)),
                forall|j: int|
                    0 <= j < size ==> #[trigger] state_map@[j] == offset_of(
                        j as u64,
                        qubits,
                        c,
                        input_index as nat,
                    ),
            decreases qubit_count - input_index,
        {
            let local_bit_pos = Self::calc_local_bit_pos(input_index, qubit_count, n_controlled);
            let qubit_index = qubit_indices[input_index];
            if let Some(max_qubits) = max_qubits {
                if qubit_index >= max_qubits {
                    return Err(QubitError::IndexOutOfBounds);
                }
            }
            let qubit_mask: u64 = 1u64 << (qubit_index as u64);
            let ghost prior = qubits.subrange(0, input_index as int);
            if qubits_mask & qubit_mask != 0 {
                assert(prior.contains(qubit_index));
                return Err(QubitError::DuplicatedIndex);
            }
            assert(!prior.contains(qubit_index));
            proof {
                let next = qubits.subrange(0, input_index + 1);
                assert forall|a: int, b: int| 0 <= a < b < next.len() implies next[a] != next[b] by {
                    if b == input_index {
                        assert(prior[a] == next[a]);
                    } else {
                        assert(prior[a] == next[a] && prior[b] == next[b]);
                    }
                }
                assert forall|a: int| 0 <= a < next.len() implies #[trigger] next[a] < 64 by {
                    if a < input_index {
                        assert(prior[a] == next[a]);
                    }
                }
            }
            let ghost old_mask = qubits_mask;
            qubits_mask = qubits_mask | qubit_mask;
            proof {
                if let Some(m) = max_qubits {
                    lemma_bit_below_power(qubit_index as u64, m as u64, old_mask);
                }
                let next = qubits.subrange(0, input_index + 1);
                assert forall|q: u8| q < 64 implies (has_bit(qubits_mask, q as u64)
                    <==> #[trigger] next.contains(q)) by {
                    lemma_set_bit(old_mask, qubit_index as u64, q as u64);
                    assert(next =~= prior.push(qubit_index));
                    if prior.contains(q) {
                        let w = choose|w: int| 0 <= w < prior.len() && prior[w] == q;
                        assert(next[w] == q);
                    }
                    if q == qubit_index {
                        assert(next[input_index as int] == q);
                    }
                }
            }
            let mut i: usize = 0;
            while i < size
                invariant
                    i <= size,
                    state_map@.len() == size,
                    input_index < qubit_count == qubits.len(),
                    local_bit_pos == self::local_bit_pos(
                        input_index as nat,
                        qubit_count as nat,
                        c,
                    ),
                    local_bit_pos < 64,
                    qubit_mask == 1u64 << (qubits[input_index as int] as u64),
                    forall|j: int|
                        0 <= j < i ==> #[trigger] state_map@[j] == offset_of(
                            j as u64,
                            qubits,
                            c,
                            (input_index + 1) as nat,
                        ),
                    forall|j: int|
                        i <= j < size ==> #[trigger] state_map@[j] == offset_of(
                            j as u64,
                            qubits,
                            c,
                            input_index as nat,
                        ),
                decreases size - i,
            {
                if (i as u64) & (1u64 << (local_bit_pos as u64)) != 0 {
                    let inner_index = state_map[i];
                    state_map.set(i, inner_index | qubit_mask);
                }
                i += 1;
            }
            input_index += 1;
        }
        proof {
            assert(qubits.subrange(0, qubit_count as int) =~= qubits);
            assert forall|i: int, j: int| 0 <= i < j < state_map@.len() implies state_map@[i]
                != state_map@[j] by {
                lemma_table_injective(i as u64, j as u64, qubits, c);
            }
            lemma_offset_zero(qubits, c, qubit_count as nat);
            assert forall|m: u64| m & !qubits_mask == 0 implies #[trigger] reaches(
                state_map@,
                m,
            ) by {
                let i = lemma_offset_reaches(m, qubits, c, qubit_count as nat);
                assert(state_map@[i as int] == m);
            }
            assert forall|i: int| 0 <= i < state_map@.len() implies #[trigger] state_map@[i]
                & !qubits_mask == 0 by {
                lemma_offset_within_mask(i as u64, qubits, c, qubit_count as nat);
            }
        }
        Ok(MappedGate { gate, state_map, qubits_mask })
    }

    /// Applies the bound gate to all of `state`.
    pub fn apply(&self, state: &mut Vec<Complex64>)
        requires
            self.fits(old(state)@.len()),
        ensures
            final(state)@.len() == old(state)@.len(),
            final(state)@ == self.apply_spec(old(state)@),
        decreases self, 0nat, 1nat,
    {
        assert(state@.subrange(0, state@.len() as int) =~= state@);
        let ghost before = state@;
        self.apply_from(state, 0);
        assert(state@ =~= self.apply_spec(before));
    }

    /// Applies the bound gate to the part of `state` that starts at `start`:
    /// block by block it gathers the local buffer, lets the bound gate act on it,
    /// and writes it back.
    pub(crate) fn apply_from(&self, state: &mut Vec<Complex64>, start: usize)
        requires
            start <= old(state)@.len(),
            self.fits((old(state)@.len() - start) as nat),
        ensures
            final(state)@.len() == old(state)@.len(),
            final(state)@ == old(state)@.subrange(0, start as int) + self.apply_spec(
                old(state)@.subrange(start as int, old(state)@.len() as int),
            ),
        decreases self, 0nat, 0nat,
    {
        let ghost before = state@;
        let ghost head = before.subrange(0, start as int);
        let ghost tail = before.subrange(start as int, before.len() as int);
        let total = state.len();
        let len = total - start;
        let local = self.state_map.len();
        let mut substate: Vec<Complex64> = Vec::with_capacity(local);
        let mut outer_index: u64 = 0;
        let ghost mut cur = tail;
        assert(state@ =~= head + cur);
        proof {
            let m = self.qubits_mask;
            assert(0u64 & m == 0) by (bit_vector);
        }
        while outer_index < len as u64
            invariant
                self.fits(len as nat),
                local == self.state_map@.len(),
                total == state@.len() == before.len(),
                len == total - start,
                cur.len() == len,
                state@ == head + cur,
                head.len() == start,
                outer_index & self.qubits_mask == 0,
                self.blocks_from(cur, outer_index) == self.apply_spec(tail),
            decreases u64::MAX - outer_index,
        {
            proof {
                lemma_or_below_power(outer_index, 0, self.qubits_mask, len as u64);
            }
            substate.clear();
            let mut i: usize = 0;
            while i < local
                invariant
                    i <= local == self.state_map@.len(),
                    self.fits(len as nat),
                    outer_index < len,
                    outer_index & self.qubits_mask == 0,
                    total == state@.len(),
                    len == total - start,
                    state@ == head + cur,
                    head.len() == start,
                    cur.len() == len,
                    substate@.len() == i,
                    forall|j: int|
                        0 <= j < i ==> #[trigger] substate@[j] == cur[(outer_index
                            | self.state_map@[j]) as int],
                decreases local - i,
            {
                let inner_index = self.state_map[i];
                proof {
                    lemma_or_below_power(outer_index, inner_index, self.qubits_mask, len as u64);
                }
                let a = state[start + (outer_index | inner_index) as usize];
                substate.push(a);
                i += 1;
            }
            assert(substate@ =~= self.gathered(cur, outer_index));
            self.gate.apply(&mut substate);
            let ghost block = cur;
            let mut i: usize = 0;
            while i < local
                invariant
                    i <= local == self.state_map@.len(),
                    self.fits(len as nat),
                    outer_index < len,
                    outer_index & self.qubits_mask == 0,
                    total == state@.len(),
                    len == total - start,
                    state@ == head + cur,
                    head.len() == start,
                    cur.len() == len,
                    substate@.len() == local,
                    cur == self.scattered(block, outer_index, substate@, i as nat),
                decreases local - i,
            {
                let inner_index = self.state_map[i];
                proof {
                    lemma_or_below_power(outer_index, inner_index, self.qubits_mask, len as u64);
                }
                let a = substate[i];
                state.set(start + (outer_index | inner_index) as usize, a);
                proof {
                    let ghost next = cur.update((outer_index | inner_index) as int, a);
                    assert(state@ =~= head + next);
                    cur = next;
                }
                i += 1;
            }
            assert(cur == self.block_spec(block, outer_index));
            proof {
                lemma_next_residual(outer_index, self.qubits_mask);
                assert(self.blocks_from(block, outer_index) == self.blocks_from(
                    self.block_spec(block, outer_index),
                    next_residual(outer_index, self.qubits_mask),
                ));
            }
            outer_index = ((outer_index | self.qubits_mask) + 1) & !self.qubits_mask;
        }
    }
}

impl Circuit {
    /// Every gate is well formed and stays under the qubit count.
    pub open spec fn well_formed(self) -> bool {
        &&& self.qubit_count matches Some(n) ==> n <= 32
        &&& forall|i: int|
            0 <= i < self.gates@.len() ==> {
                &&& (#[trigger] self.gates@[i]).well_formed()
                &&& self.qubit_count matches Some(n) ==> self.gates@[i].qubits_mask < (1u64 << (
                n as u64))
            }
    }

    /// Whether every gate can act on a state of `len` amplitudes.
    pub open spec fn fits(self, len: nat) -> bool
        decreases self, 0nat, 0nat,
    {
        forall|i: int| 0 <= i < self.gates@.len() ==> (#[trigger] self.gates@[i]).fits(len)
    }

    /// The state after the first `n` gates have acted on `s`, in order.
    pub open spec fn apply_upto(self, s: Seq<Complex64>, n: nat) -> Seq<Complex64>
        decreases self, n, 0nat,
    {
        if n == 0 || n > self.gates@.len() {
            s
        } else {
            self.gates@[n - 1].blocks_from(self.apply_upto(s, (n - 1) as nat), 0)
        }
    }

    /// The state after the whole circuit has acted on `s`.
    pub open spec fn apply_spec(self, s: Seq<Complex64>) -> Seq<Complex64> {
        self.apply_upto(s, self.gates@.len())
    }

    /// An empty circuit on `qubit_count` qubits.
    pub fn new(qubit_count: u8) -> (r: Circuit)
        requires
            1 <= qubit_count <= 32,
        ensures
            r.qubit_count == Some(qubit_count),
            r.gates@.len() == 0,
            r.well_formed(),
    {
        Circuit { qubit_count: Some(qubit_count), gates: Vec::new() }
    }

    /// Binds `gate` to `qubit_indices`, given as `[controls.., targets..]`,
    /// and appends it. On an error the circuit is left as it was.
    pub fn add_gate(&mut self, gate: Gate, qubit_indices: &[u8]) -> (r: Result<(), QubitError>)
        requires
            old(self).well_formed(),
            qubit_indices@.len() <= 32,
            block_len(qubit_indices@.len()) <= usize::MAX,
            gate.fits(block_len(qubit_indices@.len())),
            old(self).qubit_count is None ==> forall|j: int|
                0 <= j < qubit_indices@.len() ==> qubit_indices@[j] < 64,
        ensures
            final(self).well_formed(),
            final(self).qubit_count == old(self).qubit_count,
            match first_fault(qubit_indices@, old(self).qubit_count, 0) {
                Some(e) => r == Err::<(), QubitError>(e) && final(self).gates@ == old(
                    self,
                ).gates@,
                None => {
                    &&& r is Ok
                    &&& final(self).gates@.len() == old(self).gates@.len() + 1
                    &&& final(self).gates@.subrange(0, old(self).gates@.len() as int) == old(
                        self,
                    ).gates@
                    &&& binds(final(self).gates@.last(), gate, qubit_indices@)
                },
            },
    {
        match MappedGate::new(gate, qubit_indices, self.qubit_count) {
            Ok(mapped) => {
                let ghost before = self.gates@;
                self.gates.push(mapped);
                assert(self.gates@.subrange(0, before.len() as int) =~= before);
                Ok(())
            },
            Err(e) => Err(e),
        }
    }

    /// A circuit of one gate, tied to no qubit count.
    pub fn from_gate(gate: Gate, qubit_indices: &[u8]) -> (r: Result<Circuit, QubitError>)
        requires
            qubit_indices@.len() <= 32,
            block_len(qubit_indices@.len()) <= usize::MAX,
            gate.fits(block_len(qubit_indices@.len())),
            forall|j: int| 0 <= j < qubit_indices@.len() ==> qubit_indices@[j] < 64,
        ensures
            match first_fault(qubit_indices@, None, 0) {
                Some(e) => r == Err::<Circuit, QubitError>(e),
                None => {
                    &&& r is Ok
                    &&& r->Ok_0.qubit_count is None
                    &&& r->Ok_0.gates@.len() == 1
                    &&& binds(r->Ok_0.gates@[0], gate, qubit_indices@)
                    &&& r->Ok_0.well_formed()
                },
            },
    {
        match MappedGate::new(gate, qubit_indices, None) {
            Ok(mapped) => {
                let mut gates: Vec<MappedGate> = Vec::new();
                gates.push(mapped);
                Ok(Circuit { qubit_count: None, gates })
            },
            Err(e) => Err(e),
        }
    }

    /// Whether the circuit can be applied to a state of `len` amplitudes.
    pub fn accepts(&self, len: usize) -> (ok: bool)
        requires
            forall|i: int| 0 <= i < self.gates@.len() ==> (#[trigger] self.gates@[i]).well_formed(),
        ensures
            ok == self.fits(len as nat),
    {
        let n = self.gates.len();
        if n == 0 {
            return true;
        }
        assert(self.gates@[0].well_formed());
        if len == 0 || (len as u64) & ((len - 1) as u64) != 0 {
            assert(!self.gates@[0].fits(len as nat));
            return false;
        }
        let mut i: usize = 0;
        while i < n
            invariant
                i <= n == self.gates@.len(),
                is_power_of_two(len as nat),
                forall|i: int|
                    0 <= i < self.gates@.len() ==> (#[trigger] self.gates@[i]).well_formed(),
                forall|j: int| 0 <= j < i ==> (#[trigger] self.gates@[j]).fits(len as nat),
            decreases n - i,
        {
            assert(self.gates@[i as int].well_formed());
            if self.gates[i].qubits_mask >= len as u64 {
                assert(!self.gates@[i as int].fits(len as nat));
                return false;
            }
            assert(self.gates@[i as int].fits(len as nat));
            i += 1;
        }
        true
    }

    /// The circuit as one composite gate.
    pub fn into_gate(self) -> (r: Gate)
        ensures
            r == Gate::Circuit(self),
    {
        Gate::circuit(self)
    }

    /// The adjoint circuit: the gates in reverse order, each replaced by its
    /// adjoint and bound as before.
    pub fn inverse(&self) -> (r: Circuit)
        ensures
            self.inverted_by(r),
            forall|len: nat| self.fits(len) ==> r.fits(len),
            self.well_formed() ==> r.well_formed(),
        decreases self, 0nat,
    {
        let n = self.gates.len();
        let mut inverted_gates: Vec<MappedGate> = Vec::new();
        let mut i: usize = n;
        while i > 0
            invariant
                i <= n == self.gates@.len(),
                inverted_gates@.len() == n - i,
                forall|j: int|
                    0 <= j < n - i ==> mirrors(self.gates@[n - 1 - j], #[trigger] inverted_gates@[j]),
            decreases i,
        {
            i -= 1;
            let mapped_gate = &self.gates[i];
            let gate = mapped_gate.gate.inverse();
            let state_map = mapped_gate.state_map.clone();
            assert(state_map@ =~= mapped_gate.state_map@);
            inverted_gates.push(
                MappedGate { gate, state_map, qubits_mask: mapped_gate.qubits_mask },
            );
        }
        let r = Circuit { qubit_count: self.qubit_count, gates: inverted_gates };
        proof {
            assert forall|k: int| 0 <= k < n implies {
                let a = #[trigger] self.gates@[k];
                let b = r.gates@[n - 1 - k];
                &&& b.state_map@ == a.state_map@
                &&& b.qubits_mask == a.qubits_mask
                &&& a.gate.inverted_by(b.gate)
            } by {
                assert(mirrors(self.gates@[k], r.gates@[n - 1 - k]));
            }
            assert forall|len: nat| self.fits(len) implies r.fits(len) by {
                assert forall|j: int| 0 <= j < r.gates@.len() implies (#[trigger] r.gates@[j]).fits(
                    len,
                ) by {
                    let a = self.gates@[n - 1 - j];
                    let b = r.gates@[j];
                    assert(mirrors(a, b));
                    assert(a.fits(len));
                    assert(a.gate.fits(a.state_map@.len()));
                    assert(b.gate.fits(a.state_map@.len()));
                    assert(b.table_ok());
                }
            }
            if self.well_formed() {
                assert forall|j: int| 0 <= j < r.gates@.len() implies (
                #[trigger] r.gates@[j]).well_formed() && (self.qubit_count matches Some(m)
                    ==> r.gates@[j].qubits_mask < (1u64 << (m as u64))) by {
                    assert(mirrors(self.gates@[n - 1 - j], r.gates@[j]));
                    assert(self.gates@[n - 1 - j].well_formed());
                }
            }
        }
        r
    }

    /// Applies the gates in order to all of `state`.
    pub fn apply(&self, state: &mut Vec<Complex64>)
        requires
            self.fits(old(state)@.len()),
        ensures
            final(state)@.len() == old(state)@.len(),
            final(state)@ == self.apply_spec(old(state)@),
        decreases self, 0nat, 3nat,
    {
        assert(state@.subrange(0, state@.len() as int) =~= state@);
        let ghost before = state@;
        self.apply_from(state, 0);
        assert(state@ =~= self.apply_spec(before));
    }

    /// Applies the gates in order to the part of `state` that starts at
    /// `start`.
    pub(crate) fn apply_from(&self, state: &mut Vec<Complex64>, start: usize)
        requires
            start <= old(state)@.len(),
            self.fits((old(state)@.len() - start) as nat),
        ensures
            final(state)@.len() == old(state)@.len(),
            final(state)@ == old(state)@.subrange(0, start as int) + self.apply_upto(
                old(state)@.subrange(start as int, old(state)@.len() as int),
                self.gates@.len(),
            ),
        decreases self, 0nat, 2nat,
    {
        let ghost before = state@;
        let ghost head = before.subrange(0, start as int);
        let ghost tail = before.subrange(start as int, before.len() as int);
        assert(state@ =~= head + tail);
        let mut i: usize = 0;
        while i < self.gates.len()
            invariant
                i <= self.gates@.len(),
                start <= before.len(),
                state@.len() == before.len(),
                self.fits((before.len() - start) as nat),
                head == before.subrange(0, start as int),
                tail == before.subrange(start as int, before.len() as int),
                state@ == head + self.apply_upto(tail, i as nat),
            decreases self.gates@.len() - i,
        {
            let ghost mid = self.apply_upto(tail, i as nat);
            assert(state@.subrange(0, start as int) =~= head);
            assert(state@.subrange(start as int, state@.len() as int) =~= mid);
            let gate = &self.gates[i];
            assert(self.apply_upto(tail, (i + 1) as nat) == self.gates@[i as int].blocks_from(mid, 0));
            gate.apply_from(state, start);
            i += 1;
        }
    }

    /// Whether `other` is a copy of this circuit: the same qubit count and,
    /// place by place, the same table and mask with a copy of the bound gate.
    pub open spec fn same_as(self, other: Circuit) -> bool
        decreases self, 0nat,
    {
        &&& other.qubit_count == self.qubit_count
        &&& other.gates@.len() == self.gates@.len()
        &&& forall|i: int|
            0 <= i < self.gates@.len() ==> {
                let a = #[trigger] self.gates@[i];
                let b = other.gates@[i];
                &&& b.state_map@ == a.state_map@
                &&& b.qubits_mask == a.qubits_mask
                &&& a.gate.same_as(b.gate)
            }
    }

    /// A deep copy of this circuit.
    pub fn duplicate(&self) -> (r: Circuit)
        ensures
            self.same_as(r),
            self.well_formed() ==> r.well_formed(),
        decreases self, 0nat,
    {
        let n = self.gates.len();
        let mut gates: Vec<MappedGate> = Vec::new();
        let mut i: usize = 0;
        while i < n
            invariant
                i <= n == self.gates@.len(),
                gates@.len() == i,
                forall|j: int|
                    0 <= j < i ==> {
                        let a = self.gates@[j];
                        let b = #[trigger] gates@[j];
                        &&& b.state_map@ == a.state_map@
                        &&& b.qubits_mask == a.qubits_mask
                        &&& a.gate.same_as(b.gate)
                    },
            decreases n - i,
        {
            let mapped_gate = &self.gates[i];
            let gate = mapped_gate.gate.duplicate();
            let state_map = mapped_gate.state_map.clone();
            assert(state_map@ =~= mapped_gate.state_map@);
            gates.push(MappedGate { gate, state_map, qubits_mask: mapped_gate.qubits_mask });
            i += 1;
        }
        let r = Circuit { qubit_count: self.qubit_count, gates };
        proof {
            assert forall|i: int| 0 <= i < n implies {
                let a = #[trigger] self.gates@[i];
                let b = r.gates@[i];
                &&& b.state_map@ == a.state_map@
                &&& b.qubits_mask == a.qubits_mask
                &&& a.gate.same_as(b.gate)
            } by {
                let b = r.gates@[i];
            }
            if self.well_formed() {
                assert forall|j: int| 0 <= j < r.gates@.len() implies (
                #[trigger] r.gates@[j]).well_formed() && (self.qubit_count matches Some(m)
                    ==> r.gates@[j].qubits_mask < (1u64 << (m as u64))) by {
                    let a = self.gates@[j];
                    let b = r.gates@[j];
                    assert(a.well_formed());
                    lemma_copy_fits(a.gate, b.gate, a.state_map@.len());
                    assert(b.table_ok());
                }
            }
        }
        r
    }

    /// Whether `other` holds the adjoints of this circuit's gates in reverse
    /// order, each with the table and mask of this gate it inverts.
    pub open spec fn inverted_by(self, other: Circuit) -> bool
        decreases self, 0nat,
    {
        &&& other.qubit_count == self.qubit_count
        &&& other.gates@.len() == self.gates@.len()
        &&& forall|i: int|
            0 <= i < self.gates@.len() ==> {
                let a = #[trigger] self.gates@[i];
                let b = other.gates@[self.gates@.len() - 1 - i];
                &&& b.state_map@ == a.state_map@
                &&& b.qubits_mask == a.qubits_mask
                &&& a.gate.inverted_by(b.gate)
            }
    }
}

} // verus!
