//! Laws of the block walk: a bound gate acts on each residual block on its
//! own, and the walk over the blocks reaches every one of them.

use crate::bits::{
    has_bit, lemma_next_residual, lemma_no_residual_between, lemma_or_below_power, next_residual,
};
use crate::circuit::{
    binds, bound_controls, distinct_qubits, lemma_offset_bit, local_bit_pos, offset_of, reaches,
    Circuit, MappedGate,
};
use crate::gate::Gate;
use num_complex::Complex64;
use vstd::prelude::*;

verus! {

/// A global index tells its residual and its offset apart: the bits outside
/// the mask are the residual, those inside are the offset.
pub proof fn lemma_split_index(o: u64, a: u64, mask: u64)
    requires
        o & mask == 0,
        a & !mask == 0,
    ensures
        (o | a) & !mask == o,
        (o | a) & mask == a,
{
    assert(o & mask == 0 && a & !mask == 0 ==> (o | a) & !mask == o && (o | a) & mask == a)
        by (bit_vector);
}

/// Whether every global index of the block with residual `o` lies in a
/// state of `len` amplitudes.
pub open spec fn block_in_range(m: MappedGate, o: u64, len: nat) -> bool {
    forall|i: int| 0 <= i < m.state_map@.len() ==> (o | #[trigger] m.state_map@[i]) < len
}

/// Writing a local buffer back keeps the length of the state.
proof fn lemma_scattered_len(m: MappedGate, s: Seq<Complex64>, o: u64, sub: Seq<Complex64>, n: nat)
    requires
        n <= m.state_map@.len(),
        block_in_range(m, o, s.len()),
    ensures
        m.scattered(s, o, sub, n).len() == s.len(),
    decreases n,
{
    if n > 0 {
        lemma_scattered_len(m, s, o, sub, (n - 1) as nat);
        assert((o | m.state_map@[n - 1]) < s.len());
    }
}

/// Writing a local buffer back puts entry `i` at the global index of `i`.
proof fn lemma_scattered_hit(
    m: MappedGate,
    s: Seq<Complex64>,
    o: u64,
    sub: Seq<Complex64>,
    n: nat,
    i: int,
)
    requires
        m.table_ok(),
        o & m.qubits_mask == 0,
        0 <= i < n <= m.state_map@.len(),
        block_in_range(m, o, s.len()),
    ensures
        m.scattered(s, o, sub, n)[(o | m.state_map@[i]) as int] == sub[i],
    decreases n,
{
    lemma_scattered_len(m, s, o, sub, (n - 1) as nat);
    assert((o | m.state_map@[n - 1]) < s.len());
    assert((o | m.state_map@[i]) < s.len());
    if i < n - 1 {
        lemma_scattered_hit(m, s, o, sub, (n - 1) as nat, i);
        lemma_split_index(o, m.state_map@[i], m.qubits_mask);
        lemma_split_index(o, m.state_map@[n - 1], m.qubits_mask);
        assert(m.state_map@[i] != m.state_map@[n - 1]);
    }
}

/// Writing a local buffer back leaves every index outside the block as it
/// was.
proof fn lemma_scattered_miss(
    m: MappedGate,
    s: Seq<Complex64>,
    o: u64,
    sub: Seq<Complex64>,
    n: nat,
    x: int,
)
    requires
        n <= m.state_map@.len(),
        block_in_range(m, o, s.len()),
        0 <= x < s.len(),
        forall|i: int| 0 <= i < n ==> x != (o | #[trigger] m.state_map@[i]),
    ensures
        m.scattered(s, o, sub, n)[x] == s[x],
    decreases n,
{
    if n > 0 {
        lemma_scattered_len(m, s, o, sub, (n - 1) as nat);
        lemma_scattered_miss(m, s, o, sub, (n - 1) as nat, x);
        assert((o | m.state_map@[n - 1]) < s.len());
        assert(x != (o | m.state_map@[n - 1]));
    }
}

/// Acting on one block leaves the local buffer of every other block as it
/// was.
proof fn lemma_other_block_untouched(m: MappedGate, s: Seq<Complex64>, o: u64, o2: u64, j: int)
    requires
        m.table_ok(),
        o & m.qubits_mask == 0,
        o2 & m.qubits_mask == 0,
        o != o2,
        block_in_range(m, o, s.len()),
        block_in_range(m, o2, s.len()),
        0 <= j < m.state_map@.len(),
    ensures
        m.block_spec(s, o)[(o2 | m.state_map@[j]) as int] == s[(o2 | m.state_map@[j]) as int],
{
    let x = (o2 | m.state_map@[j]) as int;
    let sub = m.gate.apply_spec(m.gathered(s, o));
    assert((o2 | m.state_map@[j]) < s.len());
    assert forall|i: int| 0 <= i < m.state_map@.len() implies x != (o | #[trigger] m.state_map@[i]) by {
        lemma_split_index(o, m.state_map@[i], m.qubits_mask);
        lemma_split_index(o2, m.state_map@[j], m.qubits_mask);
    }
    lemma_scattered_miss(m, s, o, sub, m.state_map@.len(), x);
}

/// Every block of a state that the bound gate fits lies within the state.
proof fn lemma_fits_in_range(m: MappedGate, o: u64, len: nat)
    requires
        m.fits(len),
        o & m.qubits_mask == 0,
        o < len,
    ensures
        block_in_range(m, o, len),
        (o | m.qubits_mask) < len,
{
    lemma_or_below_power(o, 0, m.qubits_mask, len as u64);
    assert forall|i: int| 0 <= i < m.state_map@.len() implies (o | #[trigger] m.state_map@[i])
        < len by {
        lemma_or_below_power(o, m.state_map@[i], m.qubits_mask, len as u64);
    }
}

/// After the walk from residual `o`, each block from `o` upwards holds what
/// its gate made of the block's own amplitudes, and each block below `o` is
/// as it was.
pub proof fn lemma_walk_blockwise(m: MappedGate, s: Seq<Complex64>, o: u64, o2: u64, i: int)
    requires
        m.fits(s.len()),
        o & m.qubits_mask == 0,
        o2 & m.qubits_mask == 0,
        o2 < s.len(),
        0 <= i < m.state_map@.len(),
    ensures
        m.blocks_from(s, o).len() == s.len(),
        o2 >= o ==> m.blocks_from(s, o)[(o2 | m.state_map@[i]) as int] == m.gate.apply_spec(
            m.gathered(s, o2),
        )[i],
        o2 < o ==> m.blocks_from(s, o)[(o2 | m.state_map@[i]) as int] == s[(o2
            | m.state_map@[i]) as int],
    decreases u64::MAX - o,
{
    if o < s.len() {
        let mask = m.qubits_mask;
        lemma_fits_in_range(m, o, s.len());
        lemma_fits_in_range(m, o2, s.len());
        lemma_next_residual(o, mask);
        let next = next_residual(o, mask);
        let s1 = m.block_spec(s, o);
        let sub = m.gate.apply_spec(m.gathered(s, o));
        lemma_scattered_len(m, s, o, sub, m.state_map@.len());
        assert(m.blocks_from(s, o) == m.blocks_from(s1, next));
        lemma_walk_blockwise(m, s1, next, o2, i);
        if o2 == o {
            lemma_scattered_hit(m, s, o, sub, m.state_map@.len(), i);
        } else {
            lemma_other_block_untouched(m, s, o, o2, i);
            if o2 > o {
                if o2 < next {
                    lemma_no_residual_between(o, o2, mask);
                }
                assert(m.gathered(s1, o2) =~= m.gathered(s, o2)) by {
                    assert forall|j: int| 0 <= j < m.state_map@.len() implies m.gathered(s1, o2)[j]
                        == m.gathered(s, o2)[j] by {
                        lemma_other_block_untouched(m, s, o, o2, j);
                    }
                }
            }
        }
    }
}

/// A bound gate acts on each residual block on its own: after it has acted
/// on a state, the amplitude at local index `i` of the block with residual
/// `o` is entry `i` of what its gate makes of that block's amplitudes before.
pub proof fn lemma_apply_blockwise(m: MappedGate, s: Seq<Complex64>, o: u64, i: int)
    requires
        m.fits(s.len()),
        o & m.qubits_mask == 0,
        o < s.len(),
        0 <= i < m.state_map@.len(),
    ensures
        m.apply_spec(s).len() == s.len(),
        m.apply_spec(s)[(o | m.state_map@[i]) as int] == m.gate.apply_spec(m.gathered(s, o))[i],
{
    let mask = m.qubits_mask;
    assert(0u64 & mask == 0) by (bit_vector);
    lemma_walk_blockwise(m, s, 0, o, i);
}

/// A controlled gate leaves the lower half of its local buffer as it was.
pub proof fn lemma_control_keeps_lower_half(inner: Gate, s: Seq<Complex64>, i: int)
    requires
        0 <= i < s.len() / 2,
    ensures
        Gate::Controlled(Box::new(inner)).apply_spec(s)[i] == s[i],
{
}

/// A gate under more than `p` controls leaves a local buffer of `2^k`
/// amplitudes as it was at every local index whose control bit `k - 1 - p`
/// is 0.
pub proof fn lemma_controls_keep(g: Gate, s: Seq<Complex64>, k: u64, p: u64, local: u64)
    requires
        g.control_depth() > p,
        p < k <= 32,
        s.len() == (1u64 << k),
        g.fits(s.len()),
        local < s.len(),
        !has_bit(local, (k - 1 - p) as u64),
    ensures
        g.apply_spec(s)[local as int] == s[local as int],
    decreases p,
{
    let half = 1u64 << ((k - 1) as u64);
    let len = 1u64 << k;
    let top = (k - 1) as u64;
    assert(len / 2 == half && len - len / 2 == half) by (bit_vector)
        requires
            1 <= k <= 32,
            top == k - 1,
            len == 1u64 << k,
            half == 1u64 << top,
    ;
    match g {
        Gate::Controlled(inner) => {
            if local < half {
                lemma_control_keeps_lower_half(*inner, s, local as int);
            } else {
                let bit = (k - 1 - p) as u64;
                let rest = (local - half) as u64;
                assert(local & (1u64 << top) != 0 && (bit < top ==> rest & (1u64 << bit) == local
                    & (1u64 << bit))) by (bit_vector)
                    requires
                        1 <= k <= 32,
                        top == k - 1,
                        bit <= top,
                        half == 1u64 << top,
                        half <= local,
                        local < (1u64 << k),
                        rest == local - half,
                ;
                assert(p >= 1);
                let upper = s.subrange(half as int, len as int);
                lemma_gate_keeps_len(*inner, upper);
                lemma_controls_keep(*inner, upper, top, (p - 1) as u64, rest);
            }
        },
        _ => {},
    }
}

/// Where one of its control qubits is 0, a bound gate leaves the amplitude
/// as it was.
pub proof fn lemma_clear_control_untouched(
    mg: MappedGate,
    qubits: Seq<u8>,
    p: nat,
    s: Seq<Complex64>,
    x: u64,
)
    requires
        binds(mg, mg.gate, qubits),
        qubits.len() <= 32,
        p < bound_controls(mg.gate, qubits.len()),
        distinct_qubits(qubits),
        mg.fits(s.len()),
        x < s.len(),
        !has_bit(x, qubits[p as int] as u64),
    ensures
        mg.apply_spec(s)[x as int] == s[x as int],
{
    let mask = mg.qubits_mask;
    let k = qubits.len();
    let c = bound_controls(mg.gate, k);
    let q = qubits[p as int] as u64;
    assert(qubits[p as int] < 64);
    let o = x & !mask;
    let a = x & mask;
    assert(o & mask == 0 && a & !mask == 0 && (o | a) == x && o <= x) by (bit_vector)
        requires
            o == x & !mask,
            a == x & mask,
    ;
    assert(a & (1u64 << q) == 0) by (bit_vector)
        requires
            x & (1u64 << q) == 0,
            a == x & mask,
    ;
    assert(reaches(mg.state_map@, a));
    let i = choose|i: int| 0 <= i < mg.state_map@.len() && mg.state_map@[i] == a;
    assert(mg.state_map@[i] == offset_of(i as u64, qubits, c, k));
    assert(local_bit_pos(p, k, c) == k - 1 - p);
    lemma_offset_bit(i as u64, qubits, c, k, p);
    lemma_apply_blockwise(mg, s, o, i);
    let sub = mg.gathered(s, o);
    assert(sub.len() == mg.state_map@.len());
    lemma_controls_keep(mg.gate, sub, k as u64, p as u64, i as u64);
}

/// A gate keeps the length of every local buffer that it fits.
pub proof fn lemma_gate_keeps_len(g: Gate, s: Seq<Complex64>)
    requires
        g.fits(s.len()),
    ensures
        g.apply_spec(s).len() == s.len(),
    decreases g, 0nat,
{
    match g {
        Gate::Controlled(inner) => {
            lemma_gate_keeps_len(*inner, s.subrange((s.len() / 2) as int, s.len() as int));
        },
        Gate::Circuit(c) => {
            lemma_circuit_keeps_len(c, s, c.gates@.len());
        },
        _ => {},
    }
}

/// The first `n` gates of a circuit keep the length of every state that the
/// circuit fits.
pub proof fn lemma_circuit_keeps_len(c: Circuit, s: Seq<Complex64>, n: nat)
    requires
        c.fits(s.len()),
        n <= c.gates@.len(),
    ensures
        c.apply_upto(s, n).len() == s.len(),
    decreases c, n,
{
    if n > 0 {
        lemma_circuit_keeps_len(c, s, (n - 1) as nat);
        let m = c.gates@[n - 1];
        let before = c.apply_upto(s, (n - 1) as nat);
        assert(m.fits(s.len()));
        let mask = m.qubits_mask;
        assert(0u64 & mask == 0) by (bit_vector);
        lemma_walk_blockwise(m, before, 0, 0, 0);
    }
}

} // verus!
