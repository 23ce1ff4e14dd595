use std::f64::consts::{FRAC_1_SQRT_2, PI};

use num_complex::Complex64;
use qvass::qft::build_qft_circuit;
use qvass::{Circuit, Gate, MappedGate, QubitError};

fn c(re: f64, im: f64) -> Complex64 {
    Complex64::new(re, im)
}

fn basis(len: usize, one_index: usize) -> Vec<Complex64> {
    let mut state = vec![Complex64::ZERO; len];
    state[one_index] = Complex64::ONE;
    state
}

fn phase_radians(angle: f64) -> Gate {
    Gate::Phase(Complex64::new(0.0, angle).exp())
}

fn phase_fraction(fraction: f64) -> Gate {
    phase_radians(2.0 * PI * fraction)
}

fn dyadic_phases(n_qubits: u8) -> Vec<Complex64> {
    (0..=u32::from(n_qubits))
        .map(|d| Complex64::new(0.0, 2.0 * PI * (1f64 / (1u64 << d) as f64)).exp())
        .collect()
}

fn qft_gate(n_qubits: u8) -> Gate {
    build_qft_circuit(n_qubits, &dyadic_phases(n_qubits))
        .unwrap()
        .into_gate()
}

fn fourier(len: usize, x: usize, offset: usize, stride: usize, total: usize) -> Vec<Complex64> {
    let mut state = vec![Complex64::ZERO; total];
    let scale = 1.0 / (len as f64).sqrt();
    for k in 0..len {
        let angle = 2.0 * PI * (x * k) as f64 / len as f64;
        state[offset + stride * k] = Complex64::new(0.0, angle).exp() * scale;
    }
    state
}

fn assert_state_eq(actual: &[Complex64], expected: &[Complex64]) {
    let tolerance = 1e-6;
    assert_eq!(expected.len(), actual.len());
    assert!(
        expected
            .iter()
            .zip(actual.iter())
            .all(|(exp, act)| (*exp - *act).l1_norm() < tolerance),
        "Vectors differs:\n  actual: {:?}\n  expect: {:?}",
        actual,
        expected,
    );
}

fn norm_sqr(state: &[Complex64]) -> f64 {
    state.iter().map(|amp| amp.norm_sqr()).sum()
}

fn run_case(gate: Gate, qubits: &[u8], initial: Vec<Complex64>, expected: Vec<Complex64>) {
    let circuit = Circuit::from_gate(gate, qubits).unwrap();
    let mut state = initial.clone();
    assert!((norm_sqr(&expected) - 1.0).abs() < 1e-6);
    assert!((norm_sqr(&state) - 1.0).abs() < 1e-6);

    circuit.apply(&mut state);
    assert_state_eq(&state, &expected);
    assert!((norm_sqr(&state) - 1.0).abs() < 1e-6);

    // Roundtrip: the inverse returns to the initial state.
    let inverse_circuit = circuit.inverse();
    inverse_circuit.apply(&mut state);
    assert_state_eq(&state, &initial);
}

#[test]
fn hadamard_gate() {
    let h = FRAC_1_SQRT_2;
    run_case(Gate::hadamard(), &[0], basis(2, 0), vec![c(h, 0.0), c(h, 0.0)]);
    run_case(Gate::hadamard(), &[0], basis(2, 1), vec![c(h, 0.0), c(-h, 0.0)]);
    run_case(
        Gate::hadamard(),
        &[1],
        basis(4, 0),
        vec![c(h, 0.0), c(0.0, 0.0), c(h, 0.0), c(0.0, 0.0)],
    );
    run_case(
        Gate::hadamard(),
        &[1],
        basis(4, 3),
        vec![c(0.0, 0.0), c(h, 0.0), c(0.0, 0.0), c(-h, 0.0)],
    );
    run_case(
        Gate::hadamard(),
        &[0],
        vec![c(0.6, 0.0), c(0.0, 0.8)],
        vec![c(0.6 * h, 0.8 * h), c(0.6 * h, -0.8 * h)],
    );
}

#[test]
fn not_gate() {
    run_case(Gate::not(), &[0], basis(2, 0), basis(2, 1));
    run_case(Gate::not(), &[0], basis(2, 1), basis(2, 0));
    run_case(Gate::not(), &[1], basis(4, 1), basis(4, 3));
    run_case(Gate::not(), &[2], basis(8, 6), basis(8, 2));
}

#[test]
fn phase_gate() {
    let h = FRAC_1_SQRT_2;
    run_case(
        phase_fraction(0.25),
        &[0],
        vec![c(h, 0.0), c(h, 0.0)],
        vec![c(h, 0.0), c(0.0, h)],
    );
    run_case(phase_fraction(0.5), &[0], basis(2, 1), vec![c(0.0, 0.0), c(-1.0, 0.0)]);
    run_case(phase_fraction(0.5), &[0], basis(2, 0), basis(2, 0));
    run_case(
        phase_fraction(0.125),
        &[1],
        vec![c(0.5, 0.0), c(0.5, 0.0), c(0.5, 0.0), c(0.5, 0.0)],
        vec![c(0.5, 0.0), c(0.5, 0.0), c(0.5 * h, 0.5 * h), c(0.5 * h, 0.5 * h)],
    );
}

#[test]
fn cnot_gate() {
    run_case(Gate::cnot(), &[0, 1], basis(4, 0), basis(4, 0));
    run_case(Gate::cnot(), &[0, 1], basis(4, 1), basis(4, 3));
    run_case(Gate::cnot(), &[0, 1], basis(4, 2), basis(4, 2));
    run_case(Gate::cnot(), &[0, 1], basis(4, 3), basis(4, 1));
    run_case(Gate::cnot(), &[1, 0], basis(4, 2), basis(4, 3));
    run_case(Gate::cnot(), &[2, 0], basis(8, 4), basis(8, 5));
}

#[test]
fn swap_gate() {
    run_case(Gate::swap(), &[0, 1], basis(4, 1), basis(4, 2));
    run_case(Gate::swap(), &[0, 1], basis(4, 2), basis(4, 1));
    run_case(Gate::swap(), &[0, 1], basis(4, 0), basis(4, 0));
    run_case(Gate::swap(), &[0, 1], basis(4, 3), basis(4, 3));
    run_case(Gate::swap(), &[0, 2], basis(8, 3), basis(8, 6));
}

#[test]
fn toffoli_gate() {
    run_case(Gate::toffoli(), &[0, 1, 2], basis(8, 3), basis(8, 7));
    run_case(Gate::toffoli(), &[0, 1, 2], basis(8, 7), basis(8, 3));
    run_case(Gate::toffoli(), &[0, 1, 2], basis(8, 5), basis(8, 5));
    run_case(Gate::toffoli(), &[0, 1, 2], basis(8, 2), basis(8, 2));
    run_case(Gate::toffoli(), &[2, 1, 0], basis(8, 6), basis(8, 7));
}

#[test]
fn fredkin_gate() {
    run_case(Gate::fredkin(), &[0, 1, 2], basis(8, 3), basis(8, 5));
    run_case(Gate::fredkin(), &[0, 1, 2], basis(8, 5), basis(8, 3));
    run_case(Gate::fredkin(), &[0, 1, 2], basis(8, 2), basis(8, 2));
    run_case(Gate::fredkin(), &[0, 1, 2], basis(8, 7), basis(8, 7));
    run_case(Gate::fredkin(), &[2, 0, 1], basis(8, 5), basis(8, 6));
}

#[test]
fn qft_circuit() {
    for n_qubits in 1u8..=4 {
        let len = 1usize << n_qubits;
        let qubits: Vec<u8> = (0..n_qubits).collect();
        for x in 0..len {
            run_case(qft_gate(n_qubits), &qubits, basis(len, x), fourier(len, x, 0, 1, len));
        }
    }
}

#[test]
fn cqft_circuit() {
    // Control on qubit 0, the transform on qubits 1 and 2.
    run_case(qft_gate(2).control(), &[0, 1, 2], basis(8, 3), fourier(4, 1, 1, 2, 8));
    run_case(qft_gate(2).control(), &[0, 1, 2], basis(8, 5), fourier(4, 2, 1, 2, 8));
    run_case(qft_gate(2).control(), &[0, 1, 2], basis(8, 2), basis(8, 2));
    run_case(qft_gate(2).control(), &[0, 1, 2], basis(8, 6), basis(8, 6));
}

#[test]
fn ccqft_circuit() {
    // Controls on qubits 0 and 1, the transform on qubits 2 and 3.
    run_case(qft_gate(2).multi_control(2), &[0, 1, 2, 3], basis(16, 7), fourier(4, 1, 3, 4, 16));
    run_case(qft_gate(2).multi_control(2), &[0, 1, 2, 3], basis(16, 15), fourier(4, 3, 3, 4, 16));

    run_case(qft_gate(2).multi_control(2), &[0, 1, 2, 3], basis(16, 5), basis(16, 5));
    run_case(qft_gate(2).multi_control(2), &[0, 1, 2, 3], basis(16, 6), basis(16, 6));
}

#[test]
fn double_control_equals_multi_control_two() {
    for start in 0..8 {
        let mut a = basis(8, start);
        let mut b = basis(8, start);
        let first = Circuit::from_gate(Gate::not().control().control(), &[0, 1, 2]).unwrap();
        let second = Circuit::from_gate(Gate::not().multi_control(2), &[0, 1, 2]).unwrap();
        first.apply(&mut a);
        second.apply(&mut b);
        assert_eq!(a, b);
    }
    for start in 0..16 {
        let mut a = basis(16, start);
        let mut b = basis(16, start);
        let first = Circuit::from_gate(Gate::swap().control().control(), &[3, 1, 0, 2]).unwrap();
        let second = Circuit::from_gate(Gate::swap().multi_control(2), &[3, 1, 0, 2]).unwrap();
        assert_eq!(first.gates[0].state_map, second.gates[0].state_map);
        first.apply(&mut a);
        second.apply(&mut b);
        assert_eq!(a, b);
    }
    assert_eq!(Gate::hadamard().multi_control(0).count_controlled(), 0);
    assert_eq!(Gate::hadamard().multi_control(5).count_controlled(), 5);
    assert_eq!(Gate::toffoli().count_controlled(), 2);
    assert_eq!(Gate::fredkin().count_controlled(), 1);
    assert_eq!(Circuit::new(2).into_gate().count_controlled(), 0);
}

#[test]
fn phase_then_opposite_phase_is_identity() {
    let h = FRAC_1_SQRT_2;
    for theta in [0.1, 1.0, PI / 3.0, 2.5, -4.0] {
        let mut circuit = Circuit::new(1);
        circuit.add_gate(phase_radians(theta), &[0]).unwrap();
        circuit.add_gate(phase_radians(-theta), &[0]).unwrap();
        let initial = vec![c(h, 0.0), c(0.0, h)];
        let mut state = initial.clone();
        circuit.apply(&mut state);
        assert_state_eq(&state, &initial);
    }
}

#[test]
fn inverse_reverses_order_and_conjugates() {
    let mut circuit = Circuit::new(2);
    circuit.add_gate(Gate::hadamard(), &[0]).unwrap();
    circuit.add_gate(phase_radians(0.75).control(), &[0, 1]).unwrap();
    let inverse = circuit.inverse();
    assert_eq!(inverse.qubit_count, Some(2));
    assert_eq!(inverse.gates.len(), 2);
    assert_eq!(inverse.gates[0].state_map, circuit.gates[1].state_map);
    assert_eq!(inverse.gates[0].qubits_mask, circuit.gates[1].qubits_mask);
    assert_eq!(inverse.gates[1].state_map, circuit.gates[0].state_map);
    assert!(matches!(inverse.gates[1].gate, Gate::Hadamard));
    let expected = Complex64::new(0.0, 0.75).exp().conj();
    match &inverse.gates[0].gate {
        Gate::Controlled(inner) => match **inner {
            Gate::Phase(p) => assert_eq!(p, expected),
            _ => panic!("expected a phase"),
        },
        _ => panic!("expected a controlled gate"),
    }
    // The source circuit is left as it was.
    assert_eq!(circuit.gates.len(), 2);
    assert!(matches!(circuit.gates[0].gate, Gate::Hadamard));
}

#[test]
fn mapped_gate_table() {
    // Control on qubit 0 drives local bit 1, target on qubit 1 local bit 0.
    let cnot = MappedGate::new(Gate::cnot(), &[0, 1], Some(2)).unwrap();
    assert_eq!(cnot.state_map, vec![0, 2, 1, 3]);
    assert_eq!(cnot.qubits_mask, 3);

    // Two controls are reversed into the high bits, targets keep the low bits.
    let toffoli = MappedGate::new(Gate::toffoli(), &[5, 3, 1], None).unwrap();
    assert_eq!(toffoli.qubits_mask, 0b101010);
    assert_eq!(
        toffoli.state_map,
        vec![0, 0b10, 0b1000, 0b1010, 0b100000, 0b100010, 0b101000, 0b101010]
    );

    let fredkin = MappedGate::new(Gate::fredkin(), &[4, 0, 2], Some(5)).unwrap();
    assert_eq!(fredkin.state_map, vec![0, 1, 4, 5, 16, 17, 20, 21]);
}

#[test]
fn mapped_gate_table_is_injective_within_mask() {
    let cases: Vec<(Gate, Vec<u8>)> = vec![
        (Gate::hadamard(), vec![7]),
        (Gate::swap(), vec![9, 2]),
        (Gate::toffoli(), vec![6, 0, 3]),
        (Gate::swap().multi_control(3), vec![1, 8, 4, 6, 2]),
        (qft_gate(3).control(), vec![3, 0, 1, 2]),
    ];
    for (gate, qubits) in cases {
        let mapped = MappedGate::new(gate, &qubits, None).unwrap();
        assert_eq!(mapped.state_map.len(), 1 << qubits.len());
        assert_eq!(mapped.state_map[0], 0);
        let mut expected_mask = 0u64;
        for q in &qubits {
            expected_mask |= 1 << q;
        }
        assert_eq!(mapped.qubits_mask, expected_mask);
        for (i, a) in mapped.state_map.iter().enumerate() {
            assert_eq!(a & !mapped.qubits_mask, 0);
            for b in &mapped.state_map[..i] {
                assert_ne!(a, b);
            }
        }
        // Every set of bits of the mask is the offset of some local index.
        let mut submask = mapped.qubits_mask;
        loop {
            assert!(mapped.state_map.contains(&submask));
            if submask == 0 {
                break;
            }
            submask = (submask - 1) & mapped.qubits_mask;
        }
    }
}

#[test]
fn clear_control_leaves_amplitudes_untouched() {
    let h = FRAC_1_SQRT_2;
    // Controls on qubits 2 and 0, Hadamard on qubit 1.
    let circuit = Circuit::from_gate(Gate::hadamard().multi_control(2), &[2, 0, 1]).unwrap();
    let initial: Vec<Complex64> = (0..8).map(|i| c(i as f64, -(i as f64))).collect();
    let mut state = initial.clone();
    circuit.apply(&mut state);
    for x in 0..8usize {
        if x & 0b100 == 0 || x & 0b001 == 0 {
            assert_eq!(state[x], initial[x]);
        }
    }
    assert_state_eq(&state[5..6], &[(initial[5] + initial[7]) * h]);
    assert_state_eq(&state[7..8], &[(initial[5] - initial[7]) * h]);
}

#[test]
fn binding_errors() {
    assert!(matches!(
        MappedGate::new(Gate::hadamard(), &[2], Some(2)),
        Err(QubitError::IndexOutOfBounds)
    ));
    assert!(matches!(
        MappedGate::new(Gate::cnot(), &[1, 1], Some(2)),
        Err(QubitError::DuplicatedIndex)
    ));
    assert!(matches!(
        MappedGate::new(Gate::cnot(), &[1, 1], None),
        Err(QubitError::DuplicatedIndex)
    ));
    // The first faulty position decides.
    assert!(matches!(
        MappedGate::new(Gate::toffoli(), &[0, 0, 9], Some(3)),
        Err(QubitError::DuplicatedIndex)
    ));
    assert!(matches!(
        MappedGate::new(Gate::toffoli(), &[0, 9, 0], Some(3)),
        Err(QubitError::IndexOutOfBounds)
    ));
    assert!(MappedGate::new(Gate::hadamard(), &[40], None).is_ok());

    let mut circuit = Circuit::new(3);
    circuit.add_gate(Gate::hadamard(), &[0]).unwrap();
    assert!(matches!(
        circuit.add_gate(Gate::cnot(), &[0, 3]),
        Err(QubitError::IndexOutOfBounds)
    ));
    assert!(matches!(
        circuit.add_gate(Gate::cnot(), &[2, 2]),
        Err(QubitError::DuplicatedIndex)
    ));
    assert_eq!(circuit.gates.len(), 1);
    assert_eq!(circuit.qubit_count, Some(3));
    assert_eq!(QubitError::IndexOutOfBounds, QubitError::IndexOutOfBounds);
    assert_ne!(QubitError::IndexOutOfBounds, QubitError::DuplicatedIndex);
}

#[test]
fn gate_apply_on_local_buffer() {
    let h = FRAC_1_SQRT_2;
    let mut s = vec![c(1.0, 0.0), c(0.0, 0.0)];
    Gate::hadamard().apply(&mut s);
    assert_state_eq(&s, &[c(h, 0.0), c(h, 0.0)]);

    let mut s = vec![c(0.0, 0.0), c(1.0, 0.0), c(2.0, 0.0), c(3.0, 0.0)];
    Gate::swap().apply(&mut s);
    assert_eq!(s, vec![c(0.0, 0.0), c(2.0, 0.0), c(1.0, 0.0), c(3.0, 0.0)]);

    // A controlled gate acts on the upper half only.
    let mut s = vec![c(0.0, 0.0), c(1.0, 0.0), c(2.0, 0.0), c(3.0, 0.0)];
    Gate::cnot().apply(&mut s);
    assert_eq!(s, vec![c(0.0, 0.0), c(1.0, 0.0), c(3.0, 0.0), c(2.0, 0.0)]);

    let mut s = vec![c(0.0, 0.0), c(1.0, 2.0)];
    Gate::Phase(c(0.0, 1.0)).apply(&mut s);
    assert_eq!(s, vec![c(0.0, 0.0), c(-2.0, 1.0)]);

    let mut s = vec![c(5.0, 0.0), c(7.0, 0.0)];
    Gate::not().apply(&mut s);
    assert_eq!(s, vec![c(7.0, 0.0), c(5.0, 0.0)]);

    let mut s = vec![c(5.0, 0.0), c(7.0, 0.0)];
    Gate::circuit(Circuit::from_gate(Gate::not(), &[0]).unwrap()).apply(&mut s);
    assert_eq!(s, vec![c(7.0, 0.0), c(5.0, 0.0)]);
}

#[test]
fn qft_without_swaps_has_no_swap_gates() {
    let phases = dyadic_phases(4);
    let with = qvass::qft::build_qft_circuit_custom(4, true, &phases).unwrap();
    let without = qvass::qft::build_qft_circuit_custom(4, false, &phases).unwrap();
    assert_eq!(without.gates.len(), 4 + 6);
    assert_eq!(with.gates.len(), 4 + 6 + 2);
    assert!(matches!(with.gates[10].gate, Gate::Swap));
    assert_eq!(with.gates[10].qubits_mask, 0b1001);
    assert_eq!(with.gates[11].qubits_mask, 0b0110);
    assert!(matches!(with.gates[0].gate, Gate::Hadamard));
    assert_eq!(with.gates[0].qubits_mask, 0b1000);
    // The first controlled phase: control 3, target 0, a sixteenth of a turn.
    assert_eq!(with.gates[1].qubits_mask, 0b1001);
    match &with.gates[1].gate {
        Gate::Controlled(inner) => match **inner {
            Gate::Phase(p) => assert_eq!(p, phases[4]),
            _ => panic!("expected a phase"),
        },
        _ => panic!("expected a controlled gate"),
    }
}

#[test]
fn duplicate_is_a_deep_copy() {
    let mut circuit = Circuit::new(3);
    circuit.add_gate(Gate::hadamard(), &[0]).unwrap();
    circuit.add_gate(phase_fraction(0.125).control(), &[0, 2]).unwrap();
    circuit.add_gate(qft_gate(2).control(), &[1, 2, 0]).unwrap();
    let copy = circuit.duplicate();
    assert_eq!(copy.qubit_count, circuit.qubit_count);
    assert_eq!(copy.gates.len(), 3);
    for (a, b) in circuit.gates.iter().zip(copy.gates.iter()) {
        assert_eq!(a.state_map, b.state_map);
        assert_eq!(a.qubits_mask, b.qubits_mask);
    }
    for start in 0..8 {
        let mut first = basis(8, start);
        let mut second = basis(8, start);
        circuit.apply(&mut first);
        copy.apply(&mut second);
        assert_eq!(first, second);
    }
    let cloned = circuit.clone();
    assert_eq!(cloned.gates.len(), 3);
    assert_eq!(cloned.gates[2].clone().state_map, circuit.gates[2].state_map);
    for start in 0..8 {
        let mut first = basis(8, start);
        let mut second = basis(8, start);
        circuit.apply(&mut first);
        cloned.apply(&mut second);
        assert_eq!(first, second);
    }
    assert_eq!(Gate::fredkin().clone().count_controlled(), 1);
    let gate = Gate::toffoli();
    let twin = gate.duplicate();
    assert_eq!(twin.count_controlled(), 2);
    assert!(matches!(gate, Gate::Controlled(_)));
    match phase_fraction(0.25).duplicate() {
        Gate::Phase(p) => assert_eq!(p, Complex64::new(0.0, 2.0 * PI * 0.25).exp()),
        _ => panic!("expected a phase"),
    }
}

#[test]
fn accepts_tells_which_buffers_fit() {
    assert!(Gate::hadamard().accepts(2));
    assert!(Gate::hadamard().accepts(3));
    assert!(!Gate::hadamard().accepts(1));
    assert!(!Gate::not().accepts(0));
    assert!(!Gate::swap().accepts(2));
    assert!(Gate::swap().accepts(3));
    assert!(Gate::swap().accepts(4));
    assert!(Gate::cnot().accepts(4));
    assert!(!Gate::cnot().accepts(2));
    assert!(Gate::toffoli().accepts(8));
    assert!(!Gate::toffoli().accepts(4));
    assert!(!Gate::fredkin().accepts(4));
    assert!(Gate::fredkin().accepts(8));
    assert!(qft_gate(3).accepts(8));
    assert!(qft_gate(3).accepts(16));
    assert!(!qft_gate(3).accepts(4));
    assert!(!qft_gate(3).accepts(12));
    assert!(qft_gate(2).control().accepts(8));
    assert!(!qft_gate(2).control().accepts(4));
    assert!(Circuit::new(4).accepts(0));
    let circuit = Circuit::from_gate(Gate::cnot(), &[1, 3]).unwrap();
    assert!(circuit.accepts(16));
    assert!(!circuit.accepts(8));
    assert!(!circuit.accepts(24));
}
