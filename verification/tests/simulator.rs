use std::f64::consts::{FRAC_1_SQRT_2, PI};

use num_complex::Complex64;
use qvass::qft::build_qft_circuit;
use qvass::{Circuit, Gate, QuantumSimulator, QubitError};
use rand::rngs::SmallRng;
use rand::{Rng, SeedableRng};

fn c(re: f64, im: f64) -> Complex64 {
    Complex64::new(re, im)
}

fn phase_radians(angle: f64) -> Gate {
    Gate::phase(Complex64::new(0.0, angle).exp())
}

fn dyadic_phases(n_qubits: u8) -> Vec<Complex64> {
    (0..=u32::from(n_qubits))
        .map(|d| Complex64::new(0.0, 2.0 * PI * (1f64 / (1u64 << d) as f64)).exp())
        .collect()
}

fn assert_state_eq(actual: &[Complex64], expected: &[Complex64]) {
    let tolerance = 1e-6;
    assert_eq!(expected.len(), actual.len());
    assert!(
        expected
            .iter()
            .zip(actual.iter())
            .all(|(exp, act)| (*exp - *act).l1_norm() < tolerance),
        "Vectors differs:\n  actual: {:?}\n  expect: {:?}",
        actual,
        expected,
    );
}

fn norm_sqr(state: &[Complex64]) -> f64 {
    state.iter().map(|amp| amp.norm_sqr()).sum()
}

// For each index, whether the probability summed before it does not exceed the probe.
fn flags(state: &[Complex64], probe: f64) -> Vec<bool> {
    let mut sum = 0f64;
    state
        .iter()
        .map(|a| {
            let below = !(sum > probe);
            sum += a.norm_sqr();
            below
        })
        .collect()
}

fn measure<R: Rng>(sim: &mut QuantumSimulator, rng: &mut R) -> usize {
    let probe: f64 = rng.gen();
    let below = flags(sim.state().as_ref(), probe);
    sim.measure(&below)
}

fn build_oracle(n_qubits: u8, winning_state: usize) -> Result<Circuit, QubitError> {
    let mut oracle_circuit = Circuit::new(n_qubits);
    let all_qubits: Vec<u8> = (0..n_qubits).collect();
    for i in 0..n_qubits {
        if (winning_state >> i) & 1 == 0 {
            oracle_circuit.add_gate(Gate::not(), &[i])?;
        }
    }
    let controlled_z = phase_radians(PI).multi_control(n_qubits - 1);
    oracle_circuit.add_gate(controlled_z, &all_qubits)?;
    for i in 0..n_qubits {
        if (winning_state >> i) & 1 == 0 {
            oracle_circuit.add_gate(Gate::not(), &[i])?;
        }
    }
    Ok(oracle_circuit)
}

fn build_diffuser(n_qubits: u8) -> Result<Circuit, QubitError> {
    let mut diffuser_circuit = Circuit::new(n_qubits);
    let all_qubits: Vec<u8> = (0..n_qubits).collect();
    let zero_oracle = build_oracle(n_qubits, 0)?;
    for i in 0..n_qubits {
        diffuser_circuit.add_gate(Gate::hadamard(), &[i])?;
    }
    diffuser_circuit.add_gate(zero_oracle.into_gate(), &all_qubits)?;
    for i in 0..n_qubits {
        diffuser_circuit.add_gate(Gate::hadamard(), &[i])?;
    }
    Ok(diffuser_circuit)
}

#[test]
fn new_simulator_is_zeroed() {
    let sim = QuantumSimulator::new(3);
    assert_eq!(sim.state().as_ref(), vec![Complex64::ZERO; 8].as_slice());
    assert_eq!(sim.circuit.qubit_count, Some(3));
    assert!(sim.circuit.gates.is_empty());
    let sim = QuantumSimulator::new(1);
    assert_eq!(sim.state().as_ref().len(), 2);
}

#[test]
fn init_state_sets_one_amplitude() {
    let mut sim = QuantumSimulator::new(2);
    sim.init_state(2);
    assert_eq!(
        sim.state().as_ref(),
        &[c(0.0, 0.0), c(0.0, 0.0), c(1.0, 0.0), c(0.0, 0.0)]
    );
    sim.init_state(0);
    assert_eq!(
        sim.state().as_ref(),
        &[c(1.0, 0.0), c(0.0, 0.0), c(0.0, 0.0), c(0.0, 0.0)]
    );
}

#[test]
fn bell_pair() {
    let mut sim = QuantumSimulator::new(2);
    sim.add_gate(Gate::hadamard(), &[0]).unwrap();
    sim.add_gate(Gate::cnot(), &[0, 1]).unwrap();
    sim.init_state(0);
    sim.run();
    let h = FRAC_1_SQRT_2;
    assert_state_eq(
        sim.state().as_ref(),
        &[c(h, 0.0), c(0.0, 0.0), c(0.0, 0.0), c(h, 0.0)],
    );
}

#[test]
fn ghz_three() {
    let mut sim = QuantumSimulator::new(3);
    sim.add_gate(Gate::hadamard(), &[0]).unwrap();
    sim.add_gate(Gate::cnot(), &[0, 1]).unwrap();
    sim.add_gate(Gate::cnot(), &[0, 2]).unwrap();
    sim.init_state(0);
    sim.run();
    let h = FRAC_1_SQRT_2;
    let mut expected = vec![Complex64::ZERO; 8];
    expected[0] = c(h, 0.0);
    expected[7] = c(h, 0.0);
    assert_state_eq(sim.state().as_ref(), &expected);

    let mut rng = SmallRng::seed_from_u64(123);
    let mut seen = [0usize; 8];
    for _ in 0..200 {
        sim.init_state(0);
        sim.run();
        let outcome = measure(&mut sim, &mut rng);
        assert!(outcome == 0 || outcome == 7);
        seen[outcome] += 1;
    }
    assert!(seen[0] > 0 && seen[7] > 0);
}

fn deutsch_jozsa(balanced: bool) -> usize {
    let mut sim = QuantumSimulator::new(3);
    sim.add_gate(Gate::not(), &[2]).unwrap();
    for i in 0..3 {
        sim.add_gate(Gate::hadamard(), &[i]).unwrap();
    }
    if balanced {
        sim.add_gate(Gate::cnot(), &[0, 2]).unwrap();
    } else {
        sim.add_gate(Gate::not(), &[2]).unwrap();
    }
    for i in 0..2 {
        sim.add_gate(Gate::hadamard(), &[i]).unwrap();
    }
    sim.init_state(0);
    sim.run();
    assert!((norm_sqr(sim.state().as_ref()) - 1.0).abs() < 1e-6);
    let mut rng = SmallRng::seed_from_u64(7);
    let outcome = measure(&mut sim, &mut rng);
    outcome & 0b11
}

#[test]
fn deutsch_jozsa_constant() {
    assert_eq!(deutsch_jozsa(false), 0);
}

#[test]
fn deutsch_jozsa_balanced() {
    assert_eq!(deutsch_jozsa(true), 1);
}

#[test]
fn qft_of_basis_state_one() {
    let mut sim = QuantumSimulator::new(3);
    let qft = build_qft_circuit(3, &dyadic_phases(3)).unwrap();
    sim.add_gate(qft.into_gate(), &[0, 1, 2]).unwrap();
    sim.init_state(1);
    sim.run();
    let scale = 1.0 / 8f64.sqrt();
    let expected: Vec<Complex64> = (0..8)
        .map(|k| Complex64::new(0.0, 2.0 * PI * k as f64 / 8.0).exp() * scale)
        .collect();
    assert_state_eq(sim.state().as_ref(), &expected);
    for a in sim.state().as_ref() {
        assert!((a.norm() - scale).abs() < 1e-6);
        assert!((a.norm_sqr() - 0.125).abs() < 1e-6);
    }
}

#[test]
fn grover_four_qubits() {
    let n_qubits = 4u8;
    let winning_state = 5usize;
    let n_items = 1usize << n_qubits;
    let num_iterations = (PI / 4.0 * (n_items as f64).sqrt()).round() as usize;
    assert_eq!(num_iterations, 3);

    let all_qubits: Vec<u8> = (0..n_qubits).collect();
    let mut sim = QuantumSimulator::new(n_qubits);
    for i in 0..n_qubits {
        sim.add_gate(Gate::hadamard(), &[i]).unwrap();
    }
    for _ in 0..num_iterations {
        let oracle = build_oracle(n_qubits, winning_state).unwrap();
        let diffuser = build_diffuser(n_qubits).unwrap();
        sim.add_gate(oracle.into_gate(), &all_qubits).unwrap();
        sim.add_gate(diffuser.into_gate(), &all_qubits).unwrap();
    }
    sim.init_state(0);
    sim.run();
    assert!(sim.state().as_ref()[winning_state].norm_sqr() > 0.95);
    assert!((norm_sqr(sim.state().as_ref()) - 1.0).abs() < 1e-6);

    let mut rng = SmallRng::seed_from_u64(42);
    let mut success_count = 0;
    let n_runs = 1000;
    for _ in 0..n_runs {
        sim.init_state(0);
        sim.run();
        if measure(&mut sim, &mut rng) == winning_state {
            success_count += 1;
        }
    }
    assert!(success_count * 100 > 85 * n_runs);
}

#[test]
fn norm_is_kept_by_gate_sequences() {
    for start in 0..8 {
        let mut sim = QuantumSimulator::new(3);
        sim.add_gate(Gate::hadamard(), &[1]).unwrap();
        sim.add_gate(phase_radians(0.3).control(), &[1, 2]).unwrap();
        sim.add_gate(Gate::fredkin(), &[1, 0, 2]).unwrap();
        sim.add_gate(Gate::hadamard(), &[0]).unwrap();
        sim.add_gate(Gate::toffoli(), &[2, 0, 1]).unwrap();
        sim.add_gate(Gate::swap(), &[2, 0]).unwrap();
        sim.init_state(start);
        sim.run();
        assert!((norm_sqr(sim.state().as_ref()) - 1.0).abs() < 1e-6);
        sim.run();
        assert!((norm_sqr(sim.state().as_ref()) - 1.0).abs() < 1e-6);
    }
}

#[test]
fn circuit_then_inverse_returns_to_start() {
    let mut circuit = Circuit::new(3);
    circuit.add_gate(Gate::hadamard(), &[0]).unwrap();
    circuit.add_gate(phase_radians(1.1).control(), &[0, 2]).unwrap();
    circuit.add_gate(Gate::toffoli(), &[2, 0, 1]).unwrap();
    let qft = build_qft_circuit(2, &dyadic_phases(2)).unwrap();
    circuit.add_gate(qft.into_gate().control(), &[1, 2, 0]).unwrap();
    circuit.add_gate(Gate::swap(), &[1, 2]).unwrap();
    let inverse = circuit.inverse();
    for start in 0..8 {
        let mut initial = vec![Complex64::ZERO; 8];
        initial[start] = Complex64::ONE;
        let mut state = initial.clone();
        circuit.apply(&mut state);
        inverse.apply(&mut state);
        assert_state_eq(&state, &initial);
    }
}

#[test]
fn measure_collapses_to_one_basis_state() {
    let mut rng = SmallRng::seed_from_u64(99);
    for _ in 0..50 {
        let mut sim = QuantumSimulator::new(3);
        for i in 0..3 {
            sim.add_gate(Gate::hadamard(), &[i]).unwrap();
        }
        sim.init_state(0);
        sim.run();
        let outcome = measure(&mut sim, &mut rng);
        assert!(outcome < 8);
        for (i, a) in sim.state().as_ref().iter().enumerate() {
            if i == outcome {
                assert_eq!(*a, Complex64::ONE);
            } else {
                assert_eq!(*a, Complex64::ZERO);
            }
        }
    }
}

#[test]
fn measure_walks_the_flags() {
    let mut sim = QuantumSimulator::new(2);
    sim.init_state(0);
    assert_eq!(sim.measure(&[true, true, false, false]), 1);
    assert_eq!(sim.state().as_ref()[1], Complex64::ONE);
    assert_eq!(sim.state().as_ref()[0], Complex64::ZERO);
    assert_eq!(sim.measure(&[true, false, true, true]), 0);
    // Drift: no threshold exceeds the probe, the last index comes out.
    assert_eq!(sim.measure(&[true, true, true, true]), 3);
    // No index reached at all: the last index comes out as well.
    assert_eq!(sim.measure(&[false, true, true, true]), 3);
    assert_eq!(sim.state().as_ref()[3], Complex64::ONE);
}

#[test]
fn measure_with_probe_near_one_falls_back_to_last_index() {
    // The squared norms sum to slightly less than the probe.
    let state = vec![c(0.5, 0.0), c(0.5, 0.0), c(0.5, 0.0), c(0.4999999, 0.0)];
    let below = flags(&state, 0.99999999);
    assert_eq!(below, vec![true, true, true, true]);
    let mut sim = QuantumSimulator::new(2);
    sim.init_state(0);
    assert_eq!(sim.measure(&below), 3);
    let below = flags(&state, 0.3);
    assert_eq!(below, vec![true, true, false, false]);
    assert_eq!(sim.measure(&below), 1);
}

#[test]
fn measure_histogram_follows_the_distribution() {
    // Amplitudes with probabilities 1/2, 1/4, 1/8, 1/8.
    let mut circuit = Circuit::new(2);
    circuit.add_gate(Gate::hadamard(), &[0]).unwrap();
    circuit.add_gate(Gate::hadamard().control(), &[0, 1]).unwrap();
    let mut probe_state = vec![Complex64::ZERO; 4];
    probe_state[0] = Complex64::ONE;
    circuit.apply(&mut probe_state);
    let theory: Vec<f64> = probe_state.iter().map(|a| a.norm_sqr()).collect();
    assert!((theory[0] - 0.5).abs() < 1e-9);
    assert!((theory[1] - 0.25).abs() < 1e-9);
    assert!((theory[3] - 0.25).abs() < 1e-9);

    let mut sim = QuantumSimulator::new(2);
    sim.add_gate(Gate::hadamard(), &[0]).unwrap();
    sim.add_gate(Gate::hadamard().control(), &[0, 1]).unwrap();
    let mut rng = SmallRng::seed_from_u64(2024);
    let trials = 10_000usize;
    let mut seen = [0usize; 4];
    for _ in 0..trials {
        sim.init_state(0);
        sim.run();
        seen[measure(&mut sim, &mut rng)] += 1;
    }
    assert_eq!(seen[2], 0);
    let mut chi2 = 0.0;
    for i in [0usize, 1, 3] {
        let expected = theory[i] * trials as f64;
        chi2 += (seen[i] as f64 - expected).powi(2) / expected;
    }
    // Two degrees of freedom, p = 0.01.
    assert!(chi2 < 9.21, "chi-squared {chi2}");
}

#[test]
fn gates_added_before_init_state_act_on_run() {
    let mut sim = QuantumSimulator::new(1);
    sim.add_gate(Gate::not(), &[0]).unwrap();
    sim.init_state(0);
    sim.run();
    assert_eq!(sim.state().as_ref(), &[c(0.0, 0.0), c(1.0, 0.0)]);
    // A second run without re-initialising applies the circuit again.
    sim.run();
    assert_eq!(sim.state().as_ref(), &[c(1.0, 0.0), c(0.0, 0.0)]);
}

#[test]
fn simulator_add_gate_errors_leave_it_unchanged() {
    let mut sim = QuantumSimulator::new(2);
    sim.add_gate(Gate::hadamard(), &[1]).unwrap();
    assert!(matches!(
        sim.add_gate(Gate::hadamard(), &[2]),
        Err(QubitError::IndexOutOfBounds)
    ));
    assert!(matches!(
        sim.add_gate(Gate::swap(), &[0, 0]),
        Err(QubitError::DuplicatedIndex)
    ));
    assert_eq!(sim.circuit.gates.len(), 1);
}
