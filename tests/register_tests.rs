use triad::algorithms::{deutsch, dense_coding, entangled_pairs, grover, random_number, FunctionType};
use triad::engine::QuantumEngine;
use triad::register::{Amplitude, QuESTSimulator};

fn amps(sim: &QuESTSimulator) -> Vec<(i64, i64)> {
    (0..sim.dimension()).map(|i| {
        let a = sim.amplitude(i);
        (a.re, a.im)
    }).collect()
}

#[test]
fn new_register_is_ground_state() {
    let sim = QuESTSimulator::new(3);
    assert_eq!(sim.num_qubits(), 3);
    assert_eq!(sim.dimension(), 8);
    assert_eq!(sim.amplitude(0), Amplitude { re: 1, im: 0 });
    for i in 1..8 {
        assert_eq!(sim.amplitude(i), Amplitude { re: 0, im: 0 });
    }
    assert_eq!(sim.total_weight(), 1);
}

#[test]
fn x_moves_amplitude_to_partner() {
    let mut sim = QuESTSimulator::new(2);
    sim.x(1);
    assert_eq!(amps(&sim), vec![(0, 0), (0, 0), (1, 0), (0, 0)]);
    sim.x(1);
    assert_eq!(amps(&sim), vec![(1, 0), (0, 0), (0, 0), (0, 0)]);
}

#[test]
fn y_and_z_signs() {
    let mut sim = QuESTSimulator::new(1);
    sim.y(0);
    // Y|0> = i|1>
    assert_eq!(amps(&sim), vec![(0, 0), (0, 1)]);
    sim.z(0);
    assert_eq!(amps(&sim), vec![(0, 0), (0, -1)]);
    sim.z(0);
    sim.y(0);
    assert_eq!(amps(&sim), vec![(1, 0), (0, 0)]);
}

#[test]
fn hadamard_twice_restores_state() {
    let mut sim = QuESTSimulator::new(1);
    sim.hadamard(0);
    assert_eq!(amps(&sim), vec![(1, 0), (1, 0)]);
    assert_eq!(sim.total_weight(), 2);
    sim.hadamard(0);
    assert_eq!(amps(&sim), vec![(1, 0), (0, 0)]);
}

#[test]
fn gates_keep_outcome_weights_summing_to_total() {
    let mut sim = QuESTSimulator::new(3);
    sim.hadamard(0);
    sim.cnot(0, 2);
    sim.y(1);
    sim.hadamard(1);
    for q in 0..3 {
        assert_eq!(sim.outcome_weight(q, 0) + sim.outcome_weight(q, 1), sim.total_weight());
    }
}

#[test]
fn measuring_twice_gives_same_bit() {
    for _ in 0..20 {
        let mut sim = QuESTSimulator::new(2);
        sim.hadamard(0);
        sim.cnot(0, 1);
        let first = sim.measure(0);
        let second = sim.measure(0);
        assert_eq!(first, second);
        // the partner of a Bell pair follows
        assert_eq!(sim.measure(1), first);
    }
}

#[test]
fn measuring_a_basis_state_is_certain() {
    let mut sim = QuESTSimulator::new(2);
    sim.x(1);
    assert!(!sim.measure(0));
    assert!(sim.measure(1));
}

#[test]
fn uniform_superposition_spreads_evenly() {
    let mut engine = QuantumEngine::new(3);
    engine.x(2);
    engine.create_uniform_superposition();
    let sim = engine.simulator();
    for i in 0..8 {
        assert_eq!(sim.amplitude(i), Amplitude { re: 1, im: 0 });
    }
    for q in 0..3 {
        assert!(engine.is_in_superposition(q));
    }
}

#[test]
fn ground_state_is_not_superposed_or_entangled() {
    let engine = QuantumEngine::new(2);
    assert!(!engine.is_in_superposition(0));
    assert!(!engine.is_entangled(0, 1));
    assert!(!engine.is_entangled(0, 0));
    assert!(!engine.is_entangled(0, 5));
}

#[test]
fn bell_state_is_entangled() {
    let mut engine = QuantumEngine::new(3);
    assert!(engine.create_bell_state(0, 2).is_ok());
    assert!(engine.is_entangled(0, 2));
    assert!(!engine.is_entangled(0, 1));
    assert_eq!(entangled_pairs(&engine), vec![(0, 2)]);
    assert!(engine.create_bell_state(1, 1).is_err());
}

#[test]
fn product_state_is_not_entangled() {
    let mut engine = QuantumEngine::new(2);
    engine.hadamard(0);
    engine.hadamard(1);
    assert!(engine.is_in_superposition(0));
    assert!(engine.is_in_superposition(1));
    assert!(!engine.is_entangled(0, 1));
}

#[test]
fn ghz_state_amplitudes() {
    let mut engine = QuantumEngine::new(3);
    assert!(engine.create_ghz_state().is_ok());
    let sim = engine.simulator();
    for i in 0..8 {
        let expected = if i == 0 || i == 7 { 1 } else { 0 };
        assert_eq!(sim.amplitude(i), Amplitude { re: expected, im: 0 });
    }
    assert!(engine.is_entangled(0, 2));
    let mut single = QuantumEngine::new(1);
    assert!(single.create_ghz_state().is_err());
}

#[test]
fn reset_returns_to_ground() {
    let mut engine = QuantumEngine::new(2);
    engine.hadamard(0);
    engine.cnot(0, 1);
    engine.reset();
    assert_eq!(engine.simulator().amplitude(0), Amplitude { re: 1, im: 0 });
    assert_eq!(engine.simulator().total_weight(), 1);
}

#[test]
fn simulator_mut_reaches_register() {
    let mut engine = QuantumEngine::new(1);
    engine.simulator_mut().x(0);
    assert!(engine.measure(0));
}

#[test]
fn deutsch_tells_constant_from_balanced() {
    assert!(deutsch(FunctionType::Constant0));
    assert!(deutsch(FunctionType::Constant1));
    assert!(!deutsch(FunctionType::Identity));
    assert!(!deutsch(FunctionType::Negation));
}

#[test]
fn dense_coding_returns_the_two_bits() {
    for bits in [(false, false), (false, true), (true, false), (true, true)] {
        assert_eq!(dense_coding(bits), bits);
    }
}

#[test]
fn random_number_stays_below_bound() {
    for _ in 0..50 {
        assert!(random_number(10) < 10);
    }
    assert_eq!(random_number(1), 0);
}

#[test]
fn grover_result_fits_register() {
    for _ in 0..5 {
        assert!(grover(3, 5) < 8);
    }
    assert!(grover(1, 0) < 2);
}

#[test]
fn measure_with_draw_splits_by_weight() {
    // (|0> + |1>) on one qubit: weights 1 and 1, total 2
    let mut sim = QuESTSimulator::new(1);
    sim.hadamard(0);
    let mut other = QuESTSimulator::new(1);
    other.hadamard(0);
    assert!(sim.measure_with_draw(0, 0));
    assert_eq!(amps(&sim), vec![(0, 0), (1, 0)]);
    assert!(!other.measure_with_draw(0, 1));
    assert_eq!(amps(&other), vec![(1, 0), (0, 0)]);
}
