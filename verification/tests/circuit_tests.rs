use qmf_core::PROB_UNIT;
use qmf_core::circuit::{Circuit, Gate, ROT_PI_6};

fn diff(a: u64, b: u64) -> u64 {
    if a > b { a - b } else { b - a }
}

#[test]
fn hadamard_compresses_toward_half() {
    let c = Circuit::default().with_gate(Gate::Hadamard);
    assert_eq!(c.apply_probability(200_000), 350_000);
    assert_eq!(c.apply_probability(800_000), 650_000);
    assert_eq!(c.apply_probability(500_000), 500_000);
}

#[test]
fn not_flips() {
    let c = Circuit::default().with_gate(Gate::Not);
    assert_eq!(c.apply_probability(300_000), 700_000);
}

#[test]
fn phase_shift_zero_is_identity() {
    // A zero rotation carries the full mixing weight cos²(0) = 1.
    let c = Circuit::default().with_gate(Gate::PhaseShift(PROB_UNIT));
    assert_eq!(c.apply_probability(300_000), 300_000);
    assert_eq!(c.apply_probability(700_000), 700_000);
}

#[test]
fn phase_shift_pi_is_flip() {
    // A π rotation carries mixing weight cos²(π/2) = 0 and flips.
    let c = Circuit::default().with_gate(Gate::PhaseShift(0));
    assert_eq!(c.apply_probability(300_000), 700_000);
}

#[test]
fn difficulty_pipelines_differ() {
    let obs = Circuit::for_difficulty("observer").apply_probability(150_000);
    let res = Circuit::for_difficulty("researcher").apply_probability(150_000);
    let the = Circuit::for_difficulty("theorist").apply_probability(150_000);
    // All should produce outputs in [0, 1]
    for v in [obs, res, the] {
        assert!(v <= PROB_UNIT, "out of range: {v}");
    }
    // Observer should stay closest to input
    assert!(diff(obs, 150_000) < diff(res, 150_000));
}

#[test]
fn unrecognized_label_gets_default_pipeline() {
    let a = Circuit::for_difficulty("researcher");
    let b = Circuit::for_difficulty("something else");
    assert_eq!(a.gates, b.gates);
    assert_eq!(a.apply_probability(150_000), b.apply_probability(150_000));
}

#[test]
fn observer_pipeline_is_one_rotation() {
    let c = Circuit::for_difficulty("observer");
    assert_eq!(c.gates, vec![Gate::PhaseShift(ROT_PI_6)]);
}

#[test]
fn phase_shift_weight_clamped() {
    // An over-unit mixing weight behaves as weight one (identity).
    let c = Circuit::default().with_gate(Gate::PhaseShift(2_000_000));
    assert_eq!(c.apply_probability(250_000), 250_000);
}
