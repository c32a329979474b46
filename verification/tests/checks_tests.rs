use lau_pde_agents::checks::{every_state_passes, holds_pointwise};

#[test]
fn every_state_passes_when_all_checks_pass() {
    let states = vec![5, 4, 3, 2];
    assert!(every_state_passes(&states, 0, |_k: usize, s: &i32| *s <= 5));
}

#[test]
fn every_state_fails_when_one_check_fails() {
    let states = vec![5, 4, 6, 2];
    assert!(!every_state_passes(&states, 0, |_k: usize, s: &i32| *s <= 5));
}

#[test]
fn every_state_skips_states_before_first() {
    let states = vec![9, 4, 3];
    assert!(every_state_passes(&states, 1, |_k: usize, s: &i32| *s <= 5));
}

#[test]
fn every_state_passes_on_empty_range() {
    let states: Vec<i32> = vec![9];
    assert!(every_state_passes(&states, 3, |_k: usize, _s: &i32| false));
}

#[test]
fn every_state_hands_over_the_index() {
    let states = vec![0, 2, 4, 6];
    assert!(every_state_passes(&states, 0, |k: usize, s: &i32| *s == 2 * k as i32));
    assert!(!every_state_passes(&states, 0, |k: usize, s: &i32| *s == k as i32));
}

fn ramp(offset: f64) -> Vec<f64> {
    (0..20).map(|i| offset + i as f64 / 20.0).collect()
}

#[test]
fn pointwise_comparison_holds_for_shifted_profile() {
    let us = vec![ramp(2.0)];
    let vs = vec![ramp(1.0)];
    assert!(holds_pointwise(&us, &vs, |a: &f64, b: &f64| !(*a < *b - 1e-10)));
}

#[test]
fn pointwise_comparison_fails_for_lower_profile() {
    let us = vec![ramp(0.0)];
    let vs = vec![ramp(2.0)];
    assert!(!holds_pointwise(&us, &vs, |a: &f64, b: &f64| !(*a < *b - 1e-10)));
}

#[test]
fn pointwise_comparison_only_covers_shared_points() {
    let us = vec![vec![3, 3], vec![3]];
    let vs = vec![vec![1, 2, 9], vec![2, 9], vec![100]];
    assert!(holds_pointwise(&us, &vs, |a: &i32, b: &i32| *a >= *b));
}

#[test]
fn pointwise_comparison_of_empty_families_holds() {
    let us: Vec<Vec<i32>> = vec![];
    let vs = vec![vec![1]];
    assert!(holds_pointwise(&us, &vs, |_a: &i32, _b: &i32| false));
}
