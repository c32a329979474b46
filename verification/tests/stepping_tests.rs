use lau_pde_agents::stepping::{evolve, iterate_to_tolerance, leapfrog};

#[test]
fn evolve_returns_steps_plus_one_states() {
    let traj = evolve(0u64, 100, |x: &u64| *x + 1);
    assert_eq!(traj.len(), 101);
    assert_eq!(traj[0], 0);
    assert_eq!(traj[100], 100);
}

#[test]
fn evolve_with_no_steps_returns_the_initial_state() {
    let traj = evolve(vec![1.0f64, 2.0], 0, |x: &Vec<f64>| x.iter().map(|v| v * 0.5).collect());
    assert_eq!(traj, vec![vec![1.0, 2.0]]);
}

#[test]
fn evolve_applies_the_step_to_each_previous_state() {
    let traj = evolve(vec![8.0f64, 4.0], 3, |x: &Vec<f64>| x.iter().map(|v| v * 0.5).collect());
    assert_eq!(traj, vec![vec![8.0, 4.0], vec![4.0, 2.0], vec![2.0, 1.0], vec![1.0, 0.5]]);
}

#[test]
fn leapfrog_returns_steps_plus_one_states() {
    let traj = leapfrog(0u64, 1u64, 10, |a: &u64, b: &u64| *a + *b);
    assert_eq!(traj.len(), 11);
    assert_eq!(traj, vec![0, 1, 1, 2, 3, 5, 8, 13, 21, 34, 55]);
}

#[test]
fn leapfrog_with_one_step_keeps_the_two_initial_states() {
    let traj = leapfrog(3i64, 4i64, 1, |a: &i64, b: &i64| 2 * *b - *a);
    assert_eq!(traj, vec![3, 4]);
}

#[test]
fn leapfrog_with_no_steps_keeps_the_two_initial_states() {
    let traj = leapfrog(3i64, 4i64, 0, |a: &i64, b: &i64| 2 * *b - *a);
    assert_eq!(traj, vec![3, 4]);
}

#[test]
fn leapfrog_two_step_scheme_extrapolates() {
    let traj = leapfrog(3i64, 4i64, 4, |a: &i64, b: &i64| 2 * *b - *a);
    assert_eq!(traj, vec![3, 4, 5, 6, 7]);
}

#[test]
fn iteration_stops_at_the_first_converged_sweep() {
    let (u, iters) = iterate_to_tolerance(8u64, 10, |x: &u64| (*x / 2, *x / 2 == 0));
    assert_eq!((u, iters), (0, 4));
}

#[test]
fn iteration_without_budget_returns_the_start() {
    let (u, iters) = iterate_to_tolerance(8u64, 0, |x: &u64| (*x / 2, true));
    assert_eq!((u, iters), (8, 0));
}

#[test]
fn iteration_that_never_converges_uses_the_whole_budget() {
    let (u, iters) = iterate_to_tolerance(1u64, 5, |x: &u64| (*x + 1, false));
    assert_eq!((u, iters), (6, 5));
}

#[test]
fn iteration_converging_on_the_last_sweep_reports_it() {
    let (u, iters) = iterate_to_tolerance(0u64, 3, |x: &u64| (*x + 1, *x + 1 == 3));
    assert_eq!((u, iters), (3, 3));
}

/// Jacobi sweeps on the three-point average converge to the linear profile.
#[test]
fn jacobi_iteration_reaches_the_linear_profile() {
    let n = 5usize;
    let (left, right) = (0.0f64, 6.0f64);
    let (u, iters) = iterate_to_tolerance(vec![0.0f64; n], 100000, |u: &Vec<f64>| {
        let mut next = vec![0.0; n];
        for i in 0..n {
            let l = if i == 0 { left } else { u[i - 1] };
            let r = if i == n - 1 { right } else { u[i + 1] };
            next[i] = 0.5 * (l + r);
        }
        let change = next.iter().zip(u.iter()).map(|(a, b)| (a - b).abs()).fold(0.0, f64::max);
        (next, change < 1e-12)
    });
    assert!(iters < 100000);
    for i in 0..n {
        assert!((u[i] - (i as f64 + 1.0)).abs() < 1e-9);
    }
}
