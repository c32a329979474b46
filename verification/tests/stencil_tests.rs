use lau_pde_agents::stencil::{
    clamped_neighbors, dirichlet_neighbors, upwind_pair, Neighbors, Node,
};

#[test]
fn dirichlet_first_point_reads_left_boundary() {
    let nb = dirichlet_neighbors(0, 5);
    assert_eq!(nb, Neighbors { left: Node::LeftBoundary, right: Node::Cell(1) });
}

#[test]
fn dirichlet_interior_point_reads_cells() {
    let nb = dirichlet_neighbors(2, 5);
    assert_eq!(nb, Neighbors { left: Node::Cell(1), right: Node::Cell(3) });
}

#[test]
fn dirichlet_last_point_reads_right_boundary() {
    let nb = dirichlet_neighbors(4, 5);
    assert_eq!(nb, Neighbors { left: Node::Cell(3), right: Node::RightBoundary });
}

#[test]
fn dirichlet_single_point_reads_both_boundaries() {
    let nb = dirichlet_neighbors(0, 1);
    assert_eq!(nb, Neighbors { left: Node::LeftBoundary, right: Node::RightBoundary });
}

#[test]
fn clamped_neighbors_replicate_the_edges() {
    assert_eq!(clamped_neighbors(0, 4), (0, 1));
    assert_eq!(clamped_neighbors(2, 4), (1, 3));
    assert_eq!(clamped_neighbors(3, 4), (2, 3));
    assert_eq!(clamped_neighbors(0, 1), (0, 0));
}

#[test]
fn upwind_rightward_differences_against_the_left() {
    assert_eq!(upwind_pair(0, 4, true), (0, 0));
    assert_eq!(upwind_pair(2, 4, true), (1, 2));
    assert_eq!(upwind_pair(3, 4, true), (2, 3));
}

#[test]
fn upwind_leftward_differences_against_the_right() {
    assert_eq!(upwind_pair(0, 4, false), (0, 1));
    assert_eq!(upwind_pair(2, 4, false), (2, 3));
    assert_eq!(upwind_pair(3, 4, false), (3, 3));
}

/// A pulse moved one cell per step by the upwind pair with Courant number 1.
#[test]
fn upwind_pair_transports_a_pulse_rightward() {
    let n = 6;
    let mut u = vec![0i64, 1, 0, 0, 0, 0];
    for _ in 0..3 {
        let old = u.clone();
        for i in 0..n {
            let (back, front) = upwind_pair(i, n, true);
            u[i] = old[i] - (old[front] - old[back]);
        }
    }
    assert_eq!(u, vec![0, 0, 0, 0, 1, 0]);
}

/// `b * u_new[i] = b * u[i] - a * (u[front] - u[back])` with Courant number
/// `a / b`, differencing in the direction of transport.
fn scaled_upwind_step(u: &[i64], a: i64, b: i64, rightward: bool) -> Vec<i64> {
    let n = u.len();
    (0..n)
        .map(|i| {
            let (back, front) = upwind_pair(i, n, rightward);
            b * u[i] - a * (u[front] - u[back])
        })
        .collect()
}

#[test]
fn upwind_step_under_cfl_stays_within_range() {
    let u = vec![3i64, -5, 8, 0, 2, 7];
    let (lo, hi) = (-5i64, 8i64);
    for (a, b, rightward) in [(1i64, 2i64, true), (-1, 2, false), (3, 3, true), (-3, 3, false), (0, 4, false)] {
        for v in scaled_upwind_step(&u, a, b, rightward) {
            assert!(b * lo <= v && v <= b * hi);
        }
    }
}

#[test]
fn upwind_step_beyond_cfl_can_leave_the_range() {
    let u = vec![0i64, 4, 0];
    let w = scaled_upwind_step(&u, 2, 1, true);
    assert_eq!(w, vec![0, -4, 8]);
    assert!(w[1] < 0 && w[2] > 4);
}

/// A negative time step reverses the Courant number against the velocity,
/// and the step then leaves the range.
#[test]
fn upwind_step_against_the_velocity_can_leave_the_range() {
    let u = vec![0i64, 4, 0];
    let w = scaled_upwind_step(&u, -1, 2, true);
    assert_eq!(w, vec![0, 12, -4]);
}

/// `2 b u_new[i] = b (u[l] + u[r]) - a (u[r] - u[l])` with Courant number `a / b`.
fn scaled_lax_friedrichs_step(u: &[i64], a: i64, b: i64) -> Vec<i64> {
    let n = u.len();
    (0..n)
        .map(|i| {
            let (l, r) = clamped_neighbors(i, n);
            b * (u[l] + u[r]) - a * (u[r] - u[l])
        })
        .collect()
}

#[test]
fn lax_friedrichs_step_under_cfl_stays_within_range() {
    let u = vec![3i64, -5, 8, 0, 2, 7];
    let (lo, hi) = (-5i64, 8i64);
    for (a, b) in [(1i64, 2i64), (-1, 2), (3, 3), (-3, 3), (0, 4)] {
        for v in scaled_lax_friedrichs_step(&u, a, b) {
            assert!(2 * b * lo <= v && v <= 2 * b * hi);
        }
    }
}
