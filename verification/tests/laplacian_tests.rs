use lau_pde_agents::laplacian::laplacian_stencil_1d;
use lau_pde_agents::stencil::dirichlet_neighbors;
use lau_pde_agents::stencil::Node;

fn apply_with_boundary(m: &Vec<Vec<i64>>, u: &[i64], left: i64, right: i64) -> Vec<i64> {
    let n = u.len();
    let mut out = vec![0i64; n];
    for r in 0..n {
        for c in 0..n {
            out[r] += m[r][c] * u[c];
        }
    }
    out[0] += left;
    out[n - 1] += right;
    out
}

#[test]
fn stencil_pattern_for_four_points() {
    let m = laplacian_stencil_1d(4);
    assert_eq!(
        m,
        vec![
            vec![-2, 1, 0, 0],
            vec![1, -2, 1, 0],
            vec![0, 1, -2, 1],
            vec![0, 0, 1, -2],
        ]
    );
}

#[test]
fn stencil_pattern_is_empty_without_points() {
    assert!(laplacian_stencil_1d(0).is_empty());
}

#[test]
fn stencil_pattern_single_point() {
    assert_eq!(laplacian_stencil_1d(1), vec![vec![-2]]);
}

#[test]
fn stencil_pattern_is_symmetric() {
    let m = laplacian_stencil_1d(7);
    for r in 0..7 {
        for c in 0..7 {
            assert_eq!(m[r][c], m[c][r]);
        }
    }
}

#[test]
fn stencil_kills_constants_with_matching_boundary() {
    let n = 20;
    let m = laplacian_stencil_1d(n);
    let u = vec![3i64; n];
    assert_eq!(apply_with_boundary(&m, &u, 3, 3), vec![0i64; n]);
}

#[test]
fn stencil_kills_linear_profiles() {
    let n = 20;
    let m = laplacian_stencil_1d(n);
    let (a, b) = (5i64, -2i64);
    let u: Vec<i64> = (0..n).map(|i| a + b * (i as i64 + 1)).collect();
    let right = a + b * (n as i64 + 1);
    assert_eq!(apply_with_boundary(&m, &u, a, right), vec![0i64; n]);
}

#[test]
fn matrix_form_matches_neighbor_form() {
    let n = 6;
    let m = laplacian_stencil_1d(n);
    let u = vec![4i64, -1, 7, 2, 0, 9];
    let (left, right) = (3i64, -5i64);
    let by_matrix = apply_with_boundary(&m, &u, left, right);
    for i in 0..n {
        let nb = dirichlet_neighbors(i, n);
        let read = |node: Node| match node {
            Node::Cell(j) => u[j],
            Node::LeftBoundary => left,
            Node::RightBoundary => right,
        };
        assert_eq!(by_matrix[i], read(nb.left) - 2 * u[i] + read(nb.right));
    }
    assert_eq!(by_matrix, vec![-6, 13, -13, 3, 11, -23]);
}

/// `q * u_new = q * u + p * (L u + boundary)`: one explicit heat step with
/// mesh ratio `p / q`, scaled by `q`.
fn scaled_explicit_step(u: &[i64], left: i64, right: i64, p: i64, q: i64) -> Vec<i64> {
    let m = laplacian_stencil_1d(u.len());
    let lu = apply_with_boundary(&m, u, left, right);
    u.iter().zip(lu.iter()).map(|(ui, li)| q * ui + p * li).collect()
}

#[test]
fn explicit_step_stays_within_initial_and_boundary_range() {
    let u = vec![0i64, 9, -4, 7, 2, 5, -1];
    let (left, right) = (3i64, -2i64);
    let (lo, hi) = (-4i64, 9i64);
    for (p, q) in [(1i64, 2i64), (1, 4), (0, 1), (3, 7)] {
        let w = scaled_explicit_step(&u, left, right, p, q);
        for v in &w {
            assert!(q * lo <= *v && *v <= q * hi);
        }
    }
}

#[test]
fn explicit_step_beyond_stability_can_leave_the_range() {
    let u = vec![0i64, 9, 0];
    let w = scaled_explicit_step(&u, 0, 0, 1, 1);
    assert_eq!(w, vec![9, -9, 9]);
    assert!(w[1] < 0);
}

#[test]
fn explicit_step_keeps_ordered_profiles_ordered() {
    let u = vec![5i64, 9, 4, 7, 6];
    let v = vec![5i64, 2, 4, -1, 0];
    for (p, q) in [(1i64, 2i64), (1, 3)] {
        let wu = scaled_explicit_step(&u, 1, 1, p, q);
        let wv = scaled_explicit_step(&v, 1, 1, p, q);
        for i in 0..u.len() {
            assert!(wv[i] <= wu[i]);
        }
    }
}

#[test]
fn explicit_step_does_not_increase_energy() {
    let u = vec![1i64, -3, 8, 2, -6, 4, 0, 5];
    let energy = |w: &[i64]| w.iter().map(|x| x * x).sum::<i64>();
    for (p, q) in [(1i64, 2i64), (1, 4), (2, 5)] {
        let w = scaled_explicit_step(&u, 0, 0, p, q);
        assert!(energy(&w) <= q * q * energy(&u));
    }
}

#[test]
fn harmonic_profile_lies_between_boundary_values() {
    let n = 9usize;
    let (left, right) = (20i64, 0i64);
    let u: Vec<i64> = (0..n).map(|i| left - 2 * (i as i64 + 1)).collect();
    let m = laplacian_stencil_1d(n);
    assert_eq!(apply_with_boundary(&m, &u, left, right), vec![0i64; n]);
    for v in &u {
        assert!(right <= *v && *v <= left);
    }
}

/// Runs `steps` scaled explicit steps; state `k` carries the factor `q^k`, so
/// the boundary values are scaled along with it.
fn scaled_trajectory(u0: &[i64], left: i64, right: i64, p: i64, q: i64, steps: u32) -> Vec<Vec<i64>> {
    let mut traj = vec![u0.to_vec()];
    for k in 0..steps {
        let s = q.pow(k);
        let next = scaled_explicit_step(traj.last().unwrap(), s * left, s * right, p, q);
        traj.push(next);
    }
    traj
}

#[test]
fn explicit_trajectory_stays_within_range_at_every_state() {
    let u0 = vec![0i64, 9, -4, 7, 2];
    let (left, right, lo, hi) = (3i64, -2i64, -4i64, 9i64);
    let (p, q) = (1i64, 3i64);
    let traj = scaled_trajectory(&u0, left, right, p, q, 6);
    assert_eq!(traj.len(), 7);
    for (k, state) in traj.iter().enumerate() {
        let s = q.pow(k as u32);
        for v in state {
            assert!(s * lo <= *v && *v <= s * hi);
        }
    }
}

#[test]
fn explicit_trajectory_energy_never_grows() {
    let u0 = vec![1i64, -3, 8, 2, -6, 4];
    let (p, q) = (1i64, 2i64);
    let energy = |w: &[i64]| w.iter().map(|x| x * x).sum::<i64>();
    let traj = scaled_trajectory(&u0, 0, 0, p, q, 8);
    for k in 0..8 {
        assert!(energy(&traj[k + 1]) <= q * q * energy(&traj[k]));
        assert!(energy(&traj[k]) <= (q * q).pow(k as u32) * energy(&u0));
    }
}

#[test]
fn explicit_trajectory_keeps_ordered_profiles_ordered() {
    let u0 = vec![5i64, 9, 4, 7, 6];
    let v0 = vec![5i64, 2, 4, -1, 0];
    let (p, q) = (1i64, 3i64);
    let tu = scaled_trajectory(&u0, 2, -1, p, q, 6);
    let tv = scaled_trajectory(&v0, 2, -1, p, q, 6);
    for k in 0..tu.len() {
        for i in 0..u0.len() {
            assert!(tv[k][i] <= tu[k][i]);
        }
    }
}

/// `(q + 2p) u_new[i] = q u[i] + p (left neighbour) + p (right neighbour)`.
fn scaled_implicit_point(u: &[i64], left: i64, right: i64, p: i64, q: i64, i: usize) -> i64 {
    let n = u.len();
    let nb = dirichlet_neighbors(i, n);
    let read = |node: Node| match node {
        Node::Cell(j) => u[j],
        Node::LeftBoundary => left,
        Node::RightBoundary => right,
    };
    q * u[i] + p * read(nb.left) + p * read(nb.right)
}

#[test]
fn linear_profile_is_a_fixed_point_of_the_implicit_update() {
    let u: Vec<i64> = (0..6).map(|i| 1 + 3 * (i as i64 + 1)).collect();
    let (left, right, p, q) = (1i64, 1 + 3 * 7, 2i64, 5i64);
    for i in 0..u.len() {
        assert_eq!(scaled_implicit_point(&u, left, right, p, q, i), (q + 2 * p) * u[i]);
    }
}

#[test]
fn non_harmonic_profile_is_moved_by_the_implicit_update() {
    let u = vec![0i64, 5, 0];
    let (p, q) = (1i64, 2i64);
    assert_ne!(scaled_implicit_point(&u, 0, 0, p, q, 1), (q + 2 * p) * u[1]);
}
