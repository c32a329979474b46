//! Layout of a 2D grid of `nx` by `ny` interior points, stored row by row
//! (`ny` rows of `nx` values), and the five-point stencil on it.

use vstd::prelude::*;
use vstd::arithmetic::div_mod::{
    lemma_div_pos_is_pos, lemma_fundamental_div_mod, lemma_fundamental_div_mod_converse,
    lemma_mod_pos_bound,
};
use vstd::arithmetic::mul::lemma_mul_is_associative;
use vstd::arithmetic::power::pow;
use crate::explicit::lemma_pow_nonnegative;

verus! {

/// Where the five-point stencil reads one neighbouring value from.
#[derive(PartialEq, Eq, Structural, Clone, Copy, Debug)]
pub enum Node2D {
    /// The interior value stored at this flat index.
    Cell(usize),
    /// The boundary value (the same on every edge).
    Boundary,
}

/// The four neighbours read by the five-point stencil at one point.
#[derive(PartialEq, Eq, Structural, Clone, Copy, Debug)]
pub struct Neighbors2D {
    pub left: Node2D,
    pub right: Node2D,
    pub below: Node2D,
    pub above: Node2D,
}

/// Flat position of point `(i, j)` (column `i`, row `j`) in row-major order.
pub open spec fn flat_index(i: int, j: int, nx: int) -> int {
    j * nx + i
}

/// The point `(i, j)` lies on the grid.
pub open spec fn on_grid(i: int, j: int, nx: int, ny: int) -> bool {
    0 <= i < nx && 0 <= j < ny
}

/// The neighbour of `(i, j)` shifted by `(di, dj)`: the interior point there
/// if it lies on the grid, the boundary otherwise.
pub open spec fn shifted(i: int, j: int, di: int, dj: int, nx: int, ny: int) -> Node2D {
    if on_grid(i + di, j + dj, nx, ny) {
        Node2D::Cell(flat_index(i + di, j + dj, nx) as usize)
    } else {
        Node2D::Boundary
    }
}

/// Row-major layout puts every point of the grid at its own position in
/// `0 .. nx * ny`: positions are in range and distinct points never share one.
pub proof fn lemma_flat_index_is_layout(i: int, j: int, k: int, l: int, nx: int, ny: int)
    requires
        on_grid(i, j, nx, ny),
        on_grid(k, l, nx, ny),
    ensures
        0 <= flat_index(i, j, nx) < nx * ny,
        flat_index(i, j, nx) == flat_index(k, l, nx) ==> i == k && j == l,
{
    assert(0 <= j * nx <= (ny - 1) * nx) by (nonlinear_arith)
        requires
            0 <= j < ny,
            0 < nx,
    ;
    assert((ny - 1) * nx + nx == nx * ny) by (nonlinear_arith);
    if flat_index(i, j, nx) == flat_index(k, l, nx) {
        if j < l {
            assert(j * nx + nx <= l * nx) by (nonlinear_arith)
                requires
                    j < l,
                    0 < nx,
            ;
        } else if l < j {
            assert(l * nx + nx <= j * nx) by (nonlinear_arith)
                requires
                    l < j,
                    0 < nx,
            ;
        }
    }
}

/// Flat position of point `(i, j)` in the row-major storage of the grid.
pub fn cell_index(i: usize, j: usize, nx: usize, ny: usize) -> (r: usize)
    requires
        i < nx,
        j < ny,
        nx * ny <= usize::MAX,
    ensures
        r == flat_index(i as int, j as int, nx as int),
        r == j * nx + i,
        r < nx * ny,
{
    proof {
        lemma_flat_index_is_layout(i as int, j as int, i as int, j as int, nx as int, ny as int);
    }
    j * nx + i
}

/// The four neighbours of point `(i, j)` for the five-point stencil with a
/// Dirichlet boundary: each is the adjacent interior point when there is
/// one, and the boundary value on the edges of the grid.
pub fn neighbors_2d(i: usize, j: usize, nx: usize, ny: usize) -> (r: Neighbors2D)
    requires
        i < nx,
        j < ny,
        nx * ny <= usize::MAX,
    ensures
        r.left == shifted(i as int, j as int, -1, 0, nx as int, ny as int),
        r.right == shifted(i as int, j as int, 1, 0, nx as int, ny as int),
        r.below == shifted(i as int, j as int, 0, -1, nx as int, ny as int),
        r.above == shifted(i as int, j as int, 0, 1, nx as int, ny as int),
        i > 0 ==> r.left == Node2D::Cell((j * nx + i - 1) as usize),
        i == 0 ==> r.left == Node2D::Boundary,
        i + 1 < nx ==> r.right == Node2D::Cell((j * nx + i + 1) as usize),
        i + 1 == nx ==> r.right == Node2D::Boundary,
        j > 0 ==> r.below == Node2D::Cell(((j - 1) * nx + i) as usize),
        j == 0 ==> r.below == Node2D::Boundary,
        j + 1 < ny ==> r.above == Node2D::Cell(((j + 1) * nx + i) as usize),
        j + 1 == ny ==> r.above == Node2D::Boundary,
        r.left matches Node2D::Cell(k) ==> k < nx * ny,
        r.right matches Node2D::Cell(k) ==> k < nx * ny,
        r.below matches Node2D::Cell(k) ==> k < nx * ny,
        r.above matches Node2D::Cell(k) ==> k < nx * ny,
{
    let idx = cell_index(i, j, nx, ny);
    let left = if i > 0 {
        Node2D::Cell(idx - 1)
    } else {
        Node2D::Boundary
    };
    let right = if i < nx - 1 {
        Node2D::Cell(idx + 1)
    } else {
        Node2D::Boundary
    };
    let below = if j > 0 {
        proof {
            lemma_flat_index_is_layout(i as int, j - 1, i as int, j - 1, nx as int, ny as int);
            assert(flat_index(i as int, j - 1, nx as int) == idx - nx) by (nonlinear_arith)
                requires
                    idx == j * nx + i,
            ;
        }
        Node2D::Cell(idx - nx)
    } else {
        Node2D::Boundary
    };
    let above = if j < ny - 1 {
        proof {
            lemma_flat_index_is_layout(i as int, j + 1, i as int, j + 1, nx as int, ny as int);
            assert(flat_index(i as int, j + 1, nx as int) == idx + nx) by (nonlinear_arith)
                requires
                    idx == j * nx + i,
            ;
        }
        Node2D::Cell(idx + nx)
    } else {
        Node2D::Boundary
    };
    proof {
        if i > 0 {
            lemma_flat_index_is_layout(i - 1, j as int, i - 1, j as int, nx as int, ny as int);
        }
        if i < nx - 1 {
            lemma_flat_index_is_layout(i + 1, j as int, i + 1, j as int, nx as int, ny as int);
        }
    }
    Neighbors2D { left, right, below, above }
}

/// The value the five-point stencil reads from `node`, for the flat interior
/// values `u` and the boundary value `bc`.
pub open spec fn node2d_value(node: Node2D, u: Seq<int>, bc: int) -> int {
    match node {
        Node2D::Cell(k) => u[k as int],
        Node2D::Boundary => bc,
    }
}

/// One explicit step of the 2D heat equation at `(i, j)`, scaled by `q`, with
/// mesh ratios `alpha dt / dx^2 = px / q` and `alpha dt / dy^2 = py / q`:
/// `q u_new = q u + px (left - 2u + right) + py (below - 2u + above)`.
pub open spec fn scaled_explicit_update_2d(
    u: Seq<int>,
    bc: int,
    px: int,
    py: int,
    q: int,
    i: int,
    j: int,
    nx: int,
    ny: int,
) -> int {
    let c = u[flat_index(i, j, nx)];
    let l = node2d_value(shifted(i, j, -1, 0, nx, ny), u, bc);
    let r = node2d_value(shifted(i, j, 1, 0, nx, ny), u, bc);
    let b = node2d_value(shifted(i, j, 0, -1, nx, ny), u, bc);
    let a = node2d_value(shifted(i, j, 0, 1, nx, ny), u, bc);
    q * c + px * (l - 2 * c + r) + py * (b - 2 * c + a)
}

/// A neighbour of an on-grid point reads a value from the range `[lo, hi]`
/// that holds the boundary value and every interior value.
proof fn lemma_shifted_value_in_range(
    u: Seq<int>,
    bc: int,
    lo: int,
    hi: int,
    i: int,
    j: int,
    di: int,
    dj: int,
    nx: int,
    ny: int,
)
    requires
        on_grid(i, j, nx, ny),
        nx * ny <= usize::MAX,
        u.len() == nx * ny,
        lo <= bc <= hi,
        forall|k: int| 0 <= k < u.len() ==> lo <= #[trigger] u[k] <= hi,
    ensures
        lo <= node2d_value(shifted(i, j, di, dj, nx, ny), u, bc) <= hi,
{
    if on_grid(i + di, j + dj, nx, ny) {
        lemma_flat_index_is_layout(i + di, j + dj, i + di, j + dj, nx, ny);
        let k = flat_index(i + di, j + dj, nx);
        assert(lo <= u[k] <= hi);
    }
}

/// Maximum principle for the explicit 2D heat step: under the stability
/// bound `2 (px + py) <= q` (that is `2 alpha dt (1/dx^2 + 1/dy^2) <= 1`),
/// one step keeps every value within any range `[lo, hi]` that holds the
/// current values and the boundary value.
pub proof fn lemma_explicit_step_2d_stays_in_range(
    u: Seq<int>,
    bc: int,
    px: int,
    py: int,
    q: int,
    lo: int,
    hi: int,
    i: int,
    j: int,
    nx: int,
    ny: int,
)
    requires
        on_grid(i, j, nx, ny),
        nx * ny <= usize::MAX,
        u.len() == nx * ny,
        0 <= px,
        0 <= py,
        2 * (px + py) <= q,
        lo <= bc <= hi,
        forall|k: int| 0 <= k < u.len() ==> lo <= #[trigger] u[k] <= hi,
    ensures
        q * lo <= scaled_explicit_update_2d(u, bc, px, py, q, i, j, nx, ny) <= q * hi,
{
    lemma_flat_index_is_layout(i, j, i, j, nx, ny);
    let c = u[flat_index(i, j, nx)];
    let l = node2d_value(shifted(i, j, -1, 0, nx, ny), u, bc);
    let r = node2d_value(shifted(i, j, 1, 0, nx, ny), u, bc);
    let b = node2d_value(shifted(i, j, 0, -1, nx, ny), u, bc);
    let a = node2d_value(shifted(i, j, 0, 1, nx, ny), u, bc);
    lemma_shifted_value_in_range(u, bc, lo, hi, i, j, -1, 0, nx, ny);
    lemma_shifted_value_in_range(u, bc, lo, hi, i, j, 1, 0, nx, ny);
    lemma_shifted_value_in_range(u, bc, lo, hi, i, j, 0, -1, nx, ny);
    lemma_shifted_value_in_range(u, bc, lo, hi, i, j, 0, 1, nx, ny);
    assert(lo <= c <= hi);
    assert(q * lo <= q * c + px * (l - 2 * c + r) + py * (b - 2 * c + a) <= q * hi)
        by (nonlinear_arith)
        requires
            0 <= px,
            0 <= py,
            2 * (px + py) <= q,
            lo <= c <= hi,
            lo <= l <= hi,
            lo <= r <= hi,
            lo <= b <= hi,
            lo <= a <= hi,
    ;
}

/// Position `k` of the row-major storage holds point `(k % nx, k / nx)`.
pub proof fn lemma_position_is_point(k: int, nx: int, ny: int)
    requires
        0 <= nx,
        0 <= ny,
        0 <= k < nx * ny,
    ensures
        on_grid(k % nx, k / nx, nx, ny),
        flat_index(k % nx, k / nx, nx) == k,
{
    assert(nx > 0) by (nonlinear_arith)
        requires
            0 <= nx,
            0 <= ny,
            0 <= k < nx * ny,
    ;
    lemma_fundamental_div_mod(k, nx);
    lemma_mod_pos_bound(k, nx);
    lemma_div_pos_is_pos(k, nx);
    let j = k / nx;
    assert(j < ny) by (nonlinear_arith)
        requires
            nx > 0,
            0 <= j,
            nx * j <= k,
            k < nx * ny,
    ;
    assert(flat_index(k % nx, j, nx) == k) by (nonlinear_arith)
        requires
            k == nx * j + k % nx,
    ;
}

/// The profile after one explicit 2D heat step, scaled by `q`, in row-major
/// storage.
pub open spec fn explicit_step_2d(
    u: Seq<int>,
    bc: int,
    px: int,
    py: int,
    q: int,
    nx: int,
    ny: int,
) -> Seq<int> {
    Seq::new(
        u.len(),
        |k: int| scaled_explicit_update_2d(u, bc, px, py, q, k % nx, k / nx, nx, ny),
    )
}

/// The scaled explicit 2D heat trajectory: state `k` is `q^k` times the
/// profile after `k` explicit steps from `u0` with the fixed boundary value
/// `bc` (scaled along with it).
pub open spec fn explicit_trajectory_2d(
    u0: Seq<int>,
    bc: int,
    px: int,
    py: int,
    q: int,
    nx: int,
    ny: int,
    k: nat,
) -> Seq<int>
    decreases k,
{
    if k == 0 {
        u0
    } else {
        let s = pow(q, (k - 1) as nat);
        explicit_step_2d(
            explicit_trajectory_2d(u0, bc, px, py, q, nx, ny, (k - 1) as nat),
            s * bc,
            px,
            py,
            q,
            nx,
            ny,
        )
    }
}

/// Maximum principle over a whole 2D heat trajectory: under the stability
/// bound `2 (px + py) <= q`, every state stays within any range `[lo, hi]`
/// that holds the initial values and the boundary value (state `k` being
/// scaled by `q^k`).
pub proof fn lemma_explicit_trajectory_2d_stays_in_range(
    u0: Seq<int>,
    bc: int,
    px: int,
    py: int,
    q: int,
    nx: int,
    ny: int,
    lo: int,
    hi: int,
    k: nat,
)
    requires
        0 <= nx,
        0 <= ny,
        nx * ny <= usize::MAX,
        u0.len() == nx * ny,
        0 <= px,
        0 <= py,
        2 * (px + py) <= q,
        lo <= bc <= hi,
        forall|m: int| 0 <= m < u0.len() ==> lo <= #[trigger] u0[m] <= hi,
    ensures
        explicit_trajectory_2d(u0, bc, px, py, q, nx, ny, k).len() == u0.len(),
        forall|m: int|
            0 <= m < u0.len() ==> pow(q, k) * lo <= #[trigger] explicit_trajectory_2d(
                u0,
                bc,
                px,
                py,
                q,
                nx,
                ny,
                k,
            )[m] <= pow(q, k) * hi,
    decreases k,
{
    reveal(pow);
    if k == 0 {
        assert forall|m: int| 0 <= m < u0.len() implies pow(q, k) * lo <= #[trigger] u0[m]
            <= pow(q, k) * hi by {
            assert(1 * lo == lo && 1 * hi == hi);
        }
    } else {
        let k1 = (k - 1) as nat;
        lemma_explicit_trajectory_2d_stays_in_range(u0, bc, px, py, q, nx, ny, lo, hi, k1);
        let prev = explicit_trajectory_2d(u0, bc, px, py, q, nx, ny, k1);
        let s = pow(q, k1);
        lemma_pow_nonnegative(q, k1);
        assert(s * lo <= s * bc <= s * hi) by (nonlinear_arith)
            requires
                0 <= s,
                lo <= bc <= hi,
        ;
        assert(pow(q, k) == q * s);
        assert forall|m: int| 0 <= m < u0.len() implies pow(q, k) * lo
            <= #[trigger] explicit_trajectory_2d(u0, bc, px, py, q, nx, ny, k)[m] <= pow(q, k)
            * hi by {
            lemma_position_is_point(m, nx, ny);
            lemma_explicit_step_2d_stays_in_range(
                prev,
                s * bc,
                px,
                py,
                q,
                s * lo,
                s * hi,
                m % nx,
                m / nx,
                nx,
                ny,
            );
            lemma_mul_is_associative(q, s, lo);
            lemma_mul_is_associative(q, s, hi);
        }
    }
}

/// The five-point stencil reads the true grid neighbours: for each of the
/// four unit shifts of an on-grid point, the neighbour is an interior cell
/// exactly when the shifted point lies on the grid, and that cell's storage
/// position decodes back to the shifted point (column `k % nx`, row
/// `k / nx`); the boundary value is read only across an edge of the grid.
pub proof fn lemma_shifted_reads_grid_neighbor(i: int, j: int, di: int, dj: int, nx: int, ny: int)
    requires
        on_grid(i, j, nx, ny),
        nx * ny <= usize::MAX,
        (di == 0 && (dj == 1 || dj == -1)) || (dj == 0 && (di == 1 || di == -1)),
    ensures
        on_grid(i + di, j + dj, nx, ny) <==> shifted(i, j, di, dj, nx, ny) is Cell,
        shifted(i, j, di, dj, nx, ny) matches Node2D::Cell(k) ==> {
            &&& k < nx * ny
            &&& k as int % nx == i + di
            &&& k as int / nx == j + dj
        },
{
    if on_grid(i + di, j + dj, nx, ny) {
        lemma_flat_index_is_layout(i + di, j + dj, i + di, j + dj, nx, ny);
        let k = flat_index(i + di, j + dj, nx);
        lemma_fundamental_div_mod_converse(k, nx, j + dj, i + di);
    }
}

/// An interior point (one cell away from every edge) reads no boundary value:
/// its four neighbours are the cells directly left, right, below and above it.
pub proof fn lemma_interior_point_reads_four_cells(i: int, j: int, nx: int, ny: int)
    requires
        0 < i < nx - 1,
        0 < j < ny - 1,
    ensures
        shifted(i, j, -1, 0, nx, ny) == Node2D::Cell(flat_index(i - 1, j, nx) as usize),
        shifted(i, j, 1, 0, nx, ny) == Node2D::Cell(flat_index(i + 1, j, nx) as usize),
        shifted(i, j, 0, -1, nx, ny) == Node2D::Cell(flat_index(i, j - 1, nx) as usize),
        shifted(i, j, 0, 1, nx, ny) == Node2D::Cell(flat_index(i, j + 1, nx) as usize),
{
}

} // verus!
