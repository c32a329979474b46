//! Neighbour resolution for the three-point stencils on a 1D grid of `n`
//! interior points.

use vstd::prelude::*;

verus! {

/// Where a stencil reads one neighbouring value from.
#[derive(PartialEq, Eq, Structural, Clone, Copy, Debug)]
pub enum Node {
    /// The interior value stored at this index.
    Cell(usize),
    /// The left boundary value.
    LeftBoundary,
    /// The right boundary value.
    RightBoundary,
}

/// The two neighbours read by a three-point stencil at one interior point.
#[derive(PartialEq, Eq, Structural, Clone, Copy, Debug)]
pub struct Neighbors {
    pub left: Node,
    pub right: Node,
}

/// Left neighbour of point `i` under Dirichlet boundary conditions.
pub open spec fn dirichlet_left(i: int) -> Node {
    if i == 0 { Node::LeftBoundary } else { Node::Cell((i - 1) as usize) }
}

/// Right neighbour of point `i` of `n` under Dirichlet boundary conditions.
pub open spec fn dirichlet_right(i: int, n: int) -> Node {
    if i == n - 1 { Node::RightBoundary } else { Node::Cell((i + 1) as usize) }
}

/// Neighbours of interior point `i` when the stencil reads a value beyond
/// each end of the grid (a prescribed Dirichlet value, or the ghost value of
/// a Robin condition): the first point reads the left boundary value, the
/// last point reads the right one, every other read is an interior cell. A
/// one-point grid reads both boundary values.
pub fn dirichlet_neighbors(i: usize, n: usize) -> (r: Neighbors)
    requires
        i < n,
    ensures
        r.left == dirichlet_left(i as int),
        r.right == dirichlet_right(i as int, n as int),
        i == 0 ==> r.left == Node::LeftBoundary,
        i > 0 ==> r.left == Node::Cell((i - 1) as usize),
        i + 1 == n ==> r.right == Node::RightBoundary,
        i + 1 < n ==> r.right == Node::Cell((i + 1) as usize),
{
    let left = if i == 0 { Node::LeftBoundary } else { Node::Cell(i - 1) };
    let right = if i == n - 1 { Node::RightBoundary } else { Node::Cell(i + 1) };
    Neighbors { left, right }
}

/// Index of the left neighbour of `i` when the edge value is replicated
/// beyond the grid (zero-gradient boundary).
pub open spec fn clamped_left(i: int) -> int {
    if i == 0 { 0 } else { i - 1 }
}

/// Index of the right neighbour of `i` of `n` when the edge value is
/// replicated beyond the grid (zero-gradient boundary).
pub open spec fn clamped_right(i: int, n: int) -> int {
    if i == n - 1 { n - 1 } else { i + 1 }
}

/// Indices of the left and right neighbours of `i` under a zero-gradient
/// (outflow) boundary: at either end the point itself stands in for the
/// missing neighbour.
pub fn clamped_neighbors(i: usize, n: usize) -> (r: (usize, usize))
    requires
        i < n,
    ensures
        r.0 == clamped_left(i as int),
        r.1 == clamped_right(i as int, n as int),
        i == 0 ==> r.0 == 0,
        i > 0 ==> r.0 == i - 1,
        i + 1 == n ==> r.1 == i,
        i + 1 < n ==> r.1 == i + 1,
        r.0 < n,
        r.1 < n,
{
    let l = if i == 0 { 0 } else { i - 1 };
    let r = if i == n - 1 { n - 1 } else { i + 1 };
    (l, r)
}

/// The two indices whose difference a first-order upwind scheme takes at
/// point `i`, as `(back, front)`. When information travels to the right
/// (`rightward`), the difference is taken against the left neighbour,
/// `u[i] - u[left]`; otherwise against the right neighbour, `u[right] - u[i]`.
/// Neighbours beyond the grid are replaced by the edge value.
pub fn upwind_pair(i: usize, n: usize, rightward: bool) -> (r: (usize, usize))
    requires
        i < n,
    ensures
        rightward ==> r == (clamped_left(i as int) as usize, i),
        !rightward ==> r == (i, clamped_right(i as int, n as int) as usize),
        rightward ==> r.1 == i && (i == 0 ==> r.0 == 0) && (i > 0 ==> r.0 == i - 1),
        !rightward ==> r.0 == i && (i + 1 == n ==> r.1 == i) && (i + 1 < n ==> r.1 == i + 1),
        r.0 < n,
        r.1 < n,
{
    let (l, rt) = clamped_neighbors(i, n);
    if rightward {
        (l, i)
    } else {
        (i, rt)
    }
}

/// The value a stencil reads from `node`, for interior values `u` and
/// boundary values `left` and `right`.
pub open spec fn node_value(node: Node, u: Seq<int>, left: int, right: int) -> int {
    match node {
        Node::Cell(j) => u[j as int],
        Node::LeftBoundary => left,
        Node::RightBoundary => right,
    }
}

/// The value left of point `i` under Dirichlet conditions: the left boundary
/// value at the first point, `u[i - 1]` elsewhere.
pub open spec fn left_value(u: Seq<int>, left: int, i: int) -> int {
    if i == 0 { left } else { u[i - 1] }
}

/// The value right of point `i` under Dirichlet conditions: the right
/// boundary value at the last point, `u[i + 1]` elsewhere.
pub open spec fn right_value(u: Seq<int>, right: int, i: int) -> int {
    if i == u.len() - 1 { right } else { u[i + 1] }
}

/// The three-point second difference `u[i-1] - 2 u[i] + u[i+1]` at point
/// `i`, with the boundary values standing in beyond the grid.
pub open spec fn second_difference(u: Seq<int>, left: int, right: int, i: int) -> int {
    left_value(u, left, i) - 2 * u[i] + right_value(u, right, i)
}

/// Reading the nodes that `dirichlet_neighbors` resolves gives exactly the
/// neighbour values of the second difference.
pub proof fn lemma_dirichlet_nodes_read_neighbors(u: Seq<int>, left: int, right: int, i: int)
    requires
        0 <= i < u.len() <= usize::MAX,
    ensures
        node_value(dirichlet_left(i), u, left, right) == left_value(u, left, i),
        node_value(dirichlet_right(i, u.len() as int), u, left, right) == right_value(
            u,
            right,
            i,
        ),
{
}

/// One first-order upwind transport step at point `i` with Courant number
/// `a / b`, scaled by `b`: `b * u_new[i] = b * u[i] - a * (u[front] - u[back])`,
/// where `(back, front)` is the upwind pair for the direction of transport
/// (`rightward` when the velocity is non-negative), as `upwind_pair` gives it.
pub open spec fn scaled_upwind_update(u: Seq<int>, a: int, b: int, rightward: bool, i: int) -> int {
    let n = u.len() as int;
    if rightward {
        b * u[i] - a * (u[i] - u[clamped_left(i)])
    } else {
        b * u[i] - a * (u[clamped_right(i, n)] - u[i])
    }
}

/// The upwind step under the CFL condition `|a / b| <= 1`, with the Courant
/// number carrying the sign of the velocity (a non-negative time step), is a
/// convex combination of `u[i]` and its upwind neighbour, so it never leaves
/// the range `[lo, hi]` that holds the current values.
pub proof fn lemma_upwind_step_stays_in_range(
    u: Seq<int>,
    a: int,
    b: int,
    rightward: bool,
    lo: int,
    hi: int,
    i: int,
)
    requires
        0 <= i < u.len(),
        rightward ==> 0 <= a <= b,
        !rightward ==> -b <= a <= 0,
        forall|j: int| 0 <= j < u.len() ==> lo <= #[trigger] u[j] <= hi,
    ensures
        b * lo <= scaled_upwind_update(u, a, b, rightward, i) <= b * hi,
{
    let n = u.len() as int;
    let c = u[i];
    if rightward {
        let w = u[clamped_left(i)];
        assert(lo <= w <= hi);
        assert(b * lo <= b * c - a * (c - w) <= b * hi) by (nonlinear_arith)
            requires
                0 <= a <= b,
                lo <= c <= hi,
                lo <= w <= hi,
        ;
    } else {
        let w = u[clamped_right(i, n)];
        assert(lo <= w <= hi);
        assert(b * lo <= b * c - a * (w - c) <= b * hi) by (nonlinear_arith)
            requires
                -b <= a <= 0,
                lo <= c <= hi,
                lo <= w <= hi,
        ;
    }
}

/// One Lax-Friedrichs transport step at point `i` with Courant number `a / b`,
/// scaled by `2 b`: `2 b u_new[i] = b (u[l] + u[r]) - a (u[r] - u[l])` for the
/// zero-gradient neighbours `l` and `r`.
pub open spec fn scaled_lax_friedrichs_update(u: Seq<int>, a: int, b: int, i: int) -> int {
    let n = u.len() as int;
    let l = u[clamped_left(i)];
    let r = u[clamped_right(i, n)];
    b * (l + r) - a * (r - l)
}

/// Under the CFL condition `|a / b| <= 1` the Lax-Friedrichs step is a convex
/// combination of the two neighbours, so it never leaves the range `[lo, hi]`
/// that holds the current values, whatever the direction of transport.
pub proof fn lemma_lax_friedrichs_step_stays_in_range(
    u: Seq<int>,
    a: int,
    b: int,
    lo: int,
    hi: int,
    i: int,
)
    requires
        0 <= i < u.len(),
        -b <= a <= b,
        forall|j: int| 0 <= j < u.len() ==> lo <= #[trigger] u[j] <= hi,
    ensures
        2 * b * lo <= scaled_lax_friedrichs_update(u, a, b, i) <= 2 * b * hi,
{
    let n = u.len() as int;
    let l = u[clamped_left(i)];
    let r = u[clamped_right(i, n)];
    assert(lo <= l <= hi);
    assert(lo <= r <= hi);
    assert(2 * b * lo <= b * (l + r) - a * (r - l) <= 2 * b * hi) by (nonlinear_arith)
        requires
            -b <= a <= b,
            lo <= l <= hi,
            lo <= r <= hi,
    ;
}

/// Zero-gradient neighbours are mutual and adjacent: for any two consecutive
/// points `i` and `i + 1` of the grid, the right neighbour of `i` is `i + 1`
/// and the left neighbour of `i + 1` is `i`; only beyond the two ends does a
/// point stand in for itself.
pub proof fn lemma_clamped_neighbors_are_adjacent(i: int, n: int)
    requires
        0 <= i,
        i + 1 < n,
    ensures
        clamped_right(i, n) == i + 1,
        clamped_left(i + 1) == i,
        clamped_left(0) == 0,
        clamped_right(n - 1, n) == n - 1,
{
}

/// With Courant number one the upwind step moves the profile by exactly one
/// cell in the direction of transport: every point takes the value of its
/// upwind neighbour, and the inflow end keeps its own value.
pub proof fn lemma_unit_courant_upwind_shifts(u: Seq<int>, b: int, i: int)
    requires
        0 <= i < u.len(),
    ensures
        scaled_upwind_update(u, b, b, true, i) == b * (if i == 0 { u[0] } else { u[i - 1] }),
        scaled_upwind_update(u, -b, b, false, i) == b * (if i + 1 == u.len() {
            u[i]
        } else {
            u[i + 1]
        }),
{
    let n = u.len() as int;
    let c = u[i];
    let l = if i == 0 { u[0] } else { u[i - 1] };
    let r = if i + 1 == n { u[i] } else { u[i + 1] };
    assert(u[clamped_left(i)] == l);
    assert(u[clamped_right(i, n)] == r);
    assert(b * c - b * (c - l) == b * l) by (nonlinear_arith);
    assert(b * c - (-b) * (r - c) == b * r) by (nonlinear_arith);
}

/// At an interior point the Lax-Friedrichs step reads the two adjacent values
/// `u[i - 1]` and `u[i + 1]`.
pub proof fn lemma_lax_friedrichs_reads_adjacent(u: Seq<int>, a: int, b: int, i: int)
    requires
        0 < i,
        i + 1 < u.len(),
    ensures
        scaled_lax_friedrichs_update(u, a, b, i) == b * (u[i - 1] + u[i + 1]) - a * (u[i + 1]
            - u[i - 1]),
{
}

} // verus!
