//! The finite-difference Laplacian on a 1D grid: its integer pattern, and
//! what applying it (with the boundary contributions) computes.
//!
//! The operator on a grid with spacing `dx` is `(1 / dx^2) * L`, where `L`
//! has `-2` on the diagonal, `1` on the two neighbouring diagonals, and `0`
//! elsewhere.

use vstd::prelude::*;
use crate::stencil::{left_value, right_value, second_difference};

verus! {

/// Entry `(r, c)` of the integer second-difference matrix.
pub open spec fn stencil_weight(r: int, c: int) -> int {
    if r == c {
        -2
    } else if r == c + 1 || c == r + 1 {
        1
    } else {
        0
    }
}

/// `sum_{c < k} L[r][c] * u[c]`: the first `k` terms of row `r` of `L u`.
pub open spec fn row_dot(r: int, u: Seq<int>, k: int) -> int
    decreases k,
{
    if k <= 0 {
        0
    } else {
        row_dot(r, u, k - 1) + stencil_weight(r, k - 1) * u[k - 1]
    }
}

/// What the boundary values add to row `r` when the matrix form is used
/// with Dirichlet conditions: the left value to the first row, the right
/// value to the last.
pub open spec fn boundary_term(r: int, n: int, left: int, right: int) -> int {
    (if r == 0 { left } else { 0 }) + (if r == n - 1 { right } else { 0 })
}

/// Builds the integer second-difference matrix `L` for `n` interior points:
/// `-2` on the diagonal, `1` directly above and below it, `0` elsewhere.
pub fn laplacian_stencil_1d(n: usize) -> (m: Vec<Vec<i64>>)
    ensures
        m@.len() == n,
        forall|r: int| 0 <= r < n ==> (#[trigger] m@[r])@.len() == n,
        forall|r: int, c: int|
            0 <= r < n && 0 <= c < n ==> (#[trigger] m@[r]@[c]) == stencil_weight(r, c),
        forall|r: int| 0 <= r < n ==> #[trigger] m@[r]@[r] == -2,
        forall|r: int| 0 <= r && r + 1 < n ==> #[trigger] m@[r]@[r + 1] == 1 && m@[r + 1]@[r] == 1,
        forall|r: int, c: int|
            0 <= r < n && 0 <= c < n && (c > r + 1 || r > c + 1) ==> #[trigger] m@[r]@[c] == 0,
{
    let mut m: Vec<Vec<i64>> = Vec::new();
    let mut r: usize = 0;
    while r < n
        invariant
            r <= n,
            m@.len() == r,
            forall|q: int| 0 <= q < r ==> (#[trigger] m@[q])@.len() == n,
            forall|q: int, c: int|
                0 <= q < r && 0 <= c < n ==> (#[trigger] m@[q]@[c]) == stencil_weight(q, c),
        decreases n - r,
    {
        let mut row: Vec<i64> = Vec::new();
        let mut c: usize = 0;
        while c < n
            invariant
                c <= n,
                r < n,
                row@.len() == c,
                forall|d: int| 0 <= d < c ==> (#[trigger] row@[d]) == stencil_weight(r as int, d),
            decreases n - c,
        {
            let w: i64 = if c == r {
                -2
            } else if c + 1 == r || c == r + 1 {
                1
            } else {
                0
            };
            row.push(w);
            c = c + 1;
        }
        m.push(row);
        r = r + 1;
    }
    m
}

/// The partial row sums of `L u` in closed form.
proof fn lemma_row_dot_partial(r: int, u: Seq<int>, k: int)
    requires
        0 <= r < u.len(),
        0 <= k <= u.len(),
    ensures
        row_dot(r, u, k) == (if r >= 1 && k >= r { u[r - 1] } else { 0 }) + (if k >= r + 1 {
            -2 * u[r]
        } else {
            0
        }) + (if k >= r + 2 { u[r + 1] } else { 0 }),
    decreases k,
{
    if k > 0 {
        lemma_row_dot_partial(r, u, k - 1);
        let c = k - 1;
        if c == r {
            assert(stencil_weight(r, c) * u[c] == -2 * u[r]);
        } else if c + 1 == r {
            assert(stencil_weight(r, c) * u[c] == u[r - 1]);
        } else if c == r + 1 {
            assert(stencil_weight(r, c) * u[c] == u[r + 1]);
        } else {
            assert(stencil_weight(r, c) * u[c] == 0);
        }
    }
}

/// Row `r` of the matrix form `L u`, plus the boundary contributions, is the
/// three-point second difference at `r` with the boundary values read at the
/// two ends: the matrix form and the stencil form of the operator agree.
pub proof fn lemma_matrix_form_is_second_difference(u: Seq<int>, left: int, right: int, r: int)
    requires
        0 <= r < u.len(),
    ensures
        row_dot(r, u, u.len() as int) + boundary_term(r, u.len() as int, left, right)
            == second_difference(u, left, right, r),
{
    lemma_row_dot_partial(r, u, u.len() as int);
}

/// A constant profile whose boundary values equal that constant is left
/// unchanged by diffusion: its second difference vanishes at every point.
pub proof fn lemma_second_difference_kills_constants(u: Seq<int>, a: int, r: int)
    requires
        0 <= r < u.len(),
        forall|i: int| 0 <= i < u.len() ==> u[i] == a,
    ensures
        second_difference(u, a, a, r) == 0,
{
}

/// A linear profile `u[i] = a + b (i + 1)` with the matching boundary values
/// `a` and `a + b (n + 1)` has a vanishing second difference at every point.
pub proof fn lemma_second_difference_kills_linear(u: Seq<int>, a: int, b: int, r: int)
    requires
        0 <= r < u.len(),
        forall|i: int| 0 <= i < u.len() ==> u[i] == a + b * (i + 1),
    ensures
        second_difference(u, a, a + b * (u.len() + 1), r) == 0,
{
    let n = u.len() as int;
    assert(b * (r + 1) - b * r == b) by (nonlinear_arith);
    assert(b * (r + 2) - b * (r + 1) == b) by (nonlinear_arith);
    assert(b * (n + 1) - b * n == b) by (nonlinear_arith);
    assert(a + b * (0 + 1) == a + b) by (nonlinear_arith);
}

/// The second difference vanishes at every interior point: `u` solves the
/// discrete Laplace equation with boundary values `left` and `right`.
pub open spec fn is_discrete_harmonic(u: Seq<int>, left: int, right: int) -> bool {
    forall|i: int| 0 <= i < u.len() ==> #[trigger] second_difference(u, left, right, i) == 0
}

/// On a discrete harmonic profile every step `u[i] - (value left of i)` is
/// the first step `u[0] - left`.
proof fn lemma_harmonic_steps_equal(u: Seq<int>, left: int, right: int, i: int)
    requires
        is_discrete_harmonic(u, left, right),
        0 <= i < u.len(),
    ensures
        u[i] - left_value(u, left, i) == u[0] - left,
    decreases i,
{
    if i > 0 {
        lemma_harmonic_steps_equal(u, left, right, i - 1);
        assert(second_difference(u, left, right, i - 1) == 0);
    }
}

/// On a discrete harmonic profile with non-negative step, the values rise
/// from `left` up to `right`.
proof fn lemma_harmonic_rising_lower(u: Seq<int>, left: int, right: int, i: int)
    requires
        is_discrete_harmonic(u, left, right),
        0 <= i < u.len(),
        u[0] - left >= 0,
    ensures
        left <= u[i],
    decreases i,
{
    lemma_harmonic_steps_equal(u, left, right, i);
    if i > 0 {
        lemma_harmonic_rising_lower(u, left, right, i - 1);
    }
}

proof fn lemma_harmonic_rising_upper(u: Seq<int>, left: int, right: int, i: int)
    requires
        is_discrete_harmonic(u, left, right),
        0 <= i < u.len(),
        u[0] - left >= 0,
    ensures
        u[i] <= right,
    decreases u.len() - i,
{
    let n = u.len() as int;
    assert(second_difference(u, left, right, i) == 0);
    lemma_harmonic_steps_equal(u, left, right, i);
    if i < n - 1 {
        lemma_harmonic_rising_upper(u, left, right, i + 1);
    }
}

proof fn lemma_harmonic_falling_lower(u: Seq<int>, left: int, right: int, i: int)
    requires
        is_discrete_harmonic(u, left, right),
        0 <= i < u.len(),
        u[0] - left <= 0,
    ensures
        right <= u[i],
    decreases u.len() - i,
{
    let n = u.len() as int;
    assert(second_difference(u, left, right, i) == 0);
    lemma_harmonic_steps_equal(u, left, right, i);
    if i < n - 1 {
        lemma_harmonic_falling_lower(u, left, right, i + 1);
    }
}

proof fn lemma_harmonic_falling_upper(u: Seq<int>, left: int, right: int, i: int)
    requires
        is_discrete_harmonic(u, left, right),
        0 <= i < u.len(),
        u[0] - left <= 0,
    ensures
        u[i] <= left,
    decreases i,
{
    lemma_harmonic_steps_equal(u, left, right, i);
    if i > 0 {
        lemma_harmonic_falling_upper(u, left, right, i - 1);
    }
}

/// Discrete maximum principle: a solution of the discrete Laplace equation
/// takes its extreme values on the boundary, so every interior value lies
/// between the two boundary values.
pub proof fn lemma_discrete_maximum_principle(u: Seq<int>, left: int, right: int)
    requires
        is_discrete_harmonic(u, left, right),
    ensures
        forall|i: int|
            0 <= i < u.len() ==> {
                &&& (if left <= right { left } else { right }) <= #[trigger] u[i]
                &&& u[i] <= (if left <= right { right } else { left })
            },
{
    assert forall|i: int| 0 <= i < u.len() implies {
        &&& (if left <= right { left } else { right }) <= #[trigger] u[i]
        &&& u[i] <= (if left <= right { right } else { left })
    } by {
        if u[0] - left >= 0 {
            lemma_harmonic_rising_lower(u, left, right, i);
            lemma_harmonic_rising_upper(u, left, right, i);
        } else {
            lemma_harmonic_falling_lower(u, left, right, i);
            lemma_harmonic_falling_upper(u, left, right, i);
        }
    }
}

/// Uniqueness: two solutions of the discrete Laplace equation with the same
/// boundary values are equal, so the linear profile is the only one, and
/// every solver of the discrete problem must arrive at it.
pub proof fn lemma_discrete_harmonic_unique(u: Seq<int>, v: Seq<int>, left: int, right: int)
    requires
        u.len() == v.len(),
        is_discrete_harmonic(u, left, right),
        is_discrete_harmonic(v, left, right),
    ensures
        u == v,
{
    let w = Seq::new(u.len(), |i: int| u[i] - v[i]);
    assert forall|i: int| 0 <= i < w.len() implies #[trigger] second_difference(w, 0, 0, i)
        == 0 by {
        assert(second_difference(u, left, right, i) == 0);
        assert(second_difference(v, left, right, i) == 0);
    }
    lemma_discrete_maximum_principle(w, 0, 0);
    assert forall|i: int| 0 <= i < u.len() implies u[i] == v[i] by {
        assert(w[i] == u[i] - v[i]);
    }
    assert(u =~= v);
}

/// One point update of the backward-Euler (implicit) heat scheme with mesh
/// ratio `p / q`, scaled by `q + 2p`:
/// `(q + 2p) u_new[i] = q u[i] + p (left neighbour) + p (right neighbour)`.
pub open spec fn scaled_implicit_update(u: Seq<int>, left: int, right: int, p: int, q: int, i: int) -> int {
    q * u[i] + p * left_value(u, left, i) + p * right_value(u, right, i)
}

proof fn lemma_implicit_point_fixed(u: Seq<int>, left: int, right: int, p: int, q: int, i: int)
    requires
        0 < p,
        0 <= i < u.len(),
    ensures
        (q + 2 * p) * u[i] == scaled_implicit_update(u, left, right, p, q, i)
            <==> second_difference(u, left, right, i) == 0,
{
    let a = left_value(u, left, i);
    let b = right_value(u, right, i);
    let c = u[i];
    assert((q + 2 * p) * c - (q * c + p * a + p * b) == -(p * (a - 2 * c + b)))
        by (nonlinear_arith);
    assert(p * (a - 2 * c + b) == 0 <==> a - 2 * c + b == 0) by (nonlinear_arith)
        requires
            0 < p,
    ;
}

/// Steady states of the implicit scheme: for a positive mesh ratio, a profile
/// is left unchanged by the implicit point update at every point exactly
/// when it solves the discrete Laplace equation with the same boundary
/// values.
pub proof fn lemma_implicit_fixed_point_is_harmonic(u: Seq<int>, left: int, right: int, p: int, q: int)
    requires
        0 < p,
    ensures
        (forall|i: int|
            0 <= i < u.len() ==> (q + 2 * p) * u[i] == #[trigger] scaled_implicit_update(
                u,
                left,
                right,
                p,
                q,
                i,
            )) <==> is_discrete_harmonic(u, left, right),
{
    if forall|i: int|
        0 <= i < u.len() ==> (q + 2 * p) * u[i] == #[trigger] scaled_implicit_update(
            u,
            left,
            right,
            p,
            q,
            i,
        ) {
        assert forall|i: int| 0 <= i < u.len() implies #[trigger] second_difference(
            u,
            left,
            right,
            i,
        ) == 0 by {
            lemma_implicit_point_fixed(u, left, right, p, q, i);
        }
    }
    if is_discrete_harmonic(u, left, right) {
        assert forall|i: int| 0 <= i < u.len() implies (q + 2 * p) * u[i]
            == #[trigger] scaled_implicit_update(u, left, right, p, q, i) by {
            lemma_implicit_point_fixed(u, left, right, p, q, i);
            assert(second_difference(u, left, right, i) == 0);
        }
    }
}

} // verus!
