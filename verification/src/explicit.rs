//! The forward-Euler (explicit) scheme for the heat equation in exact
//! arithmetic: with mesh ratio `alpha * dt / dx^2 = p / q`, one step maps `u`
//! to `u + (p / q) * (second difference)`. To stay in integers every step is
//! scaled by `q`, so after `k` steps the profile is `q^k` times the true one.

use vstd::prelude::*;
use crate::stencil::{left_value, right_value, second_difference};
use vstd::arithmetic::power::pow;
use vstd::arithmetic::mul::{
    lemma_mul_is_associative, lemma_mul_is_commutative, lemma_mul_is_distributive_add,
    lemma_mul_is_distributive_sub,
};

verus! {

/// One forward-Euler step of the heat equation at point `i`, scaled by `q`:
/// `q * u_new[i] = q * u[i] + p * (second difference at i)`, where `p / q`
/// is the mesh ratio `alpha * dt / dx^2`.
pub open spec fn scaled_explicit_update(
    u: Seq<int>,
    left: int,
    right: int,
    p: int,
    q: int,
    i: int,
) -> int {
    q * u[i] + p * second_difference(u, left, right, i)
}

/// The explicit step is the weighted average
/// `(q - 2p) u[i] + p (left neighbour) + p (right neighbour)`.
proof fn lemma_explicit_update_weights(u: Seq<int>, left: int, right: int, p: int, q: int, i: int)
    requires
        0 <= i < u.len(),
    ensures
        scaled_explicit_update(u, left, right, p, q, i) == (q - 2 * p) * u[i] + p * left_value(
            u,
            left,
            i,
        ) + p * right_value(u, right, i),
{
    let a = left_value(u, left, i);
    let b = right_value(u, right, i);
    let c = u[i];
    assert(q * c + p * (a - 2 * c + b) == (q - 2 * p) * c + p * a + p * b) by (nonlinear_arith);
}

/// Parabolic maximum principle for the explicit scheme: when the mesh ratio
/// satisfies the stability bound `p / q <= 1/2`, one step keeps every value
/// within the range `[lo, hi]` that holds the current values and both
/// boundary values, so diffusion never creates new extremes.
pub proof fn lemma_explicit_step_stays_in_range(
    u: Seq<int>,
    left: int,
    right: int,
    p: int,
    q: int,
    lo: int,
    hi: int,
    i: int,
)
    requires
        0 <= i < u.len(),
        0 <= p,
        2 * p <= q,
        lo <= left <= hi,
        lo <= right <= hi,
        forall|j: int| 0 <= j < u.len() ==> lo <= #[trigger] u[j] <= hi,
    ensures
        q * lo <= scaled_explicit_update(u, left, right, p, q, i) <= q * hi,
{
    lemma_explicit_update_weights(u, left, right, p, q, i);
    let a = left_value(u, left, i);
    let b = right_value(u, right, i);
    let c = u[i];
    assert(lo <= a <= hi);
    assert(lo <= b <= hi);
    assert(q * lo <= (q - 2 * p) * c + p * a + p * b <= q * hi) by (nonlinear_arith)
        requires
            0 <= p,
            2 * p <= q,
            lo <= a <= hi,
            lo <= b <= hi,
            lo <= c <= hi,
    ;
}

/// Comparison principle for the explicit scheme: under the stability bound
/// `p / q <= 1/2`, if one profile lies above another everywhere and both have
/// the same boundary values, it still lies above it after one step.
pub proof fn lemma_explicit_step_preserves_order(
    u: Seq<int>,
    v: Seq<int>,
    left: int,
    right: int,
    p: int,
    q: int,
    i: int,
)
    requires
        u.len() == v.len(),
        0 <= i < u.len(),
        0 <= p,
        2 * p <= q,
        forall|j: int| 0 <= j < u.len() ==> v[j] <= #[trigger] u[j],
    ensures
        scaled_explicit_update(v, left, right, p, q, i) <= scaled_explicit_update(
            u,
            left,
            right,
            p,
            q,
            i,
        ),
{
    lemma_explicit_update_weights(u, left, right, p, q, i);
    lemma_explicit_update_weights(v, left, right, p, q, i);
    let (ua, ub, uc) = (left_value(u, left, i), right_value(u, right, i), u[i]);
    let (va, vb, vc) = (left_value(v, left, i), right_value(v, right, i), v[i]);
    assert(va <= ua);
    assert(vb <= ub);
    assert((q - 2 * p) * vc + p * va + p * vb <= (q - 2 * p) * uc + p * ua + p * ub)
        by (nonlinear_arith)
        requires
            0 <= p,
            2 * p <= q,
            va <= ua,
            vb <= ub,
            vc <= uc,
    ;
}

/// `u[0]^2 + ... + u[k-1]^2`.
pub open spec fn sum_of_squares(u: Seq<int>, k: int) -> int
    decreases k,
{
    if k <= 0 {
        0
    } else {
        sum_of_squares(u, k - 1) + u[k - 1] * u[k - 1]
    }
}

/// The profile after one explicit heat step, scaled by `q`.
pub open spec fn explicit_step(u: Seq<int>, left: int, right: int, p: int, q: int) -> Seq<int> {
    Seq::new(u.len(), |i: int| scaled_explicit_update(u, left, right, p, q, i))
}

/// `lv_0^2 + ... + lv_{k-1}^2` for the left neighbour values `lv_i`.
spec fn left_squares(u: Seq<int>, left: int, k: int) -> int
    decreases k,
{
    if k <= 0 {
        0
    } else {
        left_squares(u, left, k - 1) + left_value(u, left, k - 1) * left_value(u, left, k - 1)
    }
}

/// `rv_0^2 + ... + rv_{k-1}^2` for the right neighbour values `rv_i`.
spec fn right_squares(u: Seq<int>, right: int, k: int) -> int
    decreases k,
{
    if k <= 0 {
        0
    } else {
        right_squares(u, right, k - 1) + right_value(u, right, k - 1) * right_value(
            u,
            right,
            k - 1,
        )
    }
}

proof fn lemma_square_of_sum(x: int, y: int, z: int)
    ensures
        (x + y + z) * (x + y + z) == x * x + y * y + z * z + 2 * (x * y) + 2 * (x * z) + 2 * (y
            * z),
{
    assert((x + y + z) * (x + y + z) == x * x + y * y + z * z + 2 * (x * y) + 2 * (x * z) + 2 * (y
        * z)) by (nonlinear_arith);
}

proof fn lemma_product_of_sums(a: int, b: int, c: int, x: int, y: int, z: int)
    ensures
        (a + b + c) * (x + y + z) == a * x + a * y + a * z + b * x + b * y + b * z + c * x + c * y
            + c * z,
{
    assert((a + b + c) * (x + y + z) == a * x + a * y + a * z + b * x + b * y + b * z + c * x + c
        * y + c * z) by (nonlinear_arith);
}

proof fn lemma_scaled_square(a: int, x: int)
    ensures
        a * (a * (x * x)) == (a * x) * (a * x),
{
    assert(a * (a * (x * x)) == (a * x) * (a * x)) by (nonlinear_arith);
}

/// `a (b y^2) + b (a x^2) - 2 (a x)(b y) = a b (x - y)^2 >= 0`.
proof fn lemma_cross_terms(a: int, b: int, x: int, y: int)
    requires
        0 <= a,
        0 <= b,
    ensures
        a * (b * (y * y)) + b * (a * (x * x)) >= 2 * ((a * x) * (b * y)),
{
    let m = a * b;
    // Regroup every term as a multiple of `m = a b`.
    lemma_mul_is_associative(a, b, y * y);
    lemma_mul_is_associative(b, a, x * x);
    lemma_mul_is_commutative(a, b);
    assert((a * x) * (b * y) == m * (x * y)) by {
        lemma_mul_is_associative(a * x, b, y);
        lemma_mul_is_associative(a, x, b);
        lemma_mul_is_commutative(x, b);
        lemma_mul_is_associative(a, b, x);
        lemma_mul_is_associative(a * b, x, y);
    }
    let d = x - y;
    assert(d * d == x * x - 2 * (x * y) + y * y) by (nonlinear_arith)
        requires
            d == x - y,
    ;
    assert(m * (d * d) == m * (x * x) - 2 * (m * (x * y)) + m * (y * y)) by {
        lemma_mul_is_distributive_add(m, x * x - 2 * (x * y), y * y);
        lemma_mul_is_distributive_sub(m, x * x, 2 * (x * y));
        lemma_mul_is_associative(m, 2, x * y);
        lemma_mul_is_commutative(m, 2);
        lemma_mul_is_associative(2, m, x * y);
    }
    assert(m >= 0) by (nonlinear_arith)
        requires
            0 <= a,
            0 <= b,
            m == a * b,
    ;
    assert(m * (d * d) >= 0) by (nonlinear_arith)
        requires
            m >= 0,
    ;
}

/// `(a x + b y + c z)^2 <= (a + b + c)(a x^2 + b y^2 + c z^2)` for
/// non-negative weights.
proof fn lemma_weighted_square(a: int, b: int, c: int, x: int, y: int, z: int)
    requires
        0 <= a,
        0 <= b,
        0 <= c,
    ensures
        (a * x + b * y + c * z) * (a * x + b * y + c * z) <= (a + b + c) * (a * (x * x) + b * (y
            * y) + c * (z * z)),
{
    lemma_square_of_sum(a * x, b * y, c * z);
    lemma_product_of_sums(a, b, c, a * (x * x), b * (y * y), c * (z * z));
    lemma_scaled_square(a, x);
    lemma_scaled_square(b, y);
    lemma_scaled_square(c, z);
    lemma_cross_terms(a, b, x, y);
    lemma_cross_terms(a, c, x, z);
    lemma_cross_terms(b, c, y, z);
}

proof fn lemma_step_squares_bounded(u: Seq<int>, p: int, q: int, k: int)
    requires
        0 <= p,
        2 * p <= q,
        0 <= k <= u.len(),
    ensures
        sum_of_squares(explicit_step(u, 0, 0, p, q), k) <= q * ((q - 2 * p) * sum_of_squares(u, k)
            + p * left_squares(u, 0, k) + p * right_squares(u, 0, k)),
    decreases k,
{
    if k > 0 {
        let i = k - 1;
        lemma_step_squares_bounded(u, p, q, i);
        lemma_explicit_update_weights(u, 0, 0, p, q, i);
        let a = left_value(u, 0, i);
        let b = right_value(u, 0, i);
        let c = u[i];
        lemma_weighted_square(q - 2 * p, p, p, c, a, b);
        let w = explicit_step(u, 0, 0, p, q);
        assert(w[i] == (q - 2 * p) * c + p * a + p * b);
        let s0 = sum_of_squares(u, i);
        let l0 = left_squares(u, 0, i);
        let r0 = right_squares(u, 0, i);
        assert(q * ((q - 2 * p) * (s0 + c * c) + p * (l0 + a * a) + p * (r0 + b * b)) == q * ((q
            - 2 * p) * s0 + p * l0 + p * r0) + q * ((q - 2 * p) * (c * c) + p * (a * a) + p * (b
            * b))) by (nonlinear_arith);
    }
}

proof fn lemma_left_squares_shift(u: Seq<int>, k: int)
    requires
        1 <= k <= u.len(),
    ensures
        left_squares(u, 0, k) == sum_of_squares(u, k - 1),
    decreases k,
{
    if k > 1 {
        lemma_left_squares_shift(u, k - 1);
        assert(left_value(u, 0, k - 1) == u[k - 2]);
    } else {
        assert(left_squares(u, 0, 0) == 0);
        assert(left_value(u, 0, 0) == 0);
        assert(sum_of_squares(u, 0) == 0);
    }
}

proof fn lemma_right_squares_shift(u: Seq<int>, k: int)
    requires
        1 <= k < u.len(),
    ensures
        right_squares(u, 0, k) == sum_of_squares(u, k + 1) - u[0] * u[0],
    decreases k,
{
    if k > 1 {
        lemma_right_squares_shift(u, k - 1);
    } else {
        assert(sum_of_squares(u, 0) == 0);
        assert(sum_of_squares(u, 1) == u[0] * u[0]);
        assert(sum_of_squares(u, 2) == u[0] * u[0] + u[1] * u[1]);
        assert(right_squares(u, 0, 0) == 0);
        assert(right_value(u, 0, 0) == u[1]);
    }
}

/// Energy decay for the explicit scheme: with zero boundary values and a mesh
/// ratio `p / q <= 1/2`, one step never increases the discrete energy
/// `sum u[i]^2` (the step is scaled by `q`, so its energy is compared with
/// `q^2` times the energy before).
pub proof fn lemma_explicit_step_energy_decreases(u: Seq<int>, p: int, q: int)
    requires
        0 <= p,
        2 * p <= q,
    ensures
        sum_of_squares(explicit_step(u, 0, 0, p, q), u.len() as int) <= q * q * sum_of_squares(
            u,
            u.len() as int,
        ),
{
    let n = u.len() as int;
    if n == 0 {
        assert(q * q * 0 == 0) by (nonlinear_arith);
        return;
    }
    lemma_step_squares_bounded(u, p, q, n);
    lemma_left_squares_shift(u, n);
    let s = sum_of_squares(u, n);
    let last = u[n - 1] * u[n - 1];
    let first = u[0] * u[0];
    assert(right_squares(u, 0, n) == s - first) by {
        if n > 1 {
            lemma_right_squares_shift(u, n - 1);
        }
    }
    assert(sum_of_squares(u, n - 1) == s - last);
    assert(u[n - 1] * u[n - 1] >= 0) by (nonlinear_arith);
    assert(u[0] * u[0] >= 0) by (nonlinear_arith);
    assert(q * ((q - 2 * p) * s + p * (s - last) + p * (s - first)) <= q * q * s) by (
    nonlinear_arith)
        requires
            0 <= p,
            2 * p <= q,
            last >= 0,
            first >= 0,
    ;
}

/// The scaled explicit trajectory: state `k` is `q^k` times the profile after
/// `k` explicit steps from `u0` with fixed boundary values `left` and
/// `right` (which are scaled along with it).
pub open spec fn explicit_trajectory(
    u0: Seq<int>,
    left: int,
    right: int,
    p: int,
    q: int,
    k: nat,
) -> Seq<int>
    decreases k,
{
    if k == 0 {
        u0
    } else {
        let s = pow(q, (k - 1) as nat);
        explicit_step(explicit_trajectory(u0, left, right, p, q, (k - 1) as nat), s * left, s * right, p, q)
    }
}

proof fn lemma_explicit_trajectory_len(u0: Seq<int>, left: int, right: int, p: int, q: int, k: nat)
    ensures
        explicit_trajectory(u0, left, right, p, q, k).len() == u0.len(),
    decreases k,
{
    if k > 0 {
        lemma_explicit_trajectory_len(u0, left, right, p, q, (k - 1) as nat);
    }
}

/// Powers of a non-negative integer are non-negative.
pub proof fn lemma_pow_nonnegative(q: int, k: nat)
    requires
        0 <= q,
    ensures
        0 <= pow(q, k),
    decreases k,
{
    reveal(pow);
    if k > 0 {
        lemma_pow_nonnegative(q, (k - 1) as nat);
        let s = pow(q, (k - 1) as nat);
        assert(q * s >= 0) by (nonlinear_arith)
            requires
                0 <= q,
                0 <= s,
        ;
    }
}

/// Parabolic maximum principle over a whole trajectory: under the stability
/// bound `p / q <= 1/2`, every state of the explicit heat trajectory stays
/// within any range `[lo, hi]` that holds the initial values and both
/// boundary values (state `k` being scaled by `q^k`).
pub proof fn lemma_explicit_trajectory_stays_in_range(
    u0: Seq<int>,
    left: int,
    right: int,
    p: int,
    q: int,
    lo: int,
    hi: int,
    k: nat,
)
    requires
        0 <= p,
        2 * p <= q,
        lo <= left <= hi,
        lo <= right <= hi,
        forall|j: int| 0 <= j < u0.len() ==> lo <= #[trigger] u0[j] <= hi,
    ensures
        explicit_trajectory(u0, left, right, p, q, k).len() == u0.len(),
        forall|i: int|
            0 <= i < u0.len() ==> pow(q, k) * lo <= #[trigger] explicit_trajectory(
                u0,
                left,
                right,
                p,
                q,
                k,
            )[i] <= pow(q, k) * hi,
    decreases k,
{
    reveal(pow);
    lemma_explicit_trajectory_len(u0, left, right, p, q, k);
    if k == 0 {
        assert(pow(q, 0) == 1);
        assert forall|i: int| 0 <= i < u0.len() implies pow(q, k) * lo <= #[trigger] u0[i]
            <= pow(q, k) * hi by {
            assert(1 * lo == lo && 1 * hi == hi);
        }
    } else {
        let k1 = (k - 1) as nat;
        lemma_explicit_trajectory_stays_in_range(u0, left, right, p, q, lo, hi, k1);
        let prev = explicit_trajectory(u0, left, right, p, q, k1);
        let s = pow(q, k1);
        lemma_pow_nonnegative(q, k1);
        assert(s * lo <= s * left <= s * hi) by (nonlinear_arith)
            requires
                0 <= s,
                lo <= left <= hi,
        ;
        assert(s * lo <= s * right <= s * hi) by (nonlinear_arith)
            requires
                0 <= s,
                lo <= right <= hi,
        ;
        assert(pow(q, k) == q * s);
        assert forall|i: int| 0 <= i < u0.len() implies pow(q, k) * lo
            <= #[trigger] explicit_trajectory(u0, left, right, p, q, k)[i] <= pow(q, k) * hi by {
            lemma_explicit_step_stays_in_range(prev, s * left, s * right, p, q, s * lo, s * hi, i);
            lemma_mul_is_associative(q, s, lo);
            lemma_mul_is_associative(q, s, hi);
        }
    }
}

/// Heat energy decay over a whole trajectory: with zero boundary values and
/// the stability bound `p / q <= 1/2`, no step of the explicit heat
/// trajectory increases the energy `sum u[i]^2` (state `k + 1` carries one
/// more factor `q` than state `k`, so its energy is compared with `q^2` times
/// the energy of state `k`), and hence state `k` has at most `(q^2)^k` times
/// the initial energy.
pub proof fn lemma_explicit_trajectory_energy_decreases(u0: Seq<int>, p: int, q: int, k: nat)
    requires
        0 <= p,
        2 * p <= q,
    ensures
        sum_of_squares(explicit_trajectory(u0, 0, 0, p, q, k + 1), u0.len() as int) <= q * q
            * sum_of_squares(explicit_trajectory(u0, 0, 0, p, q, k), u0.len() as int),
        sum_of_squares(explicit_trajectory(u0, 0, 0, p, q, k), u0.len() as int) <= pow(
            q * q,
            k,
        ) * sum_of_squares(u0, u0.len() as int),
    decreases k,
{
    reveal(pow);
    let n = u0.len() as int;
    let cur = explicit_trajectory(u0, 0, 0, p, q, k);
    lemma_explicit_trajectory_len(u0, 0, 0, p, q, k);
    let s = pow(q, k);
    assert(s * 0 == 0) by (nonlinear_arith);
    assert(explicit_trajectory(u0, 0, 0, p, q, k + 1) == explicit_step(cur, 0, 0, p, q));
    lemma_explicit_step_energy_decreases(cur, p, q);
    if k == 0 {
        assert(pow(q * q, 0) == 1);
        assert(1 * sum_of_squares(u0, n) == sum_of_squares(u0, n));
    } else {
        let k1 = (k - 1) as nat;
        lemma_explicit_trajectory_energy_decreases(u0, p, q, k1);
        let e_prev = sum_of_squares(explicit_trajectory(u0, 0, 0, p, q, k1), n);
        let e_cur = sum_of_squares(cur, n);
        let e0 = sum_of_squares(u0, n);
        let m = pow(q * q, k1);
        assert(pow(q * q, k) == (q * q) * m);
        assert(e0 >= 0) by {
            lemma_sum_of_squares_nonnegative(u0, n);
        }
        assert(e_cur <= (q * q) * (m * e0)) by (nonlinear_arith)
            requires
                e_cur <= q * q * e_prev,
                e_prev <= m * e0,
        ;
        lemma_mul_is_associative(q * q, m, e0);
    }
}

proof fn lemma_sum_of_squares_nonnegative(u: Seq<int>, k: int)
    ensures
        sum_of_squares(u, k) >= 0,
    decreases k,
{
    if k > 0 {
        lemma_sum_of_squares_nonnegative(u, k - 1);
        assert(u[k - 1] * u[k - 1] >= 0) by (nonlinear_arith);
    }
}

/// Comparison principle over a whole trajectory: under the stability bound
/// `p / q <= 1/2`, if one initial profile lies above another everywhere and
/// both evolve with the same boundary values, it lies above it at every
/// later state.
pub proof fn lemma_explicit_trajectory_preserves_order(
    u0: Seq<int>,
    v0: Seq<int>,
    left: int,
    right: int,
    p: int,
    q: int,
    k: nat,
)
    requires
        u0.len() == v0.len(),
        0 <= p,
        2 * p <= q,
        forall|j: int| 0 <= j < u0.len() ==> v0[j] <= #[trigger] u0[j],
    ensures
        forall|i: int|
            0 <= i < u0.len() ==> #[trigger] explicit_trajectory(v0, left, right, p, q, k)[i]
                <= explicit_trajectory(u0, left, right, p, q, k)[i],
    decreases k,
{
    lemma_explicit_trajectory_len(u0, left, right, p, q, k);
    lemma_explicit_trajectory_len(v0, left, right, p, q, k);
    if k > 0 {
        let k1 = (k - 1) as nat;
        lemma_explicit_trajectory_preserves_order(u0, v0, left, right, p, q, k1);
        let pu = explicit_trajectory(u0, left, right, p, q, k1);
        let pv = explicit_trajectory(v0, left, right, p, q, k1);
        lemma_explicit_trajectory_len(u0, left, right, p, q, k1);
        lemma_explicit_trajectory_len(v0, left, right, p, q, k1);
        let s = pow(q, k1);
        assert forall|i: int| 0 <= i < u0.len() implies #[trigger] explicit_trajectory(
            v0,
            left,
            right,
            p,
            q,
            k,
        )[i] <= explicit_trajectory(u0, left, right, p, q, k)[i] by {
            assert forall|j: int| 0 <= j < pu.len() implies pv[j] <= #[trigger] pu[j] by {}
            lemma_explicit_step_preserves_order(pu, pv, s * left, s * right, p, q, i);
        }
    }
}

} // verus!
