//! How the solvers advance in time and iterate to a fixed point. The state
//! and the update rule are supplied by the caller; these functions fix the
//! bookkeeping: how many states a trajectory holds, which state each one is
//! computed from, and when an iteration stops and what count it reports.

use vstd::prelude::*;

verus! {

/// Runs a one-step time-stepping scheme for `steps` steps from `u0` and
/// returns the whole trajectory: `steps + 1` states, the first being `u0`
/// and each later one the result of one `step` applied to the state before.
pub fn evolve<T, F: Fn(&T) -> T>(u0: T, steps: usize, step: F) -> (traj: Vec<T>)
    requires
        steps < usize::MAX,
        forall|x: &T| step.requires((x,)),
    ensures
        traj@.len() == steps + 1,
        traj@[0] == u0,
        forall|k: int|
            #![trigger traj@[k]]
            0 <= k < steps ==> step.ensures((&traj@[k],), traj@[k + 1]),
{
    let mut traj: Vec<T> = Vec::new();
    traj.push(u0);
    let mut k: usize = 0;
    while k < steps
        invariant
            k <= steps,
            traj@.len() == k + 1,
            traj@[0] == u0,
            forall|x: &T| step.requires((x,)),
            forall|q: int|
                #![trigger traj@[q]]
                0 <= q < k ==> step.ensures((&traj@[q],), traj@[q + 1]),
        decreases steps - k,
    {
        let next = step(&traj[k]);
        traj.push(next);
        k = k + 1;
    }
    traj
}

/// Runs a two-step (leapfrog) scheme from the first two states `u0` and
/// `u1`: each later state is `step` applied to the two states before it.
/// The trajectory holds `steps + 1` states, and at least the two it starts
/// from (two states when `steps` is 0).
pub fn leapfrog<T, F: Fn(&T, &T) -> T>(u0: T, u1: T, steps: usize, step: F) -> (traj: Vec<T>)
    requires
        steps < usize::MAX,
        forall|x: &T, y: &T| step.requires((x, y)),
    ensures
        traj@.len() == (if steps == 0 { 2 } else { steps + 1 }),
        traj@[0] == u0,
        traj@[1] == u1,
        forall|k: int|
            #![trigger traj@[k]]
            0 <= k < traj@.len() - 2 ==> step.ensures((&traj@[k], &traj@[k + 1]), traj@[k + 2]),
{
    let mut traj: Vec<T> = Vec::new();
    traj.push(u0);
    traj.push(u1);
    let mut k: usize = 1;
    while k < steps
        invariant
            1 <= k,
            steps == 0 ==> k == 1,
            steps > 0 ==> k <= steps,
            traj@.len() == k + 1,
            traj@[0] == u0,
            traj@[1] == u1,
            forall|x: &T, y: &T| step.requires((x, y)),
            forall|q: int|
                #![trigger traj@[q]]
                0 <= q < k - 1 ==> step.ensures((&traj@[q], &traj@[q + 1]), traj@[q + 2]),
        decreases steps - k,
    {
        let next = step(&traj[k - 1], &traj[k]);
        traj.push(next);
        k = k + 1;
    }
    traj
}

/// `states` and `flags` record a run of `sweep`: sweep number `k` (counting
/// from 0) turned `states[k]` into `states[k + 1]` and reported `flags[k]`.
pub open spec fn is_sweep_run<T, F: Fn(&T) -> (T, bool)>(
    sweep: F,
    states: Seq<T>,
    flags: Seq<bool>,
) -> bool {
    &&& states.len() == flags.len() + 1
    &&& forall|k: int|
        0 <= k < flags.len() ==> sweep.ensures((&states[k],), (states[k + 1], #[trigger] flags[k]))
}

/// The outcome `res` of iterating `sweep` from `u0` at most `max_iters`
/// times, stopping after the first sweep that reports convergence: `res.1`
/// sweeps were made, none before the last reported convergence, the last did
/// unless the budget ran out, and `res.0` is the state after the last sweep.
pub open spec fn is_iteration_outcome<T, F: Fn(&T) -> (T, bool)>(
    sweep: F,
    u0: T,
    max_iters: nat,
    res: (T, usize),
) -> bool {
    exists|states: Seq<T>, flags: Seq<bool>|
        {
            &&& #[trigger] is_sweep_run(sweep, states, flags)
            &&& flags.len() == res.1
            &&& states[0] == u0
            &&& res.0 == states.last()
            &&& res.1 <= max_iters
            &&& forall|k: int| 0 <= k < flags.len() - 1 ==> !#[trigger] flags[k]
            &&& res.1 < max_iters ==> res.1 > 0 && flags.last()
        }
}

/// Iterates `sweep` from `u0` until a sweep reports convergence, making at
/// most `max_iters` sweeps, and returns the last state with the number of
/// sweeps made: the 1-based number of the first converged sweep, or
/// `max_iters` when none converged (`u0` and 0 when `max_iters` is 0).
pub fn iterate_to_tolerance<T, F: Fn(&T) -> (T, bool)>(u0: T, max_iters: usize, sweep: F) -> (res:
    (T, usize))
    requires
        forall|x: &T| sweep.requires((x,)),
    ensures
        is_iteration_outcome(sweep, u0, max_iters as nat, res),
{
    let ghost states: Seq<T> = seq![u0];
    let ghost flags: Seq<bool> = Seq::empty();
    let mut u = u0;
    let mut k: usize = 0;
    while k < max_iters
        invariant
            k <= max_iters,
            forall|x: &T| sweep.requires((x,)),
            is_sweep_run(sweep, states, flags),
            flags.len() == k,
            states[0] == u0,
            u == states.last(),
            forall|q: int| 0 <= q < flags.len() ==> !#[trigger] flags[q],
        decreases max_iters - k,
    {
        let (next, converged) = sweep(&u);
        proof {
            states = states.push(next);
            flags = flags.push(converged);
        }
        u = next;
        k = k + 1;
        if converged {
            assert(is_sweep_run(sweep, states, flags));
            return (u, k);
        }
    }
    assert(is_sweep_run(sweep, states, flags));
    (u, k)
}

} // verus!
