//! Checks run over whole trajectories: that every state passes a test, and
//! that one family of profiles lies above another point by point. The test
//! on single values or states is supplied by the caller.

use vstd::prelude::*;

verus! {

/// Checks every state of `states` from index `first` on with `check`, which
/// is given each state's index and the state. Returns `true` exactly when
/// every check made passed, stopping at the first that fails.
pub fn every_state_passes<T, F: Fn(usize, &T) -> bool>(states: &[T], first: usize, check: F) -> (r:
    bool)
    requires
        forall|k: usize, x: &T| check.requires((k, x)),
    ensures
        r ==> forall|k: int|
            first <= k < states@.len() ==> check.ensures((k as usize, &states@[k]), true),
        !r ==> exists|k: int|
            first <= k < states@.len() && check.ensures((k as usize, &states@[k]), false),
{
    let mut k: usize = first;
    while k < states.len()
        invariant
            first <= k,
            k <= states@.len() || k == first,
            forall|j: usize, x: &T| check.requires((j, x)),
            forall|j: int|
                first <= j < k && j < states@.len() ==> check.ensures(
                    (j as usize, &states@[j]),
                    true,
                ),
        decreases states@.len() - k,
    {
        if !check(k, &states[k]) {
            return false;
        }
        k = k + 1;
    }
    true
}

/// Compares two families of profiles point by point with `ok`, over the
/// profiles and points that both families have (the shorter length of each).
/// Returns `true` exactly when `ok` accepted every pair it was given,
/// stopping at the first pair it rejects.
pub fn holds_pointwise<T, F: Fn(&T, &T) -> bool>(us: &Vec<Vec<T>>, vs: &Vec<Vec<T>>, ok: F) -> (r:
    bool)
    requires
        forall|x: &T, y: &T| ok.requires((x, y)),
    ensures
        r ==> forall|k: int, i: int|
            0 <= k < us@.len() && 0 <= k < vs@.len() && 0 <= i < us@[k]@.len() && 0 <= i
                < vs@[k]@.len() ==> ok.ensures((&us@[k]@[i], &vs@[k]@[i]), true),
        !r ==> exists|k: int, i: int|
            0 <= k < us@.len() && 0 <= k < vs@.len() && 0 <= i < us@[k]@.len() && 0 <= i
                < vs@[k]@.len() && ok.ensures((&us@[k]@[i], &vs@[k]@[i]), false),
{
    let profiles = if us.len() < vs.len() {
        us.len()
    } else {
        vs.len()
    };
    let mut k: usize = 0;
    while k < profiles
        invariant
            k <= profiles,
            profiles <= us@.len(),
            profiles <= vs@.len(),
            profiles == us@.len() || profiles == vs@.len(),
            forall|x: &T, y: &T| ok.requires((x, y)),
            forall|q: int, i: int|
                0 <= q < k && 0 <= i < us@[q]@.len() && 0 <= i < vs@[q]@.len() ==> ok.ensures(
                    (&us@[q]@[i], &vs@[q]@[i]),
                    true,
                ),
        decreases profiles - k,
    {
        let u = &us[k];
        let v = &vs[k];
        let points = if u.len() < v.len() {
            u.len()
        } else {
            v.len()
        };
        let mut i: usize = 0;
        while i < points
            invariant
                i <= points,
                points <= u@.len(),
                points <= v@.len(),
                points == u@.len() || points == v@.len(),
                k < profiles,
                profiles <= us@.len(),
                profiles <= vs@.len(),
                u == us@[k as int],
                v == vs@[k as int],
                forall|x: &T, y: &T| ok.requires((x, y)),
                forall|j: int| 0 <= j < i ==> ok.ensures((&u@[j], &v@[j]), true),
            decreases points - i,
        {
            if !ok(&u[i], &v[i]) {
                return false;
            }
            i = i + 1;
        }
        k = k + 1;
    }
    true
}

} // verus!
