# lau-pde-agents

Finite-difference solvers for the PDEs of agent-belief dynamics (heat, wave,
Laplace, Poisson, Schrödinger, reaction-diffusion, transport, Burgers).

- `src/` — the verified crate `lau_pde_agents`: the discrete structure shared by
  all solvers, with contracts and proofs.
  - `stencil` — neighbour resolution for three-point stencils (boundary or
    ghost values at the ends, zero-gradient, upwind), and the range laws of
    the upwind and Lax-Friedrichs steps under the CFL condition.
  - `grid2d` — row-major layout of 2D grids, the five-point stencil, and the
    range law of the explicit 2D heat scheme under its stability bound, for
    one step and over whole trajectories.
  - `laplacian` — the integer second-difference matrix and its laws: matrix
    form equals stencil form, constants and linear profiles are annihilated,
    the discrete maximum principle and uniqueness, and the steady states of
    the implicit heat update.
  - `explicit` — the explicit heat scheme in exact arithmetic under the
    stability bound: range preservation, order preservation (comparison) and
    energy decay, for one step and over whole trajectories.
  - `stepping` — trajectories of one-step and leapfrog schemes, and iteration
    to a tolerance with its reported sweep count.
  - `checks` — checks over whole trajectories and pointwise comparisons.
- `app/` — the floating-point solvers built on top of it (nalgebra vectors and
  matrices, serde).
- `tests/` — tests of the verified crate.

All laws are proved in exact integer arithmetic, each step scaled so that
its mesh ratio stays an integer fraction.
