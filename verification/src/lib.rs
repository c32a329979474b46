//! Discrete structure of the finite-difference solvers for agent-belief PDEs:
//! which neighbour each stencil reads, how a 2D grid is laid out in memory,
//! the integer pattern of the second-difference operator, and how the time
//! stepping and fixed-point iterations of the solvers are driven.
//!
//! The arithmetic on the belief values themselves is floating point and is
//! kept outside this crate. The neighbour, layout, stepping and checking
//! functions are proved for every grid size and (where generic) every state
//! type; the laws of the discrete operators and schemes (maximum principles,
//! comparison, energy decay) are proved in exact integer arithmetic, with
//! each step scaled so that its mesh ratio stays an integer fraction.

pub mod stencil;
pub mod laplacian;
pub mod explicit;
pub mod grid2d;
pub mod stepping;
pub mod checks;
