//! A crowd of pedestrians under social forces, and travel-time fields over a
//! grid.
//!
//! The library holds what such a simulation decides: which pedestrians feel
//! each other, who is moved and who has arrived, in which order a wavefront
//! takes the cells of a grid and which of them it may still change. All of it
//! is proved against contracts.
//!
//! It does not compute with real numbers. A number is held by its binary64
//! pattern (`scalar`), which is enough to compare it with another, and a
//! vector is glam's (`vector`). The arithmetic of the model, a handful of
//! formulas, comes from the caller as an implementation of `util::Projection`,
//! `model::Forces` or `fmm::Eikonal`; the contracts say which formula is asked
//! for which values, and what is done with the answer.

pub mod fmm;
pub mod front;
pub mod grid;
pub mod heap;
pub mod model;
pub mod scalar;
pub mod util;
pub mod vector;
