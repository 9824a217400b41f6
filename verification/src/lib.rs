//! The core of a symbolic execution engine for LLVM bitcode: bit-vector
//! expressions with their meaning, a byte-addressable memory of symbolic
//! bytes, the state of a path with its constraints, and the hooks that
//! stand for LLVM's intrinsic functions.
//!
//! Expressions are built here and given their meaning here; an SMT solver
//! is asked from outside. What it finds comes back as a [`solver::model::Model`],
//! which the path's [`solver::Solver`] takes as its witness once every
//! constraint is seen to hold under it.

pub mod common;
pub mod hooks;
pub mod memory;
pub mod project;
pub mod solver;
pub mod vm;
