//! Trace-and-constraint core of a zero-knowledge virtual machine.
//!
//! The crate models the pieces of the execution engine whose correctness the
//! algebraic proof depends on:
//!
//! - the advice provider, which supplies and records nondeterministic witness
//!   data (a sequential tape, a keyed map, and Merkle-tree views);
//! - the stack overflow table together with the randomized running-product
//!   column that proves multiset consistency of its add/remove events;
//! - the hasher chiplet's permutation and the transition constraints that
//!   enforce it row by row.
//!
//! All arithmetic is over a fixed 64-bit prime field; every public operation
//! carries a contract describing its exact effect over the mathematical view
//! of the data it touches.

pub mod field;
pub mod errors;
pub mod hasher;
pub mod merkle;
pub mod advice;
pub mod overflow;
pub mod aux_trace;
pub mod constraints;
pub mod process;
