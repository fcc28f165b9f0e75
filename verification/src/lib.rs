//! Statistical testing of random probing security.
//!
//! A circuit on shared values leaks each of its wires with some probability. For every set of
//! wires that may leak together, the library finds the input shares that are needed to
//! simulate what leaks, and counts, for each number of leaking wires, how many sets need
//! which input shares: by exhaustion where the sets are few, by sampling where they are many.
//!
//! `circuit` holds the circuits, their algebra over GF(2) and the simplification that finds
//! the input shares; `pd` holds the counting, and the transforms of the counts.
pub mod circuit;
pub mod pd;
