//! The integer core of a small from-scratch neural network: the
//! pseudo-random generator that seeds the weights, the IDX (MNIST) file
//! format, and the row-major layout of the matrices the network computes
//! with.
use vstd::prelude::*;

pub mod idx;
pub mod matrix;
pub mod rng;

verus! {

} // verus!
