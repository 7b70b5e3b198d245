//! The efficiently updatable neural network: features, parameters, accumulator
//! and inference.

use vstd::prelude::*;

pub mod accumulator;
pub mod features;
pub mod incremental;
pub mod inference;
pub mod network;

verus! {

pub const NUM_BUCKETS: usize = 32;

pub const PIECE_FEATURES: usize = 768;

pub const STATE_FEATURES: usize = 17;

pub const FEATURES_PER_BUCKET: usize = 785;

pub const INPUT_SIZE: usize = 25120;

pub const HIDDEN_SIZE: usize = 1024;

pub const PAIR_SIZE: usize = 512;

pub const PAIR_INPUT_SIZE: usize = 1024;

/// Width of the first dense layer of the built-in network. Networks from files
/// may have any width from 1 to [`MAX_L1_SIZE`], as their header records.
pub const L1_SIZE: usize = 16;

/// Width of the second dense layer of the built-in network. Networks from files
/// may have any width from 1 to [`MAX_L2_SIZE`], as their header records.
pub const L2_SIZE: usize = 32;

pub const MAX_L1_SIZE: usize = 64;

pub const MAX_L2_SIZE: usize = 64;

/// Material-keyed output buckets: bucket = (piece_count - 2) / 4.
pub const OUTPUT_BUCKETS: usize = 8;

/// Activation quantization.
pub const FT_QUANT: i32 = 127;

/// Dense-layer weight quantization.
pub const NET_QUANT: i32 = 64;

} // verus!
