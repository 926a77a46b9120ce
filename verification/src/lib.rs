//! Field assembly for a tape decoder.

pub mod blocks;
pub mod chroma;
pub mod comb;
pub mod decoder;
pub mod double;
pub mod field;
pub mod field_order;
pub mod history;
pub mod info;
pub mod laws;
pub mod levels;
pub mod order_laws;
pub mod output_laws;
pub mod picture;
pub mod pulses;
pub mod rank;
pub mod resample;
pub mod rounding;
pub mod separation;
pub mod slices;
pub mod spectrum;
pub mod step_laws;
