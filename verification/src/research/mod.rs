//! Experiments around the frame check: other check layouts, other CRC implementations, error
//! injection.

pub mod bench;
pub mod bool_ops;
pub mod crc_impls;
pub mod data;
pub mod draws;
pub mod entropy_sweep;
pub mod inject;
pub mod parity_laws;
pub mod parity_layer;
pub mod rng;
pub mod scatter;
pub mod scatter_laws;
pub mod stats;
