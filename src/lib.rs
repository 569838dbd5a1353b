//! Post-processing of molecular-dynamics output: a decoder for the block
//! structured multi-rank trajectory format, and Wigner-Seitz defect analysis
//! of body-centred-cubic snapshots.
pub mod lattice;
pub mod analysis;
pub mod box_config;
pub mod decoder;
pub mod conversion;
