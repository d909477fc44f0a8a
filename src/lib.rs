//! Multi-scalar multiplication by the bucket method, with its contracts
//! proved: scalar recoding into unsigned and signed windows, bucket sums and
//! window folding over any prime-order group, the generation of device
//! programs from templates, and the sharing of work between the CPU and
//! accelerators.

pub mod bigint;
pub mod bls12;
pub mod density;
pub mod device;
pub mod ffgen;
pub mod group;
pub mod laws;
pub mod merkle;
pub mod model;
pub mod orchestrate;
pub mod pippenger;
pub mod recode;
pub mod sources;
