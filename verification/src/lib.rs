//! Coverage-report rendering and fuzzing-controller logic, verified with Verus.

pub mod text;
pub mod escape;
pub mod paths;
pub mod lines;
pub mod page;
pub mod tree;
pub mod order;
pub mod index;
pub mod report;
pub mod pcs;
pub mod coverage;
pub mod qemu;
pub mod locations;
