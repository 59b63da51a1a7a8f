//! A verified core for a D3Q19 lattice-Boltzmann workload on a CUDA device: the
//! lattice and its addressing, the specialisation of the device kernel, the decisions
//! of the solver and of the power sampler, the integration window of a power trace,
//! the settings of a run and the contents of its reports.

pub mod args;
pub mod clock;
pub mod conservation;
pub mod energy;
pub mod error;
pub mod field;
pub mod fill;
pub mod ieee;
pub mod kernel;
pub mod lattice;
pub mod power;
pub mod report;
pub mod sampler;
pub mod solver;
pub mod sweep;
pub mod template;
pub mod text;
pub mod translation;

pub use crate::lattice::Q;
pub use crate::solver::HandwrittenD3q19;
