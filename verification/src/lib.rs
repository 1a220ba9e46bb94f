//! N-body gravity engine: the integer and symbolic core.
//!
//! The verified part of the engine: the catalogue of integrators and
//! presets, the software rasteriser that the CPU frontend draws with, the
//! bitmap font of its status panel, the input handling of the frontends, the
//! bookkeeping of collision merging and of the trajectory history, and the
//! pseudo-random generator that seeds the cluster preset.

pub mod integrator;
pub mod raster;
pub mod simulation;
pub mod preset;
pub mod controls;
pub mod cli;
pub mod hud;
pub mod scene;

pub use integrator::{IntegratorKind, Leapfrog, VelocityVerlet};
pub use preset::Preset;
pub use simulation::Collision;
