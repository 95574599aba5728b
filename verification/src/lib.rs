//! Decision core of a procedural music generator.
//!
//! Given a harmonic key, a time grid and a seed, the library chooses the
//! musical material of a composition: cyclic chord progressions, per-slot
//! melodic pitches, per-part activation windows and phrase-bucketed
//! percussion patterns.  Every choice is drawn from weighted randomness that
//! is a pure function of the seed, so a composition can be reproduced
//! bit for bit.

pub mod arrangement;
pub mod composition;
pub mod error;
pub mod harmony;
pub mod melody;
pub mod orchestration;
pub mod parts;
pub mod percussion;
pub mod progression;
pub mod rhythm;
pub mod rng;
pub mod structure;
pub mod theory;
pub mod timing;
pub mod util;

pub use rng::RandomSource;
