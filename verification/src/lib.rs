//! Dependent optics over finite sets, and the machinery that stages a model
//! built from them onto a cluster.
//!
//! [`theory`] holds the mathematical models and the laws; the other modules
//! compute with machine words, and their contracts say which model values
//! they return.

pub mod ad;
pub mod bicat_optic;
pub mod bimod;
pub mod closed;
pub mod cluster;
pub mod comonoid;
pub mod dist;
pub mod dlens;
pub mod dprism;
pub mod enriched;
pub mod fibre;
pub mod finset;
pub mod functor_lens;
pub mod kernel;
pub mod mixed;
pub mod mixtral;
pub mod monoid;
pub mod monoidal_optic;
pub mod monoidal_structure;
pub mod optic;
pub mod planner;
pub mod polynomial;
pub mod schedule;
pub mod sizes;
pub mod slice;
pub mod span;
pub mod tambara;
pub mod text;
pub mod theory;
pub mod vect;

pub use finset::MAX_CARD;
