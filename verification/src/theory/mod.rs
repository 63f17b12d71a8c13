//! Mathematical models of the library's values, and the laws they obey.

pub mod closed;
pub mod colimits;
pub mod coslices;
pub mod cospans;
pub mod coverage;
pub mod fun;
pub mod lens_sums;
pub mod limits;
pub mod linear;
pub mod listing;
pub mod matrices;
pub mod mixed;
pub mod monoidal;
pub mod monoids;
pub mod optics;
pub mod plan_laws;
pub mod plans;
pub mod polynomials;
pub mod prisms;
pub mod rationals;
pub mod reverse;
pub mod routes;
pub mod slices;
pub mod spans;
pub mod sums;
pub mod wire;
