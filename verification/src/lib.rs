//! Two-body orbital mechanics over fixed-point coordinates.
//!
//! The crate converts between Cartesian state vectors and Keplerian orbital
//! elements, propagates an orbit analytically through Kepler's equation, and
//! offers a fixed-step numeric propagator for freshly overridden states.
//! Every real quantity is held as a binary fixed-point integer so that the
//! arithmetic itself carries exact contracts.

pub mod fixed;
pub mod vec3;
pub mod trig;
pub mod orbit;
pub mod sat;
