//! Core of a small celestial-mechanics pipeline: a fixed-point n-body state,
//! a time-reversible symplectic integrator, a snapshot cache keyed by
//! simulation time, geometric event detectors (lunar eclipses and Moon
//! visibility from a geostationary observer), and a transition refiner that
//! localizes the instant a detector's classification changes.
//!
//! All kinematics use fixed-point integers: lengths in units of 10^-6 km,
//! times in whole nanoseconds.  Integer arithmetic makes every step of the
//! pipeline exactly reproducible, and makes the symplectic stepper exactly
//! reversible, which the proofs in `integrator` establish.

pub mod body;
pub mod calendar;
pub mod codec;
pub mod driver;
pub mod eclipse;
pub mod integrator;
pub mod num64;
pub mod observer;
pub mod refiner;
pub mod sim;
pub mod snapshots;
pub mod vec3;
