//! Discrete-time compartmental epidemic simulation (SIR, SIRD, SIRDV) on
//! fixed-point quantities, with validated parameters, forward-Euler steps,
//! stopping policies and the derived reproduction metrics.
pub mod decimal;
pub mod fixed;
pub mod model;
pub mod params;
pub mod simulation;
pub mod metrics;
