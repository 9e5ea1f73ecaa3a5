//! A tuning sandbox for PID control loops: a controller, the damped point mass
//! it drives, and a registry that runs several tuned models side by side.
//!
//! Every physical quantity is a fixed-point number: an `i64` that counts
//! billionths of a unit (see [`fixed::ONE`]).
//!
//! The setpoint belongs to the shared [`pid::Environment`], with damping, applied
//! force and timestep; the acceleration limit belongs to each [`pid::Model`].

pub mod fixed;
pub mod pid;
pub mod registry;
