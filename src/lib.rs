//! The authoritative core of a multiplayer robot arena.
//!
//! Robots (entities) steer a differential-drive chassis and a turret, fire
//! bullets and damage each other. This crate holds the rules of that world:
//! the text control protocol, the per-tick actuation and firing decisions,
//! collision resolution into damage and score, the reaping of bullets and of
//! dead entities, and the per-connection session. Continuous physics (rigid
//! bodies, floats, trigonometry) is done by the caller, which reports body
//! positions and collision-start events back as plain integers.
//!
//! Units: lengths are in milli-units of the arena, angles in micro-radians,
//! times in milliseconds (seconds for sessions), and actuator values are
//! fixed-point with `ACTUATOR_ONE` standing for 1.0.
use vstd::prelude::*;

pub mod model;
pub mod protocol;
pub mod world;
pub mod session;
