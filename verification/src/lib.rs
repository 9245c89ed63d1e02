//! Verified control core for a vision-driven game automation pipeline.
//!
//! The crate models two subsystems: a scene-graph navigator that finds and
//! executes a shortest sequence of UI transitions, and a wave-synchronized
//! strategy executor that tracks a scrollable camera viewport, validates a
//! noisy wave counter, and plans build/upgrade/demolish device actions.
//!
//! All perception (text recognition, pixel sampling) and actuation (mouse,
//! keyboard) happen outside this crate; the library takes the observed plain
//! values and returns plans of [`actions::DeviceAction`] for a driver to
//! perform.

pub mod actions;
pub mod navigator;
pub mod scene_graph;
pub mod strategy;
pub mod tower_defense;
pub mod wave;
