//! A two-dimensional particle simulator with Verlet integration: particles
//! are spawned into a circular container, fall under gravity, bounce off the
//! wall and off each other.
//!
//! All quantities are integers in fixed point with 16 fractional bits, so
//! that a run is reproducible bit for bit on every machine. Every function
//! is verified against a mathematical model of the state (`V2`,
//! `ParticleState`, `SimState`), and what holds of every run is stated as
//! public lemmas beside the functions they speak of.

pub mod arith;
pub mod boundary;
pub mod collision;
pub mod config;
pub mod particle;
pub mod simulation;
pub mod spawn;
pub mod vec2;
