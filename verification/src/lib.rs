//! Core of an exact solver for the talent scheduling problem: a decision
//! diagram oriented dynamic program (states, transitions, costs and domains),
//! the relaxation used to merge nodes of an over-wide layer, a ranking
//! heuristic over states, and a compression of the problem onto clusters of
//! similar scenes that yields a smaller meta problem together with bounds.
//!
//! The search driver that compiles and explores the decision diagrams is an
//! external collaborator: this crate supplies the model it drives.

#![verifier::loop_isolation(false)]

pub mod bitset;
pub mod instance;
pub mod model;
pub mod relaxation;
pub mod bound;
pub mod compression;
pub mod config;
