//! What holds of the library beyond its single functions, said of inputs and results: the laws speak
//! of characters, lines, positions and entries, rather than of how a result is worked out.
pub mod admission;
pub mod blueprint;
pub mod clones;
pub mod config;
pub mod contracts;
pub mod cycles;
pub mod facts;
pub mod ffi;
pub mod forgotten;
pub mod functions;
pub mod github;
pub mod lean;
pub mod lines;
pub mod moves;
pub mod orders;
pub mod outline;
pub mod paths;
pub mod place;
pub mod plans;
pub mod questions;
pub mod rules;
pub mod scaffold;
pub mod scan;
pub mod scip;
pub mod summary;
pub mod tree;
