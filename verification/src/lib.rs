//! Bonsai: the structure, the architecture and the facts of a repository.
//!
//! The library holds what is decided and computed; files, processes and the network are left to
//! the program around it. It is laid out in layers:
//!
//! * text and order: [`text`], [`order`], [`paths`], [`json`], [`apart`], [`digest`], [`value`];
//! * graphs and trees: [`graph`], [`links`], [`model`], [`tree`], [`outline`];
//! * what a repository holds: [`walk`], [`scan`], [`cache`], [`config`], [`scip`], [`ffi`];
//! * what is found in it: [`finding`], [`lean`], [`clones`], [`forgotten`], [`contracts`],
//!   [`rules`], [`place`], [`summary`];
//! * what is done about it: [`moves`], [`apply`], [`admission`], [`hook`], [`commands`];
//! * architecture: [`blueprint`], [`shape`], [`orderless`], [`scaffold`], and [`facts`] about all
//!   of it;
//! * what it is held to elsewhere: [`github`], [`ruleset`], [`rollout`];
//! * what holds of all of it: [`laws`].
pub mod admission;
pub mod apart;
pub mod apply;
pub mod blueprint;
pub mod cache;
pub mod clones;
pub mod commands;
pub mod config;
pub mod contracts;
pub mod digest;
pub mod facts;
pub mod ffi;
pub mod finding;
pub mod forgotten;
pub mod github;
pub mod graph;
pub mod hook;
pub mod json;
pub mod laws;
pub mod lean;
pub mod links;
pub mod model;
pub mod moves;
pub mod order;
pub mod orderless;
pub mod outline;
pub mod paths;
pub mod place;
pub mod rollout;
pub mod rules;
pub mod ruleset;
pub mod scaffold;
pub mod scan;
pub mod scip;
pub mod shape;
pub mod summary;
pub mod text;
pub mod tree;
pub mod value;
pub mod walk;
