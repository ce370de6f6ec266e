//! Verified core of the brownian sandbox: the reproducible noise that shakes
//! the bodies, the slot table that gives every agent a stable identity, the
//! shape and backend selectors, the command-line grammar, and the index
//! stencil of the thermal grid.

pub mod config;
pub mod sim;
pub mod shapes;
pub mod agents;
pub mod field;
pub mod args;
pub mod stencil;
pub mod env;
pub mod dispatch;
