//! The core of a `make` program: reading makefiles, expanding variables,
//! working out what is out of date and how to rebuild it.
//!
//! Nothing here touches the file system, runs a command or prints. Where the
//! work needs something from outside, it asks for it with a [`world::Query`].

pub mod args;
pub mod error;
pub mod makefile;
pub mod names;
pub mod number;
pub mod order;
pub mod paths;
pub mod run;
pub mod search;
pub mod steady;
pub mod text;
pub mod world;

