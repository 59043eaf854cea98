//! Planning and emitting Ninja builds that carry a file from one state to another.
//!
//! A [`Driver`] knows a set of states (kinds of files) and of operations between
//! them. Given a request, it finds the operations that lead from one state to
//! another, names the intermediate files, and a [`Run`] turns the resulting plan
//! into the text of a `build.ninja` file or into a picture of it.
//!
//! The library is for Unix systems: see [`path`] for what it takes a path to be.

pub mod builder;
pub mod config;
pub mod driver;
pub mod emitter;
pub mod graph;
pub mod path;
pub mod refs;
pub mod run;
pub mod search;
pub mod session;
pub mod state;
pub mod tables;
pub mod text;

pub use builder::DriverBuilder;
pub use driver::{Driver, Plan, PlanFault, Request};
pub use emitter::{Emitter, OpImpl, OpMeta, Operation, RuleOp, Setup};
pub use path::FilePath;
pub use refs::{OpRef, SetupRef, StateRef};
pub use run::Run;
pub use session::{Action, Session};
pub use state::State;
