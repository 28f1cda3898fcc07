//! An environment overlay manager: layers variable definitions from an
//! ordered list of definition files on top of a baseline environment
//! snapshot, deterministically, idempotently and reversibly.
//!
//! The ambient process environment is modelled as an explicit [`table::EnvTable`]
//! value; a thin unverified shell owns the real process environment and keeps
//! the table in step with it.

pub mod laws;
pub mod manager;
pub mod model;
pub mod parse;
pub mod paths;
pub mod records;
pub mod table;
