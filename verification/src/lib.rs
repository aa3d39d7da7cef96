//! A school timetabling engine: a constraint-satisfaction planner that places
//! every group's subjects into a weekly grid of days and modules, assigns
//! classrooms, and polishes the result with a local-search optimizer.  The
//! contracts are proved by Verus; the few calls that Verus cannot look into,
//! text functions of the standard library and the JSON of `serde_json`, sit
//! in small trusted wrappers that say what they take on trust.

pub mod model;
pub mod text;
pub mod availability;
pub mod constraints;
pub mod scoring;
pub mod invariants;
pub mod planner;
pub mod phases;
pub mod ordering;
pub mod rooms;
pub mod validate;
pub mod optimize;
pub mod generate;
pub mod laws;
pub mod file_format;
pub mod settings;
pub mod records;
pub mod assistant;
