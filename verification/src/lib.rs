use vstd::prelude::*;

pub mod text;
pub mod search;
pub mod ordered;
pub mod json;
pub mod error;
pub mod model;
pub mod paths;
pub mod bytes;
pub mod objects;
pub mod globs;
pub mod config;
pub mod view;
pub mod scan;
pub mod materialize;
pub mod integration;
pub mod tables;
pub mod records;
pub mod report;
pub mod clock;
pub mod files;
pub mod process;
pub mod store;
pub mod commands;
pub mod cli;

verus! {

pub const VERSION: &'static str = "0.0.1";

} // verus!
