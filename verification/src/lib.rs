//! From NMAKE makefiles to the units of a compilation database.

pub mod text;
pub mod pattern;
pub mod error;
pub mod escape;
mod positions;
pub mod roundtrip;
pub mod lines;
pub mod reference;
pub mod syntax;
pub mod rule;
pub mod recipes;
pub mod command;
pub mod units;
pub mod path;
pub mod merge;
pub mod run;
pub mod nested;
pub mod text_laws;
pub mod job_laws;
pub mod rule_laws;
pub mod recipe_laws;
pub mod run_laws;
pub mod escape_laws;
