use vstd::prelude::*;

pub mod text;
pub mod line;
pub mod types;
pub mod search;
pub mod solver;
pub mod counting;
pub mod parse;
pub mod human;
pub mod solver_kind;
pub mod difficulty;
pub mod assist;
pub mod scan;
pub mod convert;
pub mod letter_import;
pub mod export;
pub mod url_import;
pub mod session;
pub mod settings;
pub mod round_trip;
pub mod report;
pub mod board;
pub mod status;
pub mod selection;
pub mod file_list;
pub mod solution_file;

verus! {
}
