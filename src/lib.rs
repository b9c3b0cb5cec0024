//! Stack-trace normalization, grouping and ranking for the text emitted by a
//! stack unwinder (`eu-stack`) and by a debugger (`gdb`).

pub mod text;
pub mod grammar;
pub mod parse;
pub mod group;
pub mod report;
pub mod uniquify;
pub mod simplify;
pub mod collect;
pub mod targets;
pub mod rows;
