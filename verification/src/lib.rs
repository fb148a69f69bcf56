//! Parsing and validation for a small line-oriented dialog language.
//!
//! A document carries a metadata header (`# key: value` comment lines),
//! optional `$global_vars:` / `$local_vars:` blocks of typed variables,
//! and a body of named nodes (`@name`) holding content lines and branch
//! options.  This crate turns raw document text into a structured,
//! immutable-after-construction model, and validates declared file
//! dependencies against cross-file transfer destinations.

use vstd::prelude::*;

pub mod meta;
pub mod model;
pub mod nodes;
pub mod parser;
pub mod text;
pub mod types;
pub mod value;
pub mod vars;

pub use types::{
    BdlBranchOption, BdlCondition, BdlContentElement, BdlDestination, BdlDocument, BdlError,
    BdlMetadata, BdlNode, DepSet, NodeTable, VarMap,
};
pub use parser::BdlParser;
pub use vars::parse_variable_line;
pub use value::BdlValue;

verus! {

} // verus!
