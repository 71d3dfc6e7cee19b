//! Reorders the fields of a record literal or record pattern so that they follow
//! the declaration order of the struct they name.
//!
//! The work is split into small verified stages: ranking field keys against the
//! declared names, planning a stable reordering, turning the plan into a minimal
//! set of text replacements, and locating the construct and declaration in the
//! source bytes.

pub mod rank;
pub mod plan;
pub mod laws;
pub mod edit;
pub mod lexer;
pub mod syntax;
pub mod assist;
