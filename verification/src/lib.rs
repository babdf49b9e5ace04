//! Relocation of named top-level entries out of a project root into a
//! hidden managed storage area, each replaced by a symbolic link back
//! to storage and marked hidden at the OS level; and the reverse
//! operation, which restores the entry and removes all traces.
//!
//! The engine works on an explicit model of the slice of the
//! filesystem it touches, so the ordering protocol, its failure modes
//! and the consistency between storage copy, root link and hidden
//! flag are all stated and proved; a thin unverified shell performs
//! the actual filesystem calls and keeps to the decisions made here.

use vstd::prelude::*;

pub mod engine;
pub mod errors;
pub mod gitignore;
pub mod gitignore_laws;
pub mod hidden;
pub mod jsonc;
pub mod model;
pub mod mover;
pub mod orchestrator;
pub mod status;
pub mod steps;
pub mod textutil;
pub mod tree;
pub mod validate;

verus! {

} // verus!
