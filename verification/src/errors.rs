use vstd::prelude::*;

verus! {

/// Why a target name was rejected before any side effect.
#[derive(Clone, Copy, Debug, PartialEq, Eq, Structural)]
pub enum ValidationError {
    /// The name is the empty string.
    Empty,
    /// The name is an absolute path (leading separator or drive prefix).
    AbsolutePath,
    /// The name is or contains a `..` traversal segment.
    Traversal,
    /// The name refers to the storage area's own reserved directory.
    ReservedName,
    /// The name contains a path separator, so it is not a single
    /// top-level segment.
    Separator,
}

/// Failures of the relocation and restoration steps.
#[derive(Clone, Copy, Debug, PartialEq, Eq, Structural)]
pub enum CloakError {
    /// A target name failed pre-flight validation.
    Validation(ValidationError),
    /// The destination of a move or link is already occupied.
    Conflict,
    /// An entry that the step needs is missing.
    NotFound,
    /// The path exists but is not the expected kind of entry
    /// (for example, a real directory where a symlink should stand).
    TypeMismatch,
}

/// The protocol step at which an operation failed.
#[derive(Clone, Copy, Debug, PartialEq, Eq, Structural)]
pub enum Step {
    /// Pre-flight validation of the target name.
    Validate,
    /// Moving the root entry into storage.
    Ingest,
    /// Creating the ghost link at the root path.
    Link,
    /// Applying the hidden attribute.
    Hide,
    /// Clearing the hidden attribute.
    Unhide,
    /// Removing the ghost link.
    Unlink,
    /// Moving the storage copy back to the root path.
    Egest,
}

/// A failure, together with the step it struck: enough for an
/// operator to see which of the entry's representations were already
/// touched.
#[derive(Clone, Copy, Debug, PartialEq, Eq, Structural)]
pub struct StepFailure {
    pub step: Step,
    pub error: CloakError,
}

/// A failure inside a multi-target batch: which target failed and
/// how.  Targets before it are fully migrated; targets after it are
/// untouched.
#[derive(Clone, Copy, Debug, PartialEq, Eq, Structural)]
pub struct BatchFailure {
    pub index: usize,
    pub failure: StepFailure,
}

impl CloakError {
    /// A short diagnostic label for the error, for unverified callers
    /// that print failures.
    pub fn describe(&self) -> (r: &'static str)
        ensures
            r@.len() > 0,
    {
        proof {
            reveal_strlit("invalid target name");
            reveal_strlit("destination already occupied");
            reveal_strlit("entry not found");
            reveal_strlit("path is not a symlink");
        }
        match self {
            CloakError::Validation(_) => "invalid target name",
            CloakError::Conflict => "destination already occupied",
            CloakError::NotFound => "entry not found",
            CloakError::TypeMismatch => "path is not a symlink",
        }
    }
}

} // verus!
