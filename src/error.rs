use vstd::prelude::*;

verus! {

/// Why a rule was rejected as malformed.
#[derive(Debug, Clone, Copy, PartialEq, Eq, Structural)]
pub enum ValidationError {
    EmptyName,
    InvalidUpstream,
    EmptySites,
    /// The port pool does not fit in the port range.
    InvalidPool,
}

/// Why a well-formed rule could not be added.
#[derive(Debug, Clone, Copy, PartialEq, Eq, Structural)]
pub enum ConflictError {
    DuplicateName,
    PoolExhausted,
}

/// Errors of the control plane; each leaves the state unchanged.
#[derive(Debug, Clone, Copy, PartialEq, Eq, Structural)]
pub enum ProxyError {
    Validation(ValidationError),
    Conflict(ConflictError),
    NotFound,
}

} // verus!
