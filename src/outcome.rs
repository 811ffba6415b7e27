use vstd::prelude::*;
use crate::alias::AliasError;

verus! {

/// The storage root could not be resolved, created or read.
#[derive(Debug, Clone, Copy, PartialEq, Eq, Structural)]
pub enum StorageError {
    Unavailable,
}

/// The chosen command could not be written to the hand-off file.
#[derive(Debug, Clone, Copy, PartialEq, Eq, Structural)]
pub enum HandoffError {
    WriteFailed,
}

/// Any failure that ends an invocation.
#[derive(Debug, Clone, Copy, PartialEq, Eq, Structural)]
pub enum Failure {
    Storage(StorageError),
    Alias(AliasError),
    Handoff(HandoffError),
}

/// The process exit status for an invocation that ended with `failure`.
pub open spec fn spec_exit_code(failure: Option<Failure>) -> i32 {
    match failure {
        None => 0,
        Some(Failure::Storage(StorageError::Unavailable)) => 1,
        Some(Failure::Alias(AliasError::DuplicateName)) => 2,
        Some(Failure::Alias(AliasError::InvalidName)) => 3,
        Some(Failure::Alias(AliasError::NotFound)) => 4,
        Some(Failure::Alias(AliasError::InvalidCommand)) => 5,
        Some(Failure::Handoff(HandoffError::WriteFailed)) => 6,
    }
}

/// The exit status: zero on success, and a distinct non-zero status for each
/// kind of failure.
pub fn exit_code(failure: Option<Failure>) -> (r: i32)
    ensures
        r == spec_exit_code(failure),
        r == 0 <==> failure is None,
{
    match failure {
        None => 0,
        Some(Failure::Storage(StorageError::Unavailable)) => 1,
        Some(Failure::Alias(AliasError::DuplicateName)) => 2,
        Some(Failure::Alias(AliasError::InvalidName)) => 3,
        Some(Failure::Alias(AliasError::NotFound)) => 4,
        Some(Failure::Alias(AliasError::InvalidCommand)) => 5,
        Some(Failure::Handoff(HandoffError::WriteFailed)) => 6,
    }
}

/// Distinct failures never share an exit status.
pub proof fn lemma_exit_codes_distinct(a: Option<Failure>, b: Option<Failure>)
    requires
        a != b,
    ensures
        spec_exit_code(a) != spec_exit_code(b),
{
}

} // verus!
