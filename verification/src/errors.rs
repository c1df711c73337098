//! Why an execution cannot be replayed.
use vstd::prelude::*;

verus! {

/// Why an execution fails.
#[derive(Debug, Clone, PartialEq, Eq)]
pub enum ExecutionError {
    /// What was recorded does not match what is replayed.
    Internal(&'static str),
}

/// Why an operation fails.
#[derive(Debug, Clone, PartialEq, Eq)]
pub enum OperationError {
    /// What was recorded does not match what is replayed.
    Internal(&'static str),
    /// The value is not in the Merkle tree at the index.
    MerklePathVerificationFailed,
}

/// Why the memory cannot be read.
#[derive(Debug, Clone, PartialEq, Eq)]
pub enum MemoryError {
    /// The read failed.
    MemoryReadFailed(String),
}

/// Why the advice provider cannot be read.
#[derive(Debug, Clone, Copy, PartialEq, Eq, Structural)]
pub enum AdviceError {
    /// The advice stack has too few elements.
    StackReadFailed,
}

} // verus!
