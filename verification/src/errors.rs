use vstd::prelude::*;

verus! {

/// The error taxonomy of the container engine.
///
/// Key derivation reports `InvalidParameters` and `DerivationError`;
/// the open path reports `MalformedHeader`, `IntegrityCheckFailed` and
/// `DecompressionError`; payload decoding reports `SchemaViolation`;
/// mutation reports `NodeNotFound`; the save path reports
/// `PersistenceError`. `IntegrityCheckFailed` deliberately covers both a
/// wrong password and a tampered file, so a caller cannot tell the two
/// apart.
#[derive(Clone, Copy, Debug, PartialEq, Eq, Structural)]
pub enum ContainerError {
    InvalidParameters,
    DerivationError,
    MalformedHeader,
    IntegrityCheckFailed,
    DecompressionError,
    SchemaViolation,
    NodeNotFound,
    PersistenceError,
}

} // verus!
