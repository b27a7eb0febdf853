//! Failures of the command layer.

use vstd::prelude::*;

verus! {

/// Why a mutation command was rejected.
///
/// `ConstraintViolation` marks internal-consistency trouble (self-parenting,
/// enabling an attribute that is unexpectedly live), not ordinary user error.
#[derive(Clone, Copy, Debug, PartialEq, Eq, Structural)]
pub enum CommandError {
    /// The addressed object, attribute, parent or type does not exist.
    NotFound,
    /// Insert or enable hit an attribute that is already present.
    AlreadyExists,
    /// The type is absent from the schema catalog's registry.
    NotRegistered,
    /// The payload does not fit the type's expected shape.
    SerializationFailure,
    /// Self-parenting, or an enable colliding with a live attribute.
    ConstraintViolation,
}

impl CommandError {
    /// A short label for logs and transport.
    pub fn label(&self) -> (r: &'static str)
        ensures
            r@ == (match self {
                CommandError::NotFound => "not_found"@,
                CommandError::AlreadyExists => "already_exists"@,
                CommandError::NotRegistered => "not_registered"@,
                CommandError::SerializationFailure => "serialization_failure"@,
                CommandError::ConstraintViolation => "constraint_violation"@,
            }),
    {
        match self {
            CommandError::NotFound => "not_found",
            CommandError::AlreadyExists => "already_exists",
            CommandError::NotRegistered => "not_registered",
            CommandError::SerializationFailure => "serialization_failure",
            CommandError::ConstraintViolation => "constraint_violation",
        }
    }
}

} // verus!
