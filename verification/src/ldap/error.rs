//! Errors surfaced by a directory backend.

use vstd::prelude::*;

verus! {

/// Errors surfaced by a [`crate::ldap::backend::DirectoryBackend`] implementation.
///
/// The session layer maps these onto LDAP `resultCode` values. They are not
/// used for ordinary protocol-level rejections (e.g. a malformed message).
#[derive(Debug, Clone, PartialEq, Eq)]
pub enum BackendError {
    /// Credentials were rejected (simple bind). Maps to `invalidCredentials`.
    AuthenticationFailed,
    /// A referenced entry does not exist. Maps to `noSuchObject`.
    NotFound,
    /// An entry being added already exists. Maps to `entryAlreadyExists`.
    EntryAlreadyExists,
    /// A referenced attribute does not exist. Maps to `noSuchAttribute`.
    NoSuchAttribute,
    /// An attribute value to add already exists. Maps to `attributeOrValueExists`.
    AttributeOrValueExists,
    /// The backend refused the operation for authorization reasons. Maps to
    /// `insufficientAccessRights`.
    InsufficientAccess,
    /// A schema/value constraint was violated. Maps to `constraintViolation`.
    ConstraintViolation,
    /// The requested operation is not supported. Maps to
    /// `unavailableCriticalExtension`.
    Unsupported,
    /// Any other backend-specific failure.
    Other(String),
}

/// The text describing a backend error: a fixed phrase per kind, and the
/// carried text of an `Other` error.
pub open spec fn backend_error_text(e: BackendError) -> Seq<char> {
    match e {
        BackendError::AuthenticationFailed => "authentication failed"@,
        BackendError::NotFound => "no such object"@,
        BackendError::EntryAlreadyExists => "entry already exists"@,
        BackendError::NoSuchAttribute => "no such attribute"@,
        BackendError::AttributeOrValueExists => "attribute or value exists"@,
        BackendError::InsufficientAccess => "insufficient access rights"@,
        BackendError::ConstraintViolation => "constraint violation"@,
        BackendError::Unsupported => "operation not supported"@,
        BackendError::Other(m) => m@,
    }
}

impl BackendError {
    /// The human-readable description of the error.
    pub fn message(&self) -> (s: String)
        ensures
            s@ == backend_error_text(*self),
    {
        match self {
            BackendError::AuthenticationFailed => String::from_str("authentication failed"),
            BackendError::NotFound => String::from_str("no such object"),
            BackendError::EntryAlreadyExists => String::from_str("entry already exists"),
            BackendError::NoSuchAttribute => String::from_str("no such attribute"),
            BackendError::AttributeOrValueExists => String::from_str("attribute or value exists"),
            BackendError::InsufficientAccess => String::from_str("insufficient access rights"),
            BackendError::ConstraintViolation => String::from_str("constraint violation"),
            BackendError::Unsupported => String::from_str("operation not supported"),
            BackendError::Other(m) => m.clone(),
        }
    }
}

} // verus!
