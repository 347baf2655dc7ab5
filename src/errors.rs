//! The library's error kinds and their HTTP status codes.

use vstd::prelude::*;

verus! {

#[derive(Clone, Debug)]
pub enum MwError {
    InvalidSignature,
    InsufficientBalance { token: String },
    InvalidTimestamp,
    OrderNotFound { order_id: u32 },
    UnauthorizedAccess,
    InvalidOrderParams,
    NotTaker,
    InvalidRequestType,
    SignatureRecoveryError,
    SignerCreationError,
    SigningError,
    SignatureConversionError,
    TransactionError,
    EncryptionError,
    InvalidBook,
    NoOrdersFound,
    SnapshotError(String),
    GulpError(String),
}

impl MwError {
    /// 401 for authentication failures, 404 for missing orders, 400 otherwise.
    pub open spec fn status_spec(&self) -> u16 {
        match self {
            MwError::InvalidSignature | MwError::UnauthorizedAccess | MwError::NotTaker => 401,
            MwError::OrderNotFound { .. } | MwError::NoOrdersFound => 404,
            _ => 400,
        }
    }

    /// The HTTP status code under which this error is reported.
    pub fn status_code(&self) -> (r: u16)
        ensures
            r == self.status_spec(),
    {
        match self {
            MwError::InvalidSignature => 401,
            MwError::InsufficientBalance { .. } => 400,
            MwError::InvalidTimestamp => 400,
            MwError::OrderNotFound { .. } => 404,
            MwError::UnauthorizedAccess => 401,
            MwError::InvalidOrderParams => 400,
            MwError::NotTaker => 401,
            MwError::InvalidRequestType => 400,
            MwError::SignatureRecoveryError => 400,
            MwError::SignerCreationError => 400,
            MwError::SigningError => 400,
            MwError::SignatureConversionError => 400,
            MwError::TransactionError => 400,
            MwError::EncryptionError => 400,
            MwError::InvalidBook => 400,
            MwError::NoOrdersFound => 404,
            MwError::SnapshotError(_) => 400,
            MwError::GulpError(_) => 400,
        }
    }
}

} // verus!
