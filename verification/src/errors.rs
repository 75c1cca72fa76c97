//! Error values returned by the wallet connector and by the binary decoders.

use vstd::prelude::*;

verus! {

/// The reader operation during which a malformed encoding was found.
#[derive(Debug, Clone, Copy, PartialEq, Eq, Structural)]
pub enum Stage {
    Header,
    Bytes,
    Text,
    Integer,
    Item,
}

/// Errors signalled while decoding untrusted wallet-supplied bytes.
#[derive(Debug, Clone, Copy, PartialEq, Eq, Structural)]
pub enum DecodeError {
    /// Truncated input, a wrong major type, or invalid UTF-8 in a text string.
    MalformedEncoding { stage: Stage, offset: usize },
    /// The signed envelope is not a 4-element array.
    MalformedEnvelope,
    /// The signing-key structure carries a curve point that is not 32 bytes.
    MalformedKey,
    /// The envelope's signature field is not exactly 64 bytes.
    MalformedSignature,
    /// The protected header has no `"address"` text key.
    MissingAddress,
    /// The signing-key structure has no curve x-coordinate entry.
    MissingKey,
    /// A hex payload from the host wallet could not be decoded.
    MalformedHex,
}

/// Error codes of the wallet connector API.
#[derive(Debug, Clone, Copy, PartialEq, Eq, Hash, Structural)]
pub enum APIErrorCode {
    InvalidRequest,
    InternalError,
    Refused,
    /// If this error happens we might need to re-authenticate.
    AccountChange,
    Unknown(i64),
}

impl APIErrorCode {
    /// Classify the numeric error code a host wallet hands back.
    pub fn from_code(code: i64) -> (r: Self)
        ensures
            r == (if code == -1 {
                APIErrorCode::InvalidRequest
            } else if code == -2 {
                APIErrorCode::InternalError
            } else if code == -3 {
                APIErrorCode::Refused
            } else if code == -4 {
                APIErrorCode::AccountChange
            } else {
                APIErrorCode::Unknown(code)
            }),
    {
        if code == -1 {
            APIErrorCode::InvalidRequest
        } else if code == -2 {
            APIErrorCode::InternalError
        } else if code == -3 {
            APIErrorCode::Refused
        } else if code == -4 {
            APIErrorCode::AccountChange
        } else {
            APIErrorCode::Unknown(code)
        }
    }
}

/// An error returned by a wallet connector API call.
#[derive(Debug, Clone, PartialEq, Eq, Hash)]
pub struct APIError {
    pub code: APIErrorCode,
    pub info: String,
}

/// Error codes of the data-signing API.
#[derive(Debug, Clone, Copy, PartialEq, Eq, Hash, Structural)]
pub enum DataSignErrorCode {
    /// The wallet has no secret key for the requested address.
    ProofGeneration,
    /// The address carries no public key to sign with.
    AddressNotPK,
    /// The user declined to sign the data.
    UserDeclined,
    Unknown(u64),
}

impl DataSignErrorCode {
    /// Classify the numeric error code a host wallet hands back.
    pub fn from_code(code: u64) -> (r: Self)
        ensures
            r == (if code == 1 {
                DataSignErrorCode::ProofGeneration
            } else if code == 2 {
                DataSignErrorCode::AddressNotPK
            } else if code == 3 {
                DataSignErrorCode::UserDeclined
            } else {
                DataSignErrorCode::Unknown(code)
            }),
    {
        if code == 1 {
            DataSignErrorCode::ProofGeneration
        } else if code == 2 {
            DataSignErrorCode::AddressNotPK
        } else if code == 3 {
            DataSignErrorCode::UserDeclined
        } else {
            DataSignErrorCode::Unknown(code)
        }
    }
}

/// An error returned by the data-signing API.
#[derive(Debug, Clone, PartialEq, Eq, Hash)]
pub struct DataSignError {
    pub code: DataSignErrorCode,
    pub info: String,
}

/// The host wallet rejected the requested pagination.
#[derive(Debug, Clone, Copy, PartialEq, Eq, Hash, Structural)]
pub struct PaginateError {
    pub max_size: usize,
}

} // verus!

verus! {

impl DecodeError {
    /// Report this decode failure as a wallet-API error: a hex failure is
    /// an internal error, any failure in the binary payload itself comes
    /// back under the connector's unassigned code 42.
    pub fn to_api_error(&self) -> (r: APIError)
        ensures
            r.code == (match self {
                DecodeError::MalformedHex => APIErrorCode::InternalError,
                _ => APIErrorCode::Unknown(42),
            }),
            self is MissingAddress ==> r.info@ == "Invalid cbor, missing address"@,
            self is MissingKey ==> r.info@ == "Invalid cbor, missing key"@,
    {
        match self {
            DecodeError::MalformedEncoding { .. } => APIError {
                code: APIErrorCode::Unknown(42),
                info: "Invalid cbor".to_owned(),
            },
            DecodeError::MalformedEnvelope => APIError {
                code: APIErrorCode::Unknown(42),
                info: "Invalid cbor, malformed envelope".to_owned(),
            },
            DecodeError::MalformedKey => APIError {
                code: APIErrorCode::Unknown(42),
                info: "Invalid cbor, malformed key".to_owned(),
            },
            DecodeError::MalformedSignature => APIError {
                code: APIErrorCode::Unknown(42),
                info: "Invalid cbor, malformed signature".to_owned(),
            },
            DecodeError::MissingAddress => APIError {
                code: APIErrorCode::Unknown(42),
                info: "Invalid cbor, missing address".to_owned(),
            },
            DecodeError::MissingKey => APIError {
                code: APIErrorCode::Unknown(42),
                info: "Invalid cbor, missing key".to_owned(),
            },
            DecodeError::MalformedHex => APIError {
                code: APIErrorCode::InternalError,
                info: "Couldn't decode the hex payload".to_owned(),
            },
        }
    }
}

} // verus!
