//! Error type for QuDAG operations.

use vstd::prelude::*;

verus! {

/// Main error type for QuDAG operations.  Errors that originate in other
/// libraries carry that library's error value.
#[derive(Debug)]
pub enum QuDAGError {
    NetworkError(String),
    ConsensusError(String),
    CryptoError(String),
    ValidationError(String),
    StorageError(String),
    SerializationError(String),
    ConfigError(String),
    IoError(std::io::Error),
    LibP2PError(String),
    UuidError(uuid::Error),
    JsonError(serde_json::Error),
    BincodeError(bincode::Error),
    Unknown(String),
}

/// Result type alias for QuDAG operations.
pub type Result<T> = std::result::Result<T, QuDAGError>;

#[verifier::external_type_specification]
#[verifier::external_body]
pub struct ExIoError(std::io::Error);

#[verifier::external_type_specification]
#[verifier::external_body]
pub struct ExUuidError(uuid::Error);

#[verifier::external_type_specification]
#[verifier::external_body]
pub struct ExJsonError(serde_json::Error);

#[verifier::external_type_specification]
#[verifier::external_body]
pub struct ExBincodeErrorKind(bincode::ErrorKind);


/// Builds a `String` holding the text of `msg`.
pub fn text(msg: &str) -> (s: String)
    ensures
        s@ == msg@,
{
    msg.to_owned()
}

impl QuDAGError {
    /// Creates a network error.
    pub fn network(msg: &str) -> (e: Self)
        ensures
            e matches QuDAGError::NetworkError(m) && m@ == msg@,
    {
        QuDAGError::NetworkError(text(msg))
    }

    /// Creates a consensus error.
    pub fn consensus(msg: &str) -> (e: Self)
        ensures
            e matches QuDAGError::ConsensusError(m) && m@ == msg@,
    {
        QuDAGError::ConsensusError(text(msg))
    }

    /// Creates a crypto error.
    pub fn crypto(msg: &str) -> (e: Self)
        ensures
            e matches QuDAGError::CryptoError(m) && m@ == msg@,
    {
        QuDAGError::CryptoError(text(msg))
    }

    /// Creates a validation error.
    pub fn validation(msg: &str) -> (e: Self)
        ensures
            e matches QuDAGError::ValidationError(m) && m@ == msg@,
    {
        QuDAGError::ValidationError(text(msg))
    }

    /// Creates a storage error.
    pub fn storage(msg: &str) -> (e: Self)
        ensures
            e matches QuDAGError::StorageError(m) && m@ == msg@,
    {
        QuDAGError::StorageError(text(msg))
    }

    /// Network-related errors: `NetworkError` and `LibP2PError`.
    pub fn is_network_error(&self) -> (b: bool)
        ensures
            b == (self is NetworkError || self is LibP2PError),
    {
        match self {
            QuDAGError::NetworkError(_) | QuDAGError::LibP2PError(_) => true,
            _ => false,
        }
    }

    /// Validation errors.
    pub fn is_validation_error(&self) -> (b: bool)
        ensures
            b == (self is ValidationError),
    {
        match self {
            QuDAGError::ValidationError(_) => true,
            _ => false,
        }
    }

    /// Recoverable errors: network, IO, consensus, storage and libp2p errors.
    pub fn is_recoverable(&self) -> (b: bool)
        ensures
            b == spec_is_recoverable(*self),
    {
        match self {
            QuDAGError::NetworkError(_) => true,
            QuDAGError::IoError(_) => true,
            QuDAGError::SerializationError(_) => false,
            QuDAGError::ValidationError(_) => false,
            QuDAGError::CryptoError(_) => false,
            QuDAGError::ConsensusError(_) => true,
            QuDAGError::StorageError(_) => true,
            QuDAGError::ConfigError(_) => false,
            QuDAGError::LibP2PError(_) => true,
            QuDAGError::UuidError(_) => false,
            QuDAGError::JsonError(_) => false,
            QuDAGError::BincodeError(_) => false,
            QuDAGError::Unknown(_) => false,
        }
    }
}

/// Which errors are worth retrying.
pub open spec fn spec_is_recoverable(e: QuDAGError) -> bool {
    ||| e is NetworkError
    ||| e is IoError
    ||| e is ConsensusError
    ||| e is StorageError
    ||| e is LibP2PError
}

impl QuDAGError {
    /// The error's message, as its `Display` form reads.
    pub fn to_string(&self) -> (s: String)
        ensures
            self matches QuDAGError::NetworkError(m) ==> s@ == "Network error: "@ + m@,
            self matches QuDAGError::ConsensusError(m) ==> s@ == "Consensus error: "@ + m@,
            self matches QuDAGError::CryptoError(m) ==> s@ == "Cryptography error: "@ + m@,
            self matches QuDAGError::ValidationError(m) ==> s@ == "Validation error: "@ + m@,
            self matches QuDAGError::StorageError(m) ==> s@ == "Storage error: "@ + m@,
            self matches QuDAGError::SerializationError(m) ==> s@ == "Serialization error: "@ + m@,
            self matches QuDAGError::ConfigError(m) ==> s@ == "Configuration error: "@ + m@,
            self matches QuDAGError::LibP2PError(m) ==> s@ == "LibP2P error: "@ + m@,
            self matches QuDAGError::Unknown(m) ==> s@ == "Unknown error: "@ + m@,
            self is IoError ==> s@.subrange(0, 10) == "IO error: "@,
            self is UuidError ==> s@.subrange(0, 12) == "UUID error: "@,
            self is JsonError ==> s@.subrange(0, 12) == "JSON error: "@,
            self is BincodeError ==> s@.subrange(0, 15) == "Bincode error: "@,
    {
        let (prefix, detail): (String, String) = match self {
            QuDAGError::NetworkError(m) => (text("Network error: "), m.clone()),
            QuDAGError::ConsensusError(m) => (text("Consensus error: "), m.clone()),
            QuDAGError::CryptoError(m) => (text("Cryptography error: "), m.clone()),
            QuDAGError::ValidationError(m) => (text("Validation error: "), m.clone()),
            QuDAGError::StorageError(m) => (text("Storage error: "), m.clone()),
            QuDAGError::SerializationError(m) => (text("Serialization error: "), m.clone()),
            QuDAGError::ConfigError(m) => (text("Configuration error: "), m.clone()),
            QuDAGError::IoError(e) => (text("IO error: "), e.to_string()),
            QuDAGError::LibP2PError(m) => (text("LibP2P error: "), m.clone()),
            QuDAGError::UuidError(e) => (text("UUID error: "), e.to_string()),
            QuDAGError::JsonError(e) => (text("JSON error: "), e.to_string()),
            QuDAGError::BincodeError(e) => (text("Bincode error: "), e.to_string()),
            QuDAGError::Unknown(m) => (text("Unknown error: "), m.clone()),
        };
        proof {
            reveal_strlit("IO error: ");
            reveal_strlit("UUID error: ");
            reveal_strlit("JSON error: ");
            reveal_strlit("Bincode error: ");
        }
        let s = prefix.concat(detail.as_str());
        assert(s@.subrange(0, prefix@.len() as int) =~= prefix@);
        s
    }
}

impl From<std::io::Error> for QuDAGError {
    fn from(e: std::io::Error) -> (r: Self) {
        QuDAGError::IoError(e)
    }
}

impl vstd::std_specs::convert::FromSpecImpl<std::io::Error> for QuDAGError {
    open spec fn obeys_from_spec() -> bool {
        true
    }

    open spec fn from_spec(e: std::io::Error) -> Self {
        QuDAGError::IoError(e)
    }
}

impl From<uuid::Error> for QuDAGError {
    fn from(e: uuid::Error) -> (r: Self) {
        QuDAGError::UuidError(e)
    }
}

impl vstd::std_specs::convert::FromSpecImpl<uuid::Error> for QuDAGError {
    open spec fn obeys_from_spec() -> bool {
        true
    }

    open spec fn from_spec(e: uuid::Error) -> Self {
        QuDAGError::UuidError(e)
    }
}

impl From<serde_json::Error> for QuDAGError {
    fn from(e: serde_json::Error) -> (r: Self) {
        QuDAGError::JsonError(e)
    }
}

impl vstd::std_specs::convert::FromSpecImpl<serde_json::Error> for QuDAGError {
    open spec fn obeys_from_spec() -> bool {
        true
    }

    open spec fn from_spec(e: serde_json::Error) -> Self {
        QuDAGError::JsonError(e)
    }
}

impl From<bincode::Error> for QuDAGError {
    fn from(e: bincode::Error) -> (r: Self) {
        QuDAGError::BincodeError(e)
    }
}

impl vstd::std_specs::convert::FromSpecImpl<bincode::Error> for QuDAGError {
    open spec fn obeys_from_spec() -> bool {
        true
    }

    open spec fn from_spec(e: bincode::Error) -> Self {
        QuDAGError::BincodeError(e)
    }
}

} // verus!
