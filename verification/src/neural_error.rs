//! Errors of the neural mesh.

use vstd::prelude::*;

use crate::error::text;

verus! {

#[verifier::external_type_specification]
#[verifier::external_body]
pub struct ExRuvFannError(ruv_fann::errors::RuvFannError);

/// Errors that can occur in the neural mesh.
#[derive(Debug)]
pub enum NeuralMeshError {
    Network(String),
    Neural(ruv_fann::errors::RuvFannError),
    Communication(String),
    Synchronization(String),
    Agent(String),
    Configuration(String),
    Training(String),
    Io(std::io::Error),
    Serialization(String),
    CapacityExceeded(String),
    NotFound(String),
    InvalidInput(String),
    Timeout(String),
    WebGPU(String),
    Wasm(String),
    Unknown(String),
}

impl From<std::io::Error> for NeuralMeshError {
    fn from(e: std::io::Error) -> (r: Self) {
        NeuralMeshError::Io(e)
    }
}

impl vstd::std_specs::convert::FromSpecImpl<std::io::Error> for NeuralMeshError {
    open spec fn obeys_from_spec() -> bool {
        true
    }

    open spec fn from_spec(e: std::io::Error) -> Self {
        NeuralMeshError::Io(e)
    }
}

impl From<ruv_fann::errors::RuvFannError> for NeuralMeshError {
    fn from(e: ruv_fann::errors::RuvFannError) -> (r: Self) {
        NeuralMeshError::Neural(e)
    }
}

impl vstd::std_specs::convert::FromSpecImpl<ruv_fann::errors::RuvFannError> for NeuralMeshError {
    open spec fn obeys_from_spec() -> bool {
        true
    }

    open spec fn from_spec(e: ruv_fann::errors::RuvFannError) -> Self {
        NeuralMeshError::Neural(e)
    }
}

impl NeuralMeshError {
    /// A not-found error with the given message.
    pub fn not_found(msg: &str) -> (e: Self)
        ensures
            e matches NeuralMeshError::NotFound(m) && m@ == msg@,
    {
        NeuralMeshError::NotFound(text(msg))
    }

    /// An invalid-input error with the given message.
    pub fn invalid_input(msg: &str) -> (e: Self)
        ensures
            e matches NeuralMeshError::InvalidInput(m) && m@ == msg@,
    {
        NeuralMeshError::InvalidInput(text(msg))
    }
}

} // verus!
