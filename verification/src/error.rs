//! Crate-owned error type for engine resource creation and asset-loading failures.
use vstd::prelude::*;

use crate::text::{concat_str, io_error_kind, io_error_message, FontError};
use std::io;
use vstd::std_specs::convert::FromSpecImpl;

verus! {

broadcast use vstd::string::group_string_axioms;

/// Crate-owned error type for engine resource creation and asset-loading failures.
///
/// This type intentionally avoids exposing backend-specific error types in public APIs where a
/// crate-owned error is sufficient.
#[derive(Clone, Debug)]
pub enum EngineError {
    /// A filesystem or stream read/write failed.
    IoError { kind: io::ErrorKind, message: String },
    /// Font loading, metadata parsing, or atlas generation failed.
    FontError(FontError),
    /// Image decoding failed.
    ImageDecodeError(String),
    /// Input resource data was malformed or unsupported.
    InvalidResource(String),
    /// GPU texture creation failed.
    TextureCreationError(String),
    /// GPU buffer creation failed.
    BufferCreationError(String),
    /// GPU shader or pipeline creation failed.
    PipelineCreationError(String),
    /// No compatible adapter was available.
    AdapterUnavailable,
    /// Requesting a GPU device failed.
    DeviceRequestError(String),
    /// Surface creation or configuration failed.
    SurfaceError(String),
}

impl EngineError {
    /// Human-readable description of the error.
    pub open spec fn spec_message(&self) -> Seq<char> {
        match self {
            EngineError::IoError { message, .. } => "I/O error: "@ + message@,
            EngineError::FontError(err) => "font error: "@ + err.spec_message(),
            EngineError::ImageDecodeError(m) => "image decode error: "@ + m@,
            EngineError::InvalidResource(m) => "invalid resource: "@ + m@,
            EngineError::TextureCreationError(m) => "texture creation error: "@ + m@,
            EngineError::BufferCreationError(m) => "buffer creation error: "@ + m@,
            EngineError::PipelineCreationError(m) => "pipeline creation error: "@ + m@,
            EngineError::AdapterUnavailable => "no compatible GPU adapter available"@,
            EngineError::DeviceRequestError(m) => "device request error: "@ + m@,
            EngineError::SurfaceError(m) => "surface error: "@ + m@,
        }
    }

    /// Human-readable description of the error.
    pub fn message(&self) -> (r: String)
        ensures
            r@ == self.spec_message(),
    {
        match self {
            EngineError::IoError { message, .. } => concat_str("I/O error: ", message.as_str()),
            EngineError::FontError(err) => {
                let inner = err.message();
                concat_str("font error: ", inner.as_str())
            },
            EngineError::ImageDecodeError(m) => concat_str("image decode error: ", m.as_str()),
            EngineError::InvalidResource(m) => concat_str("invalid resource: ", m.as_str()),
            EngineError::TextureCreationError(m) => concat_str(
                "texture creation error: ",
                m.as_str(),
            ),
            EngineError::BufferCreationError(m) => concat_str("buffer creation error: ", m.as_str()),
            EngineError::PipelineCreationError(m) => concat_str(
                "pipeline creation error: ",
                m.as_str(),
            ),
            EngineError::AdapterUnavailable => "no compatible GPU adapter available".to_string(),
            EngineError::DeviceRequestError(m) => concat_str("device request error: ", m.as_str()),
            EngineError::SurfaceError(m) => concat_str("surface error: ", m.as_str()),
        }
    }

    /// The underlying error: the font error for `FontError`, none otherwise.
    pub fn source(&self) -> (r: Option<&FontError>)
        ensures
            r matches Some(e) ==> self matches EngineError::FontError(f) && *e == f,
            r is None ==> !(self is FontError),
    {
        match self {
            EngineError::FontError(err) => Some(err),
            _ => None,
        }
    }
}

impl From<io::Error> for EngineError {
    /// Converts an I/O error, keeping its kind and its message.
    fn from(err: io::Error) -> (r: Self)
        ensures
            r matches EngineError::IoError { kind, .. } && kind == crate::text::io_error_kind_of(err),
    {
        let kind = io_error_kind(&err);
        let message = io_error_message(&err);
        EngineError::IoError { kind, message }
    }
}

impl FromSpecImpl<io::Error> for EngineError {
    /// The message is the error's `Display` text, which depends on the platform and locale, so
    /// no spec function of the error describes the whole result.
    open spec fn obeys_from_spec() -> bool {
        false
    }

    open spec fn from_spec(v: io::Error) -> EngineError {
        EngineError::IoError { kind: crate::text::io_error_kind_of(v), message: vstd::pervasive::arbitrary() }
    }
}

impl From<FontError> for EngineError {
    fn from(err: FontError) -> (r: Self) {
        Self::FontError(err)
    }
}

impl FromSpecImpl<FontError> for EngineError {
    open spec fn obeys_from_spec() -> bool {
        true
    }

    open spec fn from_spec(v: FontError) -> EngineError {
        EngineError::FontError(v)
    }
}

} // verus!
