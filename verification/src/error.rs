//! The ways in which an encode can fail.

use vstd::prelude::*;

verus! {

/// Why an encode was abandoned. Every error aborts the encode; the buffers
/// are then in no particular state.
#[derive(Debug, Clone, Copy, PartialEq, Eq, Structural)]
pub enum VariantError {
    /// The source text is not a JSON document.
    InvalidJson,
    /// A JSON number is neither an integer of 64 bits, nor a decimal, nor a
    /// finite double.
    NumberUnparseable,
    /// One of the two buffers would have to grow beyond the size limit.
    SizeLimitExceeded,
    /// The memory allocator could not grow a buffer.
    AllocationFailed,
    /// The write cursor ran past the buffer after a capacity check.
    InternalInvariant,
}

impl VariantError {
    /// A short description of the error.
    pub fn message(&self) -> (text: &'static str)
        ensures
            text@ == match *self {
                VariantError::InvalidJson => "Invalid JSON."@,
                VariantError::NumberUnparseable => "Failed to parse number."@,
                VariantError::SizeLimitExceeded => "Variant size limit exceeded."@,
                VariantError::AllocationFailed => "The memory allocator failed to grow a buffer."@,
                VariantError::InternalInvariant => "Buffer size insufficient. There might be a bug in the memory allocator."@,
            },
    {
        match self {
            VariantError::InvalidJson => "Invalid JSON.",
            VariantError::NumberUnparseable => "Failed to parse number.",
            VariantError::SizeLimitExceeded => "Variant size limit exceeded.",
            VariantError::AllocationFailed => "The memory allocator failed to grow a buffer.",
            VariantError::InternalInvariant => "Buffer size insufficient. There might be a bug in the memory allocator.",
        }
    }
}

/// Why a table cannot be worked with.
#[derive(Debug)]
pub enum TableError {
    /// The table asks for something that is not supported.
    Unsupported(String),
    /// The protocol of the table is not a valid one.
    InvalidProtocol(String),
}

impl TableError {
    /// The text of the error.
    pub fn to_string(&self) -> (text: String)
        ensures
            text@ == match *self {
                TableError::Unsupported(message) => message@,
                TableError::InvalidProtocol(message) => message@,
            },
    {
        match self {
            TableError::Unsupported(message) => message.clone(),
            TableError::InvalidProtocol(message) => message.clone(),
        }
    }
}

} // verus!
