//! Decoding of the logs that contracts emit, against the signatures of their events.
//!
//! [`decoder`] decodes a log; [`param`] decodes one value from bytes, by the type
//! that [`descriptor`] reads from its descriptor; [`cache`] keeps signatures by hash.

pub mod abi_type;
pub mod blocks;
pub mod cache;
pub mod canonical;
pub mod decoder;
pub mod descriptor;
pub mod encoding;
pub mod error;
pub mod hexdata;
pub mod laws;
pub mod param;
pub mod parameters;
pub mod text;
pub mod value;
pub mod word;

pub use abi_type::AbiType;
pub use cache::EventSignatureCache;
pub use decoder::{DecodedLog, EventInput, EventSignature, LogDecoder, LogEntry};
pub use error::DecodeError;
pub use parameters::{DecodedParameter, ParameterMap};
pub use value::DecodedValue;
pub use word::Magnitude;
