//! A streaming, charset-agnostic text decoding layer: raw bytes arrive in
//! arbitrary chunks, decoded UTF-8 text is handed to a sink as soon as it is
//! decodable, and the active charset can be switched from outside between
//! calls through a shared, lock-free slot.

pub mod codec;
pub mod encoding;
pub mod laws;
pub mod recording;
pub mod text_decoder;

pub use encoding::{AsciiCompatibleEncoding, SharedEncoding};
pub use recording::{RecordingSink, SinkRecord};
pub use text_decoder::{SinkError, TextDecoder, TextSink};
