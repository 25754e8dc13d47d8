//! Packs a sequence of byte strings into one buffer, each behind a length
//! prefix, and walks such a buffer to give the byte strings back.
pub mod buffer;
pub mod config;
pub mod laws;
pub mod layout;

pub use buffer::{Buffer, BufferIterator, MalformedBufferError};
pub use config::{Config, LengthOverflowError, configure, size_estimate};
pub use layout::{ByteOrder, LengthWidth};
