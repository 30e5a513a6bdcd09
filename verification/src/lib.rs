//! Reading and writing the metadata blocks that precede the audio frames of a
//! FLAC stream.

pub mod chain;
pub mod error;
pub mod frame;
pub mod metadata;
pub mod read;
pub mod reader;
pub mod text;
pub mod wire;

pub use error::Error;
pub use read::{find_meta_from_bytes, read_from_bytes, Stream};
