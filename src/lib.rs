//! Decoding of EDDS texture containers into plain DDS byte streams.
//!
//! An EDDS container is a DDS header (128 bytes, or 148 with the DX10
//! extension) followed by a table of 8-byte block records and the block
//! bodies. Each body is stored verbatim or as a sequence of LZ4 block frames.

pub mod assemble;
pub mod block;
pub mod convert;
pub mod format;
pub mod frames;
pub mod header;
pub mod laws;
pub mod lz4;

pub use assemble::BlockOrder;
pub use block::{Block, Blocks};
pub use convert::{decode, decode_with, EddsFile, FramePolicy};
pub use format::DecodeError;
pub use header::{BlockHeader, BlockIdentifier, BlockIdentifiers, BlockKind, Header, HeaderFlags};
