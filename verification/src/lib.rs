//! Streaming codec for the LZ4 block-stream container format used by the
//! Java `LZ4BlockOutputStream`: byte streams are chunked, optionally
//! compressed, checksummed and framed into self-describing blocks, and the
//! mirror decoder parses that framing back, verifying integrity as it goes.

pub mod common;
pub mod compression;
pub mod lz4_block_header;
pub mod lz4_block_input;
pub mod lz4_block_output;

pub use common::Checksum;
pub use common::Lz4Error;
pub use compression::Context;
pub use lz4_block_header::CompressionLevel;
pub use lz4_block_header::CompressionMethod;
pub use lz4_block_header::Lz4BlockHeader;
pub use lz4_block_input::Lz4BlockInput;
pub use lz4_block_output::Lz4BlockOutput;
pub use lz4_block_output::Lz4BlockOutputBase;
