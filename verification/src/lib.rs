//! Streaming GIF decoder: block-structured header parsing, palette
//! resolution, LZW dictionary decompression, and frame assembly with
//! animation metadata, delivered to a consumer through a bounded
//! producer/consumer hand-off.

pub mod channel;
pub mod cursor;
pub mod error;
pub mod extension;
pub mod frame;
pub mod lzw;
pub mod reader;
pub mod subblock;
