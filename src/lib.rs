//! Content storage for large assets: fragments are uploaded one by one, assembled
//! atomically into a checksum-verified asset, and delivered back chunk by chunk
//! with self-describing continuation tokens.

pub mod asset_handler;
pub mod checksum;
pub mod chunk_handler;
pub mod http_handler;
pub mod memory;
pub mod types;
pub mod utils;
