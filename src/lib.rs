//! An in-memory key-value cache spoken to over a line-framed wire protocol:
//! the frame codec, the command parser, the cache itself and the per-frame
//! decisions of a connection.

pub mod cache;
pub mod commands;
pub mod connection;
pub mod decimal;
pub mod resp;
pub mod utils;
