//! The Minecraft Bedrock side of the server: the reader of Bedrock
//! packets, the handler of the RakNet packets that carry them, and their
//! errors.

pub mod error;
pub mod packet_handler;
pub mod reader;
pub mod utils;
