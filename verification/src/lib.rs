//! A remote memory-pool service: pools of bytes addressed by id, a text
//! request protocol spoken over a stream, and the client side of it.

pub mod text;
pub mod encoding;
pub mod pool;
pub mod table;
pub mod bridge;
pub mod protocol;
pub mod client;
pub mod laws;
pub mod stream_laws;
pub mod answer_lines;
pub mod content_laws;
