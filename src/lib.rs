//! Incremental decoding of a chat-completion event stream: raw byte chunks
//! are reassembled into blank-line delimited frames, each frame is
//! classified, and the payload of a data frame becomes a text delta.
pub mod decoder;
pub mod error;
pub mod frame;
pub mod payload;
