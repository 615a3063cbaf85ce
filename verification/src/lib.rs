//! Service-side bindings for a file-based chat-bot protocol.
//!
//! A host process writes an incoming chat message to a file as a structured
//! text document, invokes the service with a mode argument, and reads the
//! service's decision back from a response file.  This crate provides the
//! message data model, the byte-exact codec for the message document, the
//! reply-generation rule, and the protocol dispatch, all with verified
//! contracts.  Reading and writing the files themselves is left to the
//! program that embeds the library.

pub mod codec;
pub mod hello;
pub mod message;
pub mod num;
pub mod protocol;
pub mod text;
pub mod utf8;
