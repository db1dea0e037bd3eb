//! A small key-value server core: a length-delimited frame protocol, the
//! GET/SET command set carried by it, an in-memory store and the step that a
//! connection takes for each frame it receives.
pub mod frame;
pub mod codec;
pub mod command;
pub mod store;
pub mod connection;
pub mod state;
pub mod frame_lemmas;
