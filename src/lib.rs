//! A small post service: posts are created with a fresh identifier and the
//! current time, listed newest first, and deleted by identifier.
pub mod timestamp;
pub mod ident;
pub mod sanitize;
pub mod tweet;
pub mod laws;
