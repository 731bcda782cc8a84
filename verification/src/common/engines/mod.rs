//! What a backend has to compute before it touches its storage.

pub mod layout;
pub mod mem;
