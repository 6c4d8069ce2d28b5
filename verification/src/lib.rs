//! Normalizes the copy of a conversation that is about to be sent to a model
//! service, so that providers with a stricter notion of a well-formed
//! request accept it. The persisted history is never touched: every pass
//! takes the copy by value and hands back a new one.

pub mod items;
pub mod prompt_copy;
pub mod text;
pub mod notices;
pub mod relocate;
pub mod pairing;
pub mod sanitize;
pub mod laws;
