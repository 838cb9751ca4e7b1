//! Talking to a language model: what a request says, how an exchange goes and
//! what its answer is worth.

pub mod attempts;
pub mod exchange;
pub mod repair;
pub mod request;
pub mod restore;
