//! What the chat commands work out before anything is sent.

pub mod checks;
pub mod dice;
pub mod roles;
