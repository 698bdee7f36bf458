//! What a front end needs to keep of the user's input.

pub mod interaction;
