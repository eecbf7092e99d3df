//! Tokens, listings, command handling and the bundle walk of a small
//! file-transfer service.
pub mod command;
pub mod text;
pub mod token;
pub mod upload;
pub mod walk;
