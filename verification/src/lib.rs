//! Dotty's configuration and profile lifecycle engine: the persisted
//! configuration document, its text encoding and decoding, the branch-name
//! validation that gates profile creation, and the four profile workflows —
//! create, list/activate, delete, update — each specified down to the file
//! write it performs.
pub mod codec;
pub mod config;
pub mod file_system;
pub mod git;
pub mod lifecycle;
pub mod profiles;
pub mod strings;
