//! The platform-independent editor facade: every document mutation from a frontend
//! goes through [`Editor`].
pub mod error;
pub mod selection;
pub mod update;
pub mod input;
pub mod command;
pub mod facade;

pub use facade::Editor;
