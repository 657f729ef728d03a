//! Hanji: a local-first Markdown editor's text editing core.
//!
//! The library owns source buffers, selections, transactions, undo history, plain-text
//! commands, offset conversion, and the Markdown typing policy. Every offset is a byte
//! offset into the UTF-8 encoding of the document source.
#![allow(unused_imports)]

pub mod utf8;
pub mod text;
pub mod selection;
pub mod transaction;
pub mod document;
pub mod encoding;
pub mod segmentation;
pub mod command;
pub mod source;
pub mod editing;
pub mod lists;
pub mod decimal;
pub mod list_editing;
pub mod external;
pub mod preview;
pub mod snapshot;
pub mod file_browser;
pub mod time_label;
pub mod session;
pub mod editor;
