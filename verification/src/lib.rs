//! Clipboard conversion between plain text, Markdown and rich text.
pub mod autostart;
pub mod chooser;
pub mod cli;
pub mod clipboard;
pub mod config;
pub mod convert;
pub mod daemon;
pub mod markdown;
pub mod paste;
pub mod term;
pub mod text;
