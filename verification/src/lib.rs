pub mod cli;
pub mod clipboard;
pub mod config;
pub mod graphics;
pub mod highlight;
pub mod image;
pub mod input;
pub mod layout;
pub mod navigate;
pub mod net;
pub mod paint;
pub mod parser;
pub mod reader;
pub mod render;
pub mod sanitize;
pub mod search;
pub mod selection;
pub mod slides;
pub mod stats;
pub mod status;
pub mod text;
pub mod theme;
pub mod unicode;
pub mod viewer;
pub mod wikilink;

pub use cli::{Args, Cli, Commands, ConfigAction, Spacing};
