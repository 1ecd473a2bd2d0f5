//! A small template engine for status-line text: templates mix literal text
//! with `{name}` / `{name:spec}` placeholders, are compiled once, and are
//! rendered against a typed key-value context.

pub mod bytes;
pub mod context;
pub mod laws;
pub mod mpd;
pub mod number;
pub mod output;
pub mod parser;
pub mod render;
pub mod template;
pub mod text;
pub mod util;
