//! mango: a small static site generator.

pub mod clean;
pub mod config;
pub mod date;
pub mod error;
pub mod frontmatter;
pub mod generate;
pub mod hidden;
pub mod index;
pub mod loader;
pub mod output;
pub mod page;
pub mod pipeline;
pub mod relative;
pub mod slug;
pub mod sort;
pub mod summary;
pub mod tag;
pub mod template;
pub mod text;
pub mod walk;
pub mod xml;
