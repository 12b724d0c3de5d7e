//! The outputs of a build, one module per kind: content pages, section
//! indexes, the home page, tag pages, the feed, the sitemap and assets.

pub mod assets;
pub mod content;
pub mod feed;
pub mod home;
pub mod section;
pub mod sitemap;
pub mod tag;
