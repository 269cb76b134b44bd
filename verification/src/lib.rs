//! Discovery of live broadcasts that match user-supplied query terms.
//!
//! The library holds the verified core of the pipeline: text matching,
//! classification of broadcasts under query terms, the tag-name cache with
//! its durable JSON document, pagination decisions, identity application,
//! uptime formatting, and the final dedup-and-sort stage.  The blocking
//! HTTP transport and the terminal presentation live outside the library
//! and feed it plain values.

pub mod access;
pub mod cachefile;
pub mod classify;
pub mod clock;
pub mod config;
pub mod pipeline;
pub mod render;
pub mod sort;
pub mod stream;
pub mod tags;
pub mod text;
pub mod timefmt;

pub use access::Auth;
pub use access::AppAccess;
pub use config::Appearance;
pub use config::Args;
pub use config::Parameters;
pub use config::append_maybe;
pub use pipeline::TagRecord;
pub use pipeline::SCIENCE_AND_TECH_CATEGORY;
pub use pipeline::SOFTWARE_AND_GAME_DEV_CATEGORY;
pub use pipeline::WhatStream;
pub use render::Color;
pub use render::ColorStyle;
pub use render::Entries;
pub use render::LinePartition;
pub use render::Style;
pub use render::Theme;
pub use sort::Column;
pub use sort::Direction;
pub use sort::SortAction;
pub use sort::sort_streams;
pub use stream::Pagination;
pub use stream::Resp;
pub use stream::Stream;
pub use tags::TagCache;
pub use text::trim_word_boundaries;
