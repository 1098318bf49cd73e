//! A memoizing, tree-shaped loader for a forum of stories and nested
//! comments, with the small text helpers that its presentation layer uses.

pub mod item;
pub mod cache;
pub mod laws;
pub mod pages;
pub mod feed;
pub mod comment_parser;
pub mod human_format;
pub mod favicon;
