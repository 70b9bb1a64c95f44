//! Verified core of an RSS reader that builds a knowledge base from feeds.
pub mod chars;
pub mod config;
pub mod crawl;
pub mod embeddings;
pub mod extract;
pub mod feed;
pub mod graph;
pub mod hybrid;
pub mod models;
pub mod page;
pub mod parse;
pub mod robots;
pub mod search;
pub mod snippet;
pub mod time;
pub mod unicode;
pub mod urls;
pub mod vector;
