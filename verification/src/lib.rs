//! A Markdown knowledge base in which every block is one file: wiki directives
//! (`[[target]]` references and `![[target]]` transclusions), block-file parsing and
//! writing, the vault graph, rendering, and the web presentation layer.

pub mod text;
pub mod link;
pub mod id;
pub mod block;
pub mod yaml;
pub mod rx;
pub mod blockfile;
pub mod conflict;
pub mod vault;
pub mod lineage;
pub mod clock;
pub mod render;
pub mod index;
pub mod view;
pub mod http;
pub mod routes;
pub mod service;
pub mod server;
pub mod paths;
pub mod config;
pub mod edits;
pub mod connect;
pub mod fts;
pub mod embedder;
pub mod tools;
pub mod appcore;
pub mod numeric;
pub mod query;
pub mod request;
pub mod mcp;
pub mod assets;
pub mod roundtrip;
pub mod cli;
pub mod document;
pub mod dispatch;
