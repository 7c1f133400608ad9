//! Conversion of Markdown or HTML into Unicode-styled text.
//!
//! The library parses a small subset of Markdown (`markdown`, `inline`) or
//! HTML (`html`) into a syntax tree (`ast`), then renders that tree with
//! Unicode mathematical letters and combining marks (`converter`,
//! `handlers`). `service` ties both together; `api` and `mcp` hold what the
//! HTTP functions and the MCP server decide.

pub mod api;
pub mod ast;
pub mod converter;
pub mod error;
pub mod handlers;
pub mod html;
pub mod id;
pub mod inline;
pub mod markdown;
pub mod mcp;
pub mod service;
pub mod syntax;
pub mod text;

pub use ast::{ContainerNode, ContainerType, InlineNode, ListItemNode, NodeBase, Span, TextNode};
pub use converter::{ToUnicode, convert};
pub use error::{ParseError, SourcePosition};
pub use html::HtmlParser;
pub use markdown::MarkdownParser;
pub use service::{ContentService, ServiceError};
pub use syntax::{Parser, SupportedSymbol};
