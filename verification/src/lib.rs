//! An outline parser: turns a line-oriented outline document into a tree of
//! headings, each annotated with an optional workflow keyword.
//!
//! `Parser::parse` is the entry point. The modules below it hold, in turn,
//! the character-level scanners, the directive lines that configure the
//! workflow keywords, the classification of a heading line, the tree that a
//! sequence of headings forms, and the arena that stores it.

pub mod arena;
pub mod error;
pub mod heading;
pub mod keywords;
pub mod laws;
pub mod parser;
pub mod text;
pub mod tree;

pub use crate::arena::{Arena, Node, NodeId};
pub use crate::error::ParseError;
pub use crate::heading::Header;
pub use crate::keywords::{Options, SEQ_STATES};
pub use crate::parser::Parser;
