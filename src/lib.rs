//! Building blocks for hand-written lexers and combinator parsers over byte input.
//!
//! Bytes are decoded into Unicode scalar values, grouped into grapheme clusters
//! with locations, lexed into tokens that carry spans, and parsed by combinators
//! into a tree whose leaves point back into the token stream.
use vstd::prelude::*;

pub mod clusters;
pub mod combinators;
pub mod decode;
pub mod error;
pub mod lexer;
pub mod node;
pub mod span;
pub mod stream;
pub mod token;
pub mod tree_builder;

pub use clusters::{ClusterResult, Clusters};
pub use combinators::{
    any_of, eof, flatten, nothing, repeated, sequence, token, ParseError, Parser, TokenIter,
    EOF_KIND,
};
pub use decode::{encode_utf8, Blackhole, Chars, CharsResult, InclusiveRange, REPLACEMENT};
pub use error::LexError;
pub use lexer::{last_claimant, Lexer};
pub use node::{Node, NodeValue};
pub use span::{generate_lines, Line, Span};
pub use stream::{is_line_break, GraphemeLocation, Graphemes};
pub use token::{Token, TokenValue, Tokenizer};
pub use tree_builder::TreeBuilder;
