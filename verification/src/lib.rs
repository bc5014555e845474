//! A mutable byte-oriented text buffer built on the piece-table technique.
//!
//! The text is a chain of pieces, each a span into an append-only backing
//! buffer. Edits relink the chain and append to the buffer; bytes and pieces,
//! once stored, are never moved or reclaimed.

pub mod buffer;
pub mod chain;
pub mod consistency;
pub mod cursor;
pub mod decode;
pub mod model;
pub mod span;
pub mod text;

pub use buffer::AppendOnlyBuffer;
pub use chain::Piece;
pub use cursor::{Bytes, Pieces};
pub use span::{Interval, Span};
pub use text::Text;
