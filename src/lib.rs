//! Parses a raw email message into its headers, its body and the addresses of
//! its `From` and `To` headers.
//!
//! [`grammar`] holds the message and address grammars, each a spec function
//! with a matcher proved to agree with it; [`message`] holds the semantic pass
//! over the parse tree, [`ParsedEmail::from_email`], whose result is pinned
//! down by `parse_email`.
pub mod grammar;
pub mod message;

pub use grammar::{EmailParser, HeaderSpan, MessageTree};
pub use message::{EmailParseError, ParsedEmail};
