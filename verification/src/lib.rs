//! A parser for tab-structured documents: every line is a bare string item or
//! a key with a value, and lines indented one tab deeper than a key form the
//! key's nested sequence.

pub mod document;
pub mod laws;
pub mod matcher;
pub mod scan;
pub mod text;
pub mod tree;

pub use document::parse;
pub use document::parse_array;
pub use document::parse_kvp;
pub use document::ParseError;
pub use matcher::pchar;
pub use matcher::pword;
pub use tree::Node;
pub use tree::TArray;
pub use tree::TItem;
pub use tree::TKeyValuePair;
