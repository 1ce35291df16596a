//! HTML markup text to a navigable in-memory node tree, with first-match
//! queries over that tree.
//!
//! The scanner ([`tokenize`]) turns raw markup into an ordered token
//! sequence, the tree builder ([`graph_creator`]) drains that sequence into
//! a rooted [`Node`] tree, and the query engine ([`find_node`] and the
//! `find_by_*` helpers) returns the first node of the tree, in document
//! order, that satisfies a predicate.

pub mod parser;
pub mod query;
pub mod roundtrip;
pub mod tokenizer;

pub use parser::Attributes;
pub use parser::Node;
pub use parser::closing_tags_named;
pub use parser::graph_creator;
pub use query::find_by_attribute;
pub use query::find_by_tag_name;
pub use query::find_by_text;
pub use query::find_node;
pub use tokenizer::Tokens;
pub use tokenizer::tokenize;
