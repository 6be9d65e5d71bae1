//! Recognizes a small, known set of literal byte strings in one pass over a
//! byte source: rules are compiled into a trie, and a match walks the trie
//! one byte at a time until exactly one rule's action is selected.
//!
//! - [`rules`] turns patterns into flat entries and at most one fallback.
//! - [`trie`] holds the entries in an arena of nodes with shared prefixes,
//!   and installs the fallback at every node.
//! - [`compile`] runs the two in order and pairs the trie with the actions.
//! - [`matcher`] is the walk itself, and says what it selects.
//! - [`source`] is the byte source that a match pulls from, which takes
//!   back the byte behind a prefix, and adapts buffers, text and fallible
//!   sequences to it.
//! - [`laws`] states what holds of every rule set and every input.

pub mod compile;
pub mod laws;
pub mod matcher;
pub mod rules;
pub mod source;
pub mod trie;

pub use compile::{build, lighter, Matcher};
pub use matcher::{Fired, MatchError, Selection, Step, Walk};
pub use rules::{
    normalize, parse_arm, BuildError, Entry, FallbackRule, MatchKind, Pattern, Rule, RuleSet,
};
pub use source::{MatchIterator, MatchRefIterator, MatchStr, MaybeUnwrap, Source, Wrap};
pub use trie::{Node, Trie};
