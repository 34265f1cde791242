//! Selector language for a tree of UI elements: a tokenizer that turns text
//! such as `div.red#id:pressed span.green` into a selector, and a matching
//! engine that decides whether a node, given with its chain of ancestors,
//! satisfies that selector.

mod branch;
pub mod laws;
mod parse;
mod selector;
mod symbol;

pub use selector::{
    EmlBranch, EmlNode, NodeModel, Part, Selector, SelectorElement, SelectorElements, SelectorEntries, SelectorEntry,
    SelectorIndex,
};
pub use branch::{Element, ElementNode, ElementsBranch};
pub use parse::{Expect, Lexeme, ScanState, SelectorParseError, parse_lexemes};
pub use symbol::Tag;
