//! Styled text as a tree: a text with attributes on ranges of it.
//!
//! A [`Tree`] holds the text in the leaves of a tree of [`Node`]s. Every
//! node carries a set of attributes, which hold for all the text below it.
//! Setting and unsetting an attribute on a range, and putting text in or
//! taking it out, keep the tree in canonical arrangement: every node below
//! the root covers text, every inner node carries an attribute, no two
//! neighbours could be joined or grouped, and no byte is given an attribute
//! twice.
//!
//! The contracts speak of the text that a node covers and, for each byte of
//! it, of the set of attributes that the byte carries from that node
//! downwards. Beside that, the contract of each operation names a relation
//! that says how the tree it leaves behind is made of the tree it found,
//! node by node: `style::styled`, `unstyle::unstyled`, `edit::cut`,
//! `text::taken_in`, and `settle::settles` for the canonical arrangement of
//! a list of siblings. The identifiers of new nodes are the one thing that
//! these leave open. The module `laws` holds what follows for the
//! operations taken together.

pub mod attrs;
pub mod canon;
pub mod change;
pub mod edit;
pub mod fmt;
pub mod info;
pub mod iterator;
pub mod laws;
pub mod marks;
pub mod node;
pub mod order;
pub mod purge;
pub mod render;
pub mod seqs;
pub mod settle;
pub mod style;
pub mod text;
pub mod tree;
pub mod unstyle;
pub mod walk;

pub use node::Node;
pub use tree::Tree;
