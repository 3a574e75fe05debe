//! An ordered, rooted tree container with positional addressing.
//!
//! A [`Path`] is a sequence of child indices that addresses a node relative
//! to a root. A [`Tree`] is a value together with an ordered sequence of
//! child subtrees, queried by [`Tree::lookup`]. A [`TreePathMap`] is a
//! reverse index built from a tree: it maps each item value to every path
//! at which it occurs, in pre-order discovery order.

pub mod path;
pub mod path_map;
pub mod tree;

pub use path::Path;
pub use path_map::TreePathMap;
pub use tree::Tree;
