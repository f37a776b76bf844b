//! A disjoint-set (union-find) structure over the indices `0..n`.
//!
//! Every component is a tree of parent links whose root is the smallest index
//! of the component. [`UnionFind::find`] compresses the path of the queried
//! element only, and [`UnionFind::union`] hangs the larger of two roots under
//! the smaller one.

pub mod forest;
pub mod laws;
pub mod paths;
pub mod unionfind;

pub use crate::unionfind::IndexOutOfRange;
pub use crate::unionfind::UnionFind;
