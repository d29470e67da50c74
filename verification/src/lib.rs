//! An ordered set in a left-leaning red-black tree.
//!
//! The set keeps one element for each place in the order of its element type.
//! It answers whether it holds an element, takes a new element in, and hands
//! its smallest element out, each in time logarithmic in its size. The nodes
//! of the tree live in an arena and name each other by handle.
//!
//! - `tree` holds the set itself, `BST`, and the contracts of its operations.
//! - `arena` holds the node storage.
//! - `balance` and `descent` hold the algorithms that work on the arena.
//! - `model`, `shape`, `repair` and `paths` describe the tree as a
//!   mathematical value: what it is, what an operation makes of it, and why
//!   the balance rules survive.
//! - `order`, `ordered` and `runs` describe ascending sequences, which are
//!   what a set looks like from outside.

pub mod arena;
pub mod balance;
pub mod descent;
pub mod model;
pub mod order;
pub mod ordered;
pub mod paths;
pub mod repair;
pub mod runs;
pub mod shape;
pub mod tree;

pub use tree::BST;
