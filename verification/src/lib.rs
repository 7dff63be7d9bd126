//! A sparse square bit matrix stored as a K²-tree, with every operation
//! verified against the matrix it stands for.
//!
//! The tree halves the matrix again and again into four quadrants and keeps
//! one bit per quadrant: set when the quadrant holds a set cell. Quadrants
//! without set cells are not stored any further. The bits of each depth
//! are kept together, four to a block, in one array of stems; the two by
//! two regions at the bottom are kept as leaf blocks.
//!
//! - [`tree`] holds the tree itself: reading and writing cells, growing and
//!   pruning the arrays in place, and building a tree from a dense matrix.
//! - [`encoding`] states what makes four arrays a tree and which matrix
//!   such a tree stands for; [`levels`] and [`range`] are the model behind
//!   it, and [`steps`] says what each step of a write does.
//! - [`laws`], [`canonical`] and [`popcount`] prove what holds of every
//!   tree: its invariants, that a matrix has exactly one tree, and that
//!   the leaves count the set cells.
//! - [`bits`] wraps the bit vector of the `bitvec` crate and holds the
//!   block operations on it; [`counting`] is the arithmetic of set bits.
//! - [`matrix`] describes dense matrices given row by row.
//! - [`graph`] keeps one tree per predicate of a graph of triples.

pub mod bits;
pub mod canonical;
pub mod counting;
pub mod encoding;
pub mod graph;
pub mod laws;
pub mod levels;
pub mod matrix;
pub mod popcount;
pub mod range;
pub mod reference;
pub mod steps;
pub mod tree;

pub use crate::bits::Bits;
pub use crate::graph::Graph;
pub use crate::tree::K2Tree;
