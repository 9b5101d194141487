//! Sprague-Grundy values of taking games played on hypergraphs.
//!
//! A position is a hypergraph whose vertices are tokens.  A move picks one
//! hyperedge and removes a non-empty subset of its vertices; who cannot move
//! loses.  A position is kept in a canonical shape, so that equal positions
//! are found again: connected, without needless edges, its vertices and
//! edges renumbered by structural classes.
//!
//! - `bits`, `bitset`, `vertex_set`: the dense vertex set and its contract.
//! - `hypergraph`, `relabel`, `reduce`, `components`, `sorter`, `classes`,
//!   `construct`: the canonical hypergraph and how it is built.
//! - `stable`, `canon`, `coarsest`: what the structural classes are, and why
//!   the edges of a position fix them.
//! - `game`, `symmetry`, `moves`: the game on a position, the search for a
//!   mirror symmetry and the representative moves.
//! - `nimber`, `bound`, `evaluator`, `signal`: what a nimber is, its upper
//!   bound, the search that finds and remembers nimbers, and the flag that
//!   calls the search off.
//! - `builder`, `known_games`, `picture`: well-known games, what is known of
//!   them, and the rows of a picture of a position.
//! - `order`, `product`, `unionfind`, `chance`, `util`: sorting, cartesian
//!   products, disjoint sets, random numbers and sorted lists.

pub mod bits;
pub mod bitset;
pub mod bound;
pub mod builder;
pub mod canon;
pub mod chance;
pub mod classes;
pub mod coarsest;
pub mod components;
pub mod construct;
pub mod evaluator;
pub mod game;
pub mod hypergraph;
pub mod known_games;
pub mod moves;
pub mod nimber;
pub mod order;
pub mod picture;
pub mod product;
pub mod reduce;
pub mod relabel;
pub mod signal;
pub mod sorter;
pub mod stable;
pub mod symmetry;
pub mod unionfind;
pub mod util;
pub mod vertex_set;
