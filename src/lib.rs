//! A grid maze generator (randomised Kruskal over a disjoint-set forest) and
//! an explorer that walks the generated maze by local sensing, a visited set
//! and a backtrack stack.

pub mod frame;
pub mod union_find;
pub mod maze;
pub mod tile;
pub mod walker;
