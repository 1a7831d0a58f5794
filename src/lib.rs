//! Canonical forms and automorphism groups of graphs.
//!
//! A graph on vertices `0..n` is held as a packed bit matrix (`dense`). Its
//! canonical form is the least relabelling of that matrix, in word-by-word
//! lexicographic order, over every ordering of the vertices (`search`), so two
//! graphs on the same vertices get equal labels exactly when they are
//! isomorphic (`canon`). The same search lists every automorphism once, from
//! which come the orbits and the order of the group (`autom`). `refine`
//! computes equitable ordered partitions of the vertices.

pub mod matrix;
pub mod dense;
pub mod search;
pub mod canon;
pub mod autom;
pub mod refine;
