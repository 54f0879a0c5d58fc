//! The algorithmic core of an "untangle the graph" puzzle.
//!
//! A graph is made from an arrangement of circles ([`builder`]), pruned and
//! contracted at random to a target size with the way back kept
//! ([`reducer`]), and drawn; the player moves its nodes until no two edges
//! cross ([`crossing`]). A force field nudges the nodes apart; which nodes
//! and edges push a node is chosen in [`field`]. The commands that the
//! puzzle takes are in [`command`].

pub mod builder;
pub mod circle_laws;
pub mod command;
pub mod connected;
pub mod crossing;
pub mod field;
pub mod graph;
pub mod random;
pub mod reducer;
pub mod reducer_laws;
