//! A two-player game of perfect information on a complete binary tree.
//!
//! Players alternately walk from the root towards the leaves, choosing the
//! left or the right child; the value of the leaf reached is the result, which
//! one player tries to maximize and the other to minimize. The tree holds, at
//! every internal node, the value that optimal play from that node achieves.

mod random;
pub mod tree;
pub mod game;
pub mod command;
pub mod settings;
