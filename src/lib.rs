//! Grid rectangle placement: geometry, directional occupancy grid, the
//! rectangle legality oracle, the incremental legal-move maintainer, and
//! greedy / beam search drivers built on top of them.

pub mod geometry;
pub mod cell;
pub mod grid;
pub mod oracle;
pub mod state;
pub mod theorems;
pub mod search;
pub mod rescan;
