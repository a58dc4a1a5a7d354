//! Incremental best-first exploration of a walled grid maze, with fixed-size
//! storage: wall knowledge is learnt cell by cell, costs are relaxed as
//! shorter routes appear, and a bounded stack supplies the next cell to visit.

pub mod cell;
pub mod direction;
pub mod explorer;
pub mod laws;
pub mod point;
pub mod search_info;
pub mod update_info;

mod targets;
