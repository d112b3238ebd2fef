//! A hierarchical goal tracker: goals in a tree, done flags, rankings,
//! annotations, tags, modification with id renaming, and undo, over tables
//! held in memory.

pub mod display;
pub mod graph;
pub mod ids;
pub mod laws;
pub mod messages;
pub mod model;
pub mod priority;
pub mod priority_facts;
pub mod sorting;
pub mod store;
pub mod text;
