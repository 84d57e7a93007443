//! Connecting Thaumcraft aspects: which chains of elements lead from one
//! element to another through the crafting recipes, and which primary
//! elements a compound one breaks down into.

mod backtrack;
pub mod crack;
pub mod dao;
pub mod pathes;
pub mod recipes;
pub mod relation;
pub mod tree;
