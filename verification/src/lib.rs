//! A grid of cells that hold integers or formulas over other cells, kept
//! up to date through a dependency graph that never holds a cycle.

pub mod arith;
pub mod commands;
pub mod coords;
pub mod formula;
pub mod function;
pub mod graph;
pub mod laws;
pub mod lists;
pub mod parser;
pub mod render;
pub mod spreadsheet;
pub mod text;
