pub mod cat;
pub mod data;
pub mod algorithm;
pub mod eval;
pub mod heuristics;
