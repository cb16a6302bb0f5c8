pub mod types;
pub mod utils;
pub mod eval;
