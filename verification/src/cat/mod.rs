pub mod num;
pub mod has_count;
pub mod types;
pub mod ops;
pub mod composed;
pub mod table;
pub mod domain;
pub mod universe;
pub mod product;
pub mod seq;
pub mod seq_table;
pub mod hash_mapping;
pub mod bag;
