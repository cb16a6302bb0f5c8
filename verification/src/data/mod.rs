pub mod restricted_range;
pub mod types;
pub mod domain_walker;
pub mod kb_def;
pub mod parser;
pub mod countable;
pub mod score_tree;
pub mod json;
pub mod keymap;
pub mod corpus;
