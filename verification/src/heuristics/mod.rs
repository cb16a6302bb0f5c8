pub mod traverser;
