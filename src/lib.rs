pub mod keys;
pub mod shortcuts;
pub mod file_tree;
