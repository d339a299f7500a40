pub mod bindings;
pub mod cat_file;
pub mod clone;
pub mod commit_tree;
pub mod hash_object;
pub mod laws;
pub mod ls_tree;
pub mod tree;
pub mod utils;
pub mod write_tree;

pub use cat_file::cat_file;
pub use clone::clone;
pub use commit_tree::commit_tree;
pub use hash_object::hash_object;
pub use ls_tree::ls_tree;
pub use write_tree::write_tree_objects;
