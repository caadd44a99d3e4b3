pub mod runner;
pub mod url_tree;
pub mod utils;
