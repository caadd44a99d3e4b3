pub mod config;
pub mod path;
pub mod protection;
pub mod summary;
pub mod utils;
