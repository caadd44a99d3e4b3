pub mod alist2strm;
pub mod ani2alist;
pub mod app_info;
pub mod extensions;
pub mod logging;
pub mod outside;
pub mod text;
