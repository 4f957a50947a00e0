pub mod build_layout;
pub mod config;
pub mod custom_list;
pub mod error;
pub mod magic_mount;
pub mod parser;
pub mod scanner;
pub mod text;
pub mod umount;
pub mod utils;
