pub mod text;
pub mod config;
pub mod rc;
pub mod files;
pub mod script;
pub mod paths;
pub mod cli;
