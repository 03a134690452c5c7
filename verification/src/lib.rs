pub mod available_packages;
pub mod cache;
pub mod commands;
pub mod dependencies;
pub mod errors;
pub mod installed_packages;
pub mod installer;
pub mod packages;
pub mod paths;
pub mod repositories;
pub mod requirements;
pub mod text;
pub mod utils;
