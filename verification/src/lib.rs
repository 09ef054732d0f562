pub mod packages;
pub mod types;
pub mod text;
pub mod monorepo;
pub mod dependencies;
pub mod generate_config;
