pub mod agent;
pub mod cli_detect;
pub mod permission;
pub mod registry;
pub mod text;
pub mod wsl;
pub mod wsl_lifecycle;
pub mod wsl_path;
pub mod wsl_probe;
