//! Verified core of a Minecraft server manager.

pub mod config;
pub mod file_utils;
pub mod foldersync;
pub mod menus;
pub mod paths;
pub mod pinging;
pub mod server;
pub mod software;
pub mod text;
pub mod ui;
