//! A declarative host-configuration engine: properties describe a desired
//! state of a machine (files with given content or lines, assignments in
//! configuration files, packages installed, trees mirrored through symlinks),
//! and a runner reconciles the machine toward it, property by property.

pub mod apt;
pub mod cmd;
pub mod conf_file;
pub mod content;
pub mod dir;
pub mod file;
pub mod git;
pub mod host;
pub mod os;
pub mod pacman;
pub mod property;
pub mod runner;
pub mod text;
pub mod user_path;

pub use host::{user, ConfigureUser, HostUsersConf, RotorBuilder, UserAtHost, UserConf};
pub use property::{prop, Property, PropertyList};
