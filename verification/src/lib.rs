//! Verified core of a process manager: configuration model, dependency
//! ordering, restart policy, cluster expansion, paths and small parsers.

pub mod text;
pub mod strmap;
pub mod config;
pub mod deps;
pub mod manager;
pub mod protocol;
pub mod process;
pub mod memory;
pub mod paths;
pub mod cli;
pub mod console;
pub mod lifecycle;
pub mod log;
pub mod envfile;
