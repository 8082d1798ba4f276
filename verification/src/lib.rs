//! Migration management where each migration is named by hashing its
//! predecessor: the verified core of the `regrate` tool.

pub mod hashing;

pub mod text;
pub mod paths;
pub mod types;
pub mod names;
pub mod run;
pub mod resolve;
pub mod commands;
