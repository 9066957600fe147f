//! What the server is told at startup.

pub mod cli_args;
