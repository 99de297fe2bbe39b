//! Directory synchronisation: what to transfer, how to frame it, and what a remote is.
//!
//! Everything here is a function of plain values. Reading directories, talking to an SSH
//! server and drawing progress bars are left to the program around the library.
pub mod cli;
pub mod config;
pub mod delta;
pub mod error;
pub mod hash;
pub mod ignore_edit;
pub mod ignore_rules;
pub mod os_path;
pub mod path;
pub mod progress;
pub mod server;
pub mod sync;
pub mod text;
pub mod transport;

