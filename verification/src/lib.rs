//! A personal file-synchronization helper library.
//!
//! The crate keeps a registry of named remote machines ("nodes") and named
//! local directories ("targets"), and compiles directory-mirroring commands
//! between the local host and a chosen node for a chosen set of targets.
//! The actual transfer is delegated to an external mirroring tool; this
//! library only builds and orders the invocations.

pub mod command;
pub mod config;
pub mod keyed;
pub mod node;
pub mod order;
pub mod runner;
pub mod target;
pub mod util;

pub use command::{Direction, RsyncCommand, generate_commands, pull_command, push_command};
pub use config::{Config, ConfigFormat};
pub use node::Node;
pub use runner::next_command_index;
pub use target::Target;
pub use util::expand_user;
