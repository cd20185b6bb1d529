//! Content-addressed object model and command logic of the `cntl` version
//! control system: the wire format of stored objects, object identities,
//! configuration precedence, working-tree comparison and the text that the
//! commands print.

pub mod cli;
pub mod commit;
pub mod config;
pub mod diff;
pub mod hex;
pub mod object;
pub mod order;
pub mod refs;
pub mod restore;
pub mod status;
pub mod tree;
pub mod wire;
