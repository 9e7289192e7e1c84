//! Undo-able removal of files: an interactive tree browser with soft delete
//! and grouped undo, and a log of the physical extents of removed objects
//! from which their bytes can be read back off the device.
pub mod browser;
pub mod lex;
pub mod navigate;
pub mod ops;
pub mod record;
pub mod recovery;
pub mod tree;

pub use browser::{BrowserError, DeletionGroup, Key, Mark, State};
pub use record::{
    decode_record, encode_record, parse_log, DecodeError, Extent, ObjectKind, ZombieFile,
};
pub use recovery::{recovery_plan, CopyStep, Copier, RecoverError};
pub use tree::{Children, Listed, Node, Tree, Visibility};
