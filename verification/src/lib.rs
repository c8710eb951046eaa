//! An in-memory virtual filesystem: a tree of named directories and files,
//! addressed by absolute or relative paths, with verified navigation, listing,
//! creation, removal, text search and content retrieval.
//!
//! `VirtualFS` is a session: a tree and a current directory, driven by path
//! strings.  `Directory` is the tree itself, driven by canonical segments.

pub mod error;
pub mod name;
pub mod text;
pub mod search;
pub mod path;
pub mod tree;
pub mod create;
pub mod remove;
pub mod read;
pub mod grep;
pub mod hits;
pub mod session;

pub use error::FsError;
pub use search::GrepMatch;
pub use session::VirtualFS;
pub use tree::{DeleteOption, Directory, Entry, FileNode, FileType};
