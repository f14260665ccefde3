//! A verified directory-tree materializer.
//!
//! A [`tree::DirNode`] describes a nested layout of directories.  The
//! library validates such a tree, walks it against an in-memory
//! directory store ([`memfs::MemFs`]) with a full functional contract,
//! and lists the directories to create, parents first, for a caller
//! that drives a real filesystem.

pub mod materialize;
pub mod memfs;
pub mod plan;
pub mod tree;

pub use memfs::CreateError;
pub use memfs::CreateErrorKind;
pub use memfs::MemFs;
pub use tree::DirEntry;
pub use tree::DirNode;
