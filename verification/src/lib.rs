//! A minimal content-addressable object store with a staging index.
//!
//! Content is hashed into immutable objects (blobs, trees, commits), an index
//! records which file paths map to which blob hashes, and objects are kept in
//! a sharded store keyed by their hash. Every function here is verified; the
//! file system is reached through the [`fs::FileSystem`] interface, which
//! [`memfs::MemFs`] implements in memory.

pub mod text;
pub mod digest;
pub mod order;
pub mod object;
pub mod fs;
pub mod memfs;
pub mod fsmap;
pub mod index;
pub mod codec;
pub mod parse;
pub mod canon;
pub mod object_parse;
pub mod runner;
pub mod runtime;
pub mod vtree;
pub mod storage;
pub mod vfs_wrapper;

pub use fs::FileSystem;
pub use fs::FsError;
pub use fsmap::FsMap;
pub use fsmap::FsMapError;
pub use index::Content;
pub use index::Entry;
pub use index::Index;
pub use memfs::MemFs;
pub use object::BlobHash;
pub use object::Object;
pub use object::ObjectMode;
pub use runner::Cmd;
pub use runner::FsMapedJson;
pub use runner::Runner;
pub use runtime::Cli;
pub use runtime::Runtime;
pub use runtime::SubCommand;
pub use storage::AbsStorage;
pub use storage::JsonStorage;
pub use storage::Storage;
pub use vfs_wrapper::FileWriter;
pub use vfs_wrapper::VfsWrapper;
pub use vtree::Data;
pub use vtree::VFS;
