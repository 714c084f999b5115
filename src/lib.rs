//! A key-value store for byte blobs addressed by URL path, with media-type
//! negotiation on read and write, and a mirror of its contents to a directory.
pub mod config;
pub mod handler;
pub mod ignore_filter;
pub mod media;
pub mod negotiation;
pub mod order;
pub mod paths;
pub mod storage;
pub mod sync;

pub use config::Config;
pub use ignore_filter::IgnoreFilter;
pub use negotiation::{NegotiatedPath, PathExtensions};
pub use paths::path_stem;
pub use storage::{DatabaseWrapper, StorageBackend, StorageFactory};
pub use sync::{collect_updates, FilesystemActions};
