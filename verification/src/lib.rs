//! Packing and unpacking of asar archives: a directory tree stored as one
//! binary blob, with a JSON directory header in front of the file data.

pub mod error;
pub mod archive;
pub mod config;
pub mod decimal;
pub mod entry;
pub mod inject;
pub mod json;
pub mod laws;
pub mod layout;
pub mod listing;
pub mod pack;
pub mod text;
pub mod unpack;
pub mod version;

pub use archive::Archive;
pub use entry::DirEntry;
pub use entry::Entry;
pub use entry::FileEntry;
pub use error::Error;
pub use json::Json;
pub use json::JsonMap;
pub use config::Config;
