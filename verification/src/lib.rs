//! A virtual file system: urls that lead through directories, servers and archives
//! to files, which are loaded by drivers that are mounted where they are met.
//!
//! The crate holds what is decided on the way. What is read from disk or from a
//! server, and the thread that does it, are left to the application: it asks a
//! [`loader::Loader`] what to do next, and hands it what came of it.
use vstd::prelude::*;

pub mod archive;
pub mod blocks;
pub mod driver;
pub mod ftp_fs;
pub mod loader;
pub mod local_fs;
pub mod path;
pub mod progress;
pub mod repeat;
pub mod resolve;
pub mod text;
pub mod tree;
pub mod types;
pub mod zip_fs;

pub use crate::driver::known_drivers;
pub use crate::driver::Driver;
pub use crate::ftp_fs::FtpFs;
pub use crate::loader::LoadState;
pub use crate::loader::Loader;
pub use crate::local_fs::LocalFs;
pub use crate::path::Component;
pub use crate::progress::Progress;
pub use crate::tree::Node;
pub use crate::tree::NodeType;
pub use crate::tree::VfsState;
pub use crate::types::found_or_not;
pub use crate::types::handle_error;
pub use crate::types::FilesDirs;
pub use crate::types::InternalError;
pub use crate::types::LoadStatus;
pub use crate::types::RecvMsg;
pub use crate::types::VfsError;
pub use crate::types::VfsType;
pub use crate::zip_fs::ZipFs;

verus! {

} // verus!
