//! LionFS core: the rules, structures and formats of the file system, apart
//! from the devices that hold them.
pub mod btree;
pub mod bytes;
pub mod codec;
pub mod common;
pub mod error;
pub mod file;
pub mod fs;
pub mod gc;
pub mod guardian;
pub mod inode;
pub mod integrity;
pub mod io_engine;
pub mod media;
pub mod migrate;
pub mod mount;
pub mod ondisk;
pub mod ordmap;
pub mod posix;
pub mod security;
