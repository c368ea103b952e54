//! A verified ext4 driver core: on-disk formats, allocation, extents,
//! directories, the journal, and the file operations of a mounted volume.
pub mod allocator;
pub mod block_device;
pub mod bytes;
pub mod cache;
pub mod cli;
pub mod clock;
pub mod dir;
pub mod dir_write;
pub mod extent;
pub mod extent_insert;
pub mod extent_write;
pub mod file;
pub mod file_write;
pub mod fs_context;
pub mod fs_state;
pub mod fsp_impl;
pub mod group_desc;
pub mod inode;
pub mod inode_write;
pub mod journal;
pub mod laws;
pub mod superblock;
pub mod superblock_write;
pub mod text;
