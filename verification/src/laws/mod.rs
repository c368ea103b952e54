//! What reading and writing promise together: what an operation keeps, and what
//! a read gives back of a write.
pub mod append;
pub mod attributes;
pub mod clears;
pub mod data;
pub mod dirs;
pub mod formats;
pub mod inodes;
pub mod insert;
pub mod layout;
pub mod links;
pub mod mkdir;
pub mod moves;
pub mod names;
pub mod nodes;
pub mod others;
pub mod paths;
pub mod pins;
pub mod recovery;
pub mod renames;
pub mod requests;
pub mod rooms;
pub mod settle;
pub mod shares;
pub mod shrinks;
pub mod success;
pub mod takes;
pub mod tidies;
pub mod tree;
pub mod trim;
pub mod volume;
pub mod writes;
