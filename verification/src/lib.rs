//! Multiblock objects: structured, length-prefixed records whose large
//! payloads live outside the record as content-addressed blocks.
//!
//! A build finds the block references of a message, regroups them into a
//! tree, reconciles along the tree the lengths that the record states with
//! the lengths that it has once the blocks stand in it, cuts the record into
//! segments around the blocks, and names the whole by the digest of the
//! segments and blocks in turn.

pub mod error;
pub mod varint;
pub mod block;
pub mod message;
pub mod store;
pub mod locator;
pub mod tree;
pub mod lengths;
pub mod segment;
pub mod real_locator;
pub mod ident;
pub mod assemble;

// What is proved of the build as a whole.
pub mod real_object;
pub mod structure;
pub mod reconciled;
pub mod correctness;
pub mod real_paths;
pub mod success;
