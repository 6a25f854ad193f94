//! A persistent, single-file, disk-backed key-value store organized as a
//! paged B-tree.
//!
//! The store keeps an ordered mapping from variable-length byte keys to
//! variable-length byte values.  Three layers cooperate:
//!
//! * the page manager ([`dal::DataAccessLayer`]): fixed-size pages over an
//!   in-memory file image, a meta record, and a free-page allocator;
//! * the node codec ([`node::Node::serialize`] / [`node::Node::deserialize`]):
//!   the on-page binary layout of B-tree nodes;
//! * the tree engine ([`collection::Collection`]): search, insertion,
//!   splitting and root promotion.
//!
//! The library works on a page image held in memory; reading the image from a
//! file and writing it back is left to the caller.

use vstd::prelude::*;

pub mod collection;
pub mod dal;
pub mod endian;
pub mod keys;
pub mod node;

verus! {

/// 64-bit index of a page within the file image; page `0` is the meta page.
pub type PageNum = u64;

/// Byte strings are the store's keys and values.
pub type ByteString = Vec<u8>;

/// What can go wrong inside the store.
#[derive(Clone, Copy, Debug, PartialEq, Eq, Structural)]
pub enum KvError {
    /// A page read or write failed: a page number lies outside the image, a
    /// page could not be allocated, or a record does not fit its page.
    IoError,
    /// A lookup reached a leaf without locating the key.
    NotFound,
    /// No prefix of a node both exceeds the minimum threshold and leaves an
    /// item behind, so the node cannot be split.
    NotSplittable,
    /// A decoder read an out-of-range offset or length.
    MalformedPage,
    /// A key or value is too long for the node codec or for the page size.
    ItemTooLarge,
}

} // verus!
