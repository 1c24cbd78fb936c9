//! An incremental, domain-separated binary Merkle commitment.
//!
//! Leaves are `(identifier bytes, status byte)` pairs.  Each pair is hashed
//! into a 32-byte digest with a leaf-specific domain tag; internal nodes are
//! hashed with a distinct node tag, so a leaf digest can never be mistaken
//! for an internal one.  The commitment accepts leaves one at a time, keeps
//! only one pending digest per tree level (a binary-counter carry scheme),
//! and finalizes to a single root digest over the ordered leaf sequence.

pub mod commit;
pub mod digest;
pub mod hash;
pub mod leaf;

pub use commit::CommitError;
pub use commit::Commitment;
pub use digest::Digest;
