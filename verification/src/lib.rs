//! Content-addressed file-tree model: fixed-length fingerprints of byte
//! content, digests that pair a fingerprint with the content's byte length,
//! directories of named file and subdirectory entries, a canonical binary
//! encoding of directories, and self-contained trees that bundle a root
//! directory with every descendant directory it references.

pub mod codec;
pub mod digest;
pub mod fixtures;
pub mod directory;
pub mod tree;

pub use digest::Digest;
pub use digest::Fingerprint;
