//! Finds duplicate images in a directory tree.
//!
//! The library holds the verified core of the tool: deciding which file
//! paths are image candidates, fingerprinting file contents with MD5,
//! grouping paths that share a fingerprint, and planning which paths a
//! confirmed deletion removes. Directory walking, file reading and the
//! deletions themselves are I/O and live in the surrounding binary, which
//! feeds this library plain values.

pub mod deletion;
pub mod errors;
pub mod fingerprint;
pub mod grouper;
pub mod scanner;
pub mod seq_facts;

pub use deletion::{confirms_deletion, deletion_plan};
pub use errors::DedupError;
pub use fingerprint::{fingerprint_files, fingerprint_of_bytes, FileContent};
pub use grouper::{duplicate_groups, group_pairs, DuplicateGroup, PathFingerprint};
pub use scanner::{filter_candidates, is_image_file, validate_root};
