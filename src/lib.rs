//! Content fingerprint of a directory tree: the MD5 digest of the
//! concatenated MD5 digests of its files, taken in canonical path order.
pub mod digest;
pub mod files;
pub mod logging;
pub mod run;
pub mod schedule;
