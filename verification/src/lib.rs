//! Reading Tahoe-LAFS immutable shares: the share container, the URI
//! extension block ("UEB") inside it, the netstring-framed tagged hashes
//! that Tahoe computes over them, and the crypttext hash tree.
#![allow(non_camel_case_types)]

pub mod decimal;
pub mod hashing;
pub mod base32;
pub mod ueb;
pub mod share;
pub mod hash_tree;
