//! Records of files by size and digest: the line form and the tree form of
//! a collection, the conversion between the two, duplicates, figures, and
//! the digest of a torrent's metainfo.

pub mod bencode;
pub mod commands;
pub mod decryption;
pub mod dedup;
pub mod io;
pub mod links;
pub mod record;
pub mod roundtrip;
pub mod show;
pub mod summary;
pub mod text;
pub mod torrent;
pub mod tree;
pub mod units;
pub mod validate;
