//! Unpacking and repacking of the nested container formats found in a
//! Nintendo DS game's data files: segmented archives, bucket archives
//! (HPAK, PK2D, PKAC) and LZ-compressed streams, with a metadata tree that
//! records everything needed to rebuild the container bytes exactly.
pub mod error;
pub mod le;
pub mod file_type;
pub mod seq_util;
pub mod p2;
pub mod bucket;
pub mod containers;
pub mod text;
pub mod path;
pub mod meta;
pub mod tree;
pub mod lz;
pub mod extract;
pub mod pack;
pub mod round_trip;
