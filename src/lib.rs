//! A codec for bencode, the self-delimiting serialization of torrent
//! metadata, and a mapper from decoded values to typed torrent metadata.

pub mod value;
pub mod encode;
pub mod grammar;
pub mod decode;
pub mod torrent;
pub mod laws;
