//! A verified bencode codec with the torrent metainfo and tracker models
//! built on top of it: decoding, canonical (sorted-key) re-encoding, the
//! fixed-size chunk sub-formats, and the info-hash procedure.
pub mod value;
pub mod codec;
pub mod decode;
pub mod encode;
pub mod roundtrip;
pub mod chunks;
pub mod hashing;
pub mod metainfo;
pub mod tracker;
