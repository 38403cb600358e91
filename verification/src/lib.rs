//! Metadata and announce layer of a BitTorrent client: a bencode codec, the
//! metainfo model built on it, and the tracker announce request and response.

pub mod ascii;
pub mod decimal;
pub mod decode;
pub mod encode;
pub mod metainfo;
pub mod order;
pub mod primitives;
pub mod properties;
pub mod schema;
pub mod tracker;
pub mod value;
