//! A small binary encoding and decoding library with machine-checked contracts.
//!
//! Every codec turns a value into a canonical little-endian byte sequence and
//! reads it back from the front of a byte slice. What each codec writes and
//! accepts is stated over mathematical models, and the laws that connect the
//! two directions are proved once and for all.
pub mod bls;
pub mod codec;
pub mod collections;
pub mod composite;
pub mod derive;
pub mod digest;
pub mod cursor;
pub mod endian;
pub mod laws;
pub mod ordered;
pub mod primitive;
pub mod ristretto;
pub mod sequence;
pub mod shape;
pub mod shape_laws;
pub mod text;

pub use crate::codec::{Binary, RoundTrip};
pub use crate::cursor::parse_bytes;
pub use crate::derive::{derive_binary, Data, DeriveError};
pub use crate::shape::{Shape, Value, Width};
