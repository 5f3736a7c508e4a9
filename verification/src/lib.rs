//! A schema-driven codec between a compact binary wire format and a
//! structured value tree.
//!
//! A [`Layout`](layout::Layout) describes how the bytes of one encoded value
//! are structured: fixed-width little-endian integers, length-prefixed
//! strings, count-prefixed arrays, and unpadded concatenations of struct
//! fields. Given a layout, [`codec::decode`] turns bytes into a
//! [`Value`](value::Value) tree and [`codec::encode`] turns a value tree back
//! into bytes, bit for bit.

pub mod codec;
pub mod convert;
pub mod errors;
pub mod laws;
pub mod layout;
pub mod schema;
pub mod value;

pub use codec::{decode, encode};
pub use errors::CodecError;
pub use layout::{HasLayout, Layout, LayoutKind};
pub use schema::{derive_layout, TypeDesc};
pub use value::Value;
