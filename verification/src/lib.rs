//! Wire codec and boundary-crossing support for sandboxed user-defined
//! functions that exchange typed values with a host database engine across a
//! linear-memory boundary.
//!
//! The crate provides:
//! - a byte-exact wire codec (`codec`) over a fixed universe of value types
//!   (`value`), with big-endian scalars and length-prefixed composites;
//! - the sized-pointer convention and a memory bridge (`bridge`) with an
//!   exactly-once release discipline for input buffers;
//! - a type classifier and shim-plan generator (`classify`) that decides, per
//!   parameter and return type, how a value crosses the boundary under an
//!   explicit ABI version;
//! - sample guest functions and their exported wrappers (`udf`).

pub mod bridge;
pub mod classify;
pub mod codec;
pub mod traits;
pub mod udf;
pub mod utf8;
pub mod value;
pub mod wire;
