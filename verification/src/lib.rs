//! A typed, persistent key-value configuration store.
//!
//! The store keeps three independent namespaces (strings, numbers,
//! booleans), each a mapping from byte-string keys to values, together
//! with the path of the text file that backs it.  Numbers are carried as
//! their textual form, validated against the decimal/exponential grammar
//! of single-precision floats, so that the whole store is plain data.
//!
//! The text file format is one `key = value` line per entry, written in
//! lexicographically sorted order; reading tolerates malformed lines and
//! missing files.  File I/O itself stays with the caller: `save` renders
//! the bytes to write, and `load` takes the bytes that were read.

pub mod text;
pub mod num;
pub mod store;
pub mod codec;
pub mod laws;

pub use codec::load;
pub use num::Number;
pub use store::Config;
