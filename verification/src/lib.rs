//! A binary serialization core.
//!
//! Typed values are turned into a compact, deterministic byte sequence and
//! rebuilt from it. Every length prefix in one call has the width that the
//! caller chose, all integers are little-endian, and every failure is
//! reported as a typed error.
//!
//! `format` states the byte layout over mathematical models of values and
//! types. `Value::encode` and `Value::decode` are proved to compute exactly
//! what it states, and `laws`, `soundness` and `truncation` prove what
//! holds of the layout as a whole.

pub mod bounds;
pub mod buffer;
pub mod cursor;
pub mod decode;
pub mod encode;
pub mod errors;
pub mod format;
pub mod laws;
pub mod le;
pub mod primitive;
pub mod same;
pub mod soundness;
pub mod text;
pub mod truncation;
pub mod value;

pub use bounds::{check_available, check_count, SizeType};
pub use buffer::EncodedBuffer;
pub use cursor::DecodeCursor;
pub use decode::{add_unique, decode_from, put_entry, text_value};
pub use encode::encode_into;
pub use errors::{BVExpectedSize, ByteVecError};
pub use primitive::{PrimKind, Primitive};
pub use value::{Kind, KindModel, Value, ValueModel};
