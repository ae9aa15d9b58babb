//! A byte-level codec for structured records, and a binder that lays the
//! encoded bytes out in a fixed-shape tensor of bytes and reads them back.
//!
//! - `value`: structured values, the schemas that describe their layout, and
//!   the mathematical models of both.
//! - `endian`: fixed-width big-endian integers.
//! - `codec`: the wire format, `encode` and `decode`.
//! - `tensor`: shape requests, tensors of bytes, `allocate_and_fill`,
//!   `read_bytes` and `round_trip_read`.
//! - `laws`: what holds of the format as a whole, with proofs.

pub mod codec;
pub mod endian;
pub mod laws;
pub mod tensor;
pub mod value;
