//! Packing of fixed-width bit fields into compact byte buffers.
//!
//! An ordered list of field widths determines a layout: each field occupies
//! a contiguous run of bits inside a byte buffer whose length is the total
//! width rounded up to whole bytes. The crate provides the layout and offset
//! arithmetic, the bit-level read/write primitive, the construction-time
//! validation of a layout against its structural constraints, and checked
//! and unchecked accessors for each field of a packed buffer.

pub mod bits;
pub mod buffer;
pub mod error;
pub mod layout;
