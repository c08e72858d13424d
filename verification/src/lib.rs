//! Bit-addressable views over ordinary memory.
//!
//! A buffer of unsigned integers is treated as a sequence of single bits.
//! Each bit has a semantic index inside its element; a bit order maps that
//! index to the physical position of the bit in the integer.
//!
//! The modules, leaves first: `store` holds the elements and `order` the bit
//! orders; `index` and `ptr` hold bit indices, bit pointers and bit spans;
//! `domain` splits a span into partial and whole elements; `mem` and `bulk`
//! read and write the bits of a buffer, `slice` and `slice_mut` are the
//! views that the bulk operations are methods of; `array` holds a buffer by
//! value, and `encode` packs lists of `bool` into elements.

pub mod array;
pub mod bulk;
pub mod domain;
pub mod encode;
pub mod index;
pub mod mem;
pub mod order;
pub mod ptr;
pub mod slice;
pub mod slice_mut;
pub mod store;

pub use crate::array::iter::IntoIter;
pub use crate::array::traits::{InnerError, TryFromBitSliceError};
pub use crate::array::BitArray;
pub use crate::bulk::BitOp;
pub use crate::domain::{Domain, PartialElement, WholeElements};
pub use crate::index::{BitError, BitIdx};
pub use crate::order::{BitOrder, Lsb0, Msb0};
pub use crate::ptr::{BitPtr, BitSpan};
pub use crate::slice::{BitSlice, Rank};
pub use crate::slice_mut::BitSliceMut;
pub use crate::store::{BitStore, Sharing};
