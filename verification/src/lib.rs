//! A first-in, first-out queue of bits, packed into machine words.
//!
//! Values of any width, down to a single bit, are put in at one end and taken
//! out at the other in the order in which they came. Inside, the bits are held
//! in full machine words, with one partly filled register at each end.

use vstd::prelude::*;

pub mod bitbucket;
pub mod bitfifo;
pub mod bitfifoitem;
pub mod bits;
pub mod item;
pub mod laws;
pub mod safe_sub;

pub use bitfifo::BitFifo;
pub use item::{poppable_capacity, Poppable, Pushable};

verus! {

/// A number of bits.
pub type BitCount = usize;

} // verus!
