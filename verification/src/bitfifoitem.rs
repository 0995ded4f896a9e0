//! Values that are pushed and popped by an explicit number of bits.

use vstd::prelude::*;
use crate::bitbucket::BitBucket;
use crate::bitfifo::BitFifo;
use crate::bits::{bits_of, word_bits, word_width};

verus! {

/// A value of which a stated number of bits is put into a fifo, and which is
/// read back from a stated number of bits.
pub trait BitFifoItem: Eq + Sized {
    /// The most bits that a value of the type takes.
    spec fn full_width() -> nat;

    /// The number of bits that this value takes.
    spec fn width(&self) -> nat;

    /// Whether the value can be pushed.
    spec fn valid(&self) -> bool;

    /// The `count` bits that stand for the value where it is cut to `count`
    /// bits.
    spec fn low_bits(&self, count: nat) -> Seq<bool>;

    /// Whether the run `bits` reads as `value`.
    spec fn reads_as(bits: Seq<bool>, value: Self) -> bool;

    /// Puts `count` bits of the value into `fifo`.
    fn push_into(&self, fifo: &mut BitFifo, count: usize)
        requires
            old(fifo).wf(),
            self.valid(),
            count <= self.width(),
            old(fifo)@.len() + count <= usize::MAX,
        ensures
            final(fifo).wf(),
            final(fifo)@ == old(fifo)@ + self.low_bits(count as nat),
    ;

    /// Takes `count` bits out of `fifo` and reads them as a value.
    fn pop_from(fifo: &mut BitFifo, count: usize) -> (r: Self)
        requires
            old(fifo).wf(),
            count <= Self::full_width(),
            count <= old(fifo)@.len(),
        ensures
            final(fifo).wf(),
            Self::reads_as(old(fifo)@.take(count as int), r),
            final(fifo)@ == old(fifo)@.skip(count as int),
    ;

    /// The number of bits that this value takes.
    fn bit_capacity(&self) -> (c: usize)
        ensures
            c == self.width(),
    ;

    /// The most bits that a value of the type takes.
    fn type_bit_capacity() -> (c: usize)
        ensures
            c == Self::full_width(),
    ;
}

/// The most bits that a value of `T` takes.
pub fn full_bit_capacity<T: BitFifoItem>() -> (c: usize)
    ensures
        c == T::full_width(),
{
    T::type_bit_capacity()
}

impl BitFifoItem for BitBucket {
    open spec fn full_width() -> nat {
        word_width()
    }

    open spec fn width(&self) -> nat {
        self.count as nat
    }

    open spec fn valid(&self) -> bool {
        self.wf()
    }

    open spec fn low_bits(&self, count: nat) -> Seq<bool> {
        bits_of(self.bits as nat, count)
    }

    open spec fn reads_as(bits: Seq<bool>, value: BitBucket) -> bool {
        value.wf() && value@ == bits
    }

    fn push_into(&self, fifo: &mut BitFifo, count: usize) {
        if count < self.count {
            fifo.push_uint(self.bits, count);
        } else {
            fifo.push_bitbucket(*self);
        }
    }

    fn pop_from(fifo: &mut BitFifo, count: usize) -> (r: BitBucket) {
        fifo.pop_bitbucket(count)
    }

    fn bit_capacity(&self) -> (c: usize) {
        self.count
    }

    fn type_bit_capacity() -> (c: usize) {
        word_bits()
    }
}

} // verus!
