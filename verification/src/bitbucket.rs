//! A register of at most one machine word of bits.

use vstd::prelude::*;
use vstd::arithmetic::div_mod::{lemma_basic_div, lemma_small_mod};
use vstd::arithmetic::power2::{lemma2_to64, lemma_pow2_pos, pow2};
use crate::bits::{
    append_low,
    bits_of,
    lemma_bits_of_concat,
    lemma_bits_of_split,
    lemma_concat_bound,
    lemma_pow2_le,
    lemma_quotient_bound,
    lemma_value_of_bits_of,
    lemma_word_range,
    low_bits,
    shift_down,
    word_width,
};
use crate::safe_sub::safe_sub;
use crate::BitCount;

verus! {

/// Up to one word of bits: the `count` low-order bits of `bits`. Of these the
/// most significant one entered first and leaves first.
#[derive(Clone, Copy, Debug, PartialEq, Eq, Structural)]
pub struct BitBucket {
    pub bits: usize,
    pub count: BitCount,
}

impl View for BitBucket {
    type V = Seq<bool>;

    /// The bits held, the first to leave first.
    open spec fn view(&self) -> Seq<bool> {
        bits_of(self.bits as nat, self.count as nat)
    }
}

impl BitBucket {
    /// At most a word of bits, and nothing set above them.
    pub open spec fn wf(&self) -> bool {
        &&& self.count <= word_width()
        &&& self.bits < pow2(self.count as nat)
    }

    /// A well-formed register is known by the bits it holds.
    pub proof fn lemma_view_injective(a: BitBucket, b: BitBucket)
        requires
            a.wf(),
            b.wf(),
            a@ == b@,
        ensures
            a == b,
    {
        lemma_value_of_bits_of(a.bits as nat, a.count as nat);
        lemma_value_of_bits_of(b.bits as nat, b.count as nat);
        lemma_small_mod(a.bits as nat, pow2(a.count as nat));
        lemma_small_mod(b.bits as nat, pow2(b.count as nat));
    }

    /// The empty register.
    pub fn new() -> (b: BitBucket)
        ensures
            b.wf(),
            b.bits == 0,
            b.count == 0,
            b@ == Seq::<bool>::empty(),
    {
        proof {
            lemma2_to64();
        }
        BitBucket { bits: 0, count: 0 }
    }

    /// Appends the bits of `right` to those of `self` and cuts the result
    /// after `limit` bits: the first part is `taken`, what is left over of
    /// `right` is the `remainder`.
    pub fn merge_left(&self, right: BitBucket, limit: BitCount) -> (r: (BitBucket, BitBucket))
        requires
            self.wf(),
            right.wf(),
            limit <= word_width(),
            self.count <= limit,
        ensures
            r.0.wf(),
            r.1.wf(),
            r.0.count == vstd::math::min(limit as int, self.count + right.count),
            r.1.count == self.count + right.count - r.0.count,
            r.0@ == (self@ + right@).take(r.0.count as int),
            r.1@ == (self@ + right@).skip(r.0.count as int),
            limit >= self.count + right.count ==> {
                &&& r.0.bits == self.bits * pow2(right.count as nat) + right.bits
                &&& r.1.bits == 0
            },
            limit < self.count + right.count ==> {
                &&& r.0.bits == self.bits * pow2((limit - self.count) as nat) + right.bits as nat
                    / pow2((self.count + right.count - limit) as nat)
                &&& r.1.bits == right.bits as nat % pow2((self.count + right.count - limit) as nat)
            },
    {
        proof {
            lemma_word_range();
        }
        let total = self.count + right.count;
        if limit >= total {
            proof {
                lemma_concat_bound(
                    self.bits as nat,
                    self.count as nat,
                    right.bits as nat,
                    right.count as nat,
                );
                lemma_pow2_le(total as nat, word_width());
                lemma_bits_of_concat(
                    self.bits as nat,
                    self.count as nat,
                    right.bits as nat,
                    right.count as nat,
                );
            }
            let taken = BitBucket {
                bits: append_low(self.bits, right.bits, right.count),
                count: total,
            };
            let remainder = BitBucket::new();
            proof {
                assert(taken@ =~= (self@ + right@).take(total as int));
                assert(remainder@ =~= (self@ + right@).skip(total as int));
            }
            (taken, remainder)
        } else {
            let tomove = safe_sub(limit, self.count);
            let keep = safe_sub(right.count, tomove);
            let high = shift_down(right.bits, keep);
            proof {
                lemma_quotient_bound(right.bits as nat, right.count as nat, keep as nat);
                lemma_concat_bound(self.bits as nat, self.count as nat, high as nat, tomove as nat);
                lemma_pow2_le(limit as nat, word_width());
                lemma_bits_of_concat(
                    self.bits as nat,
                    self.count as nat,
                    high as nat,
                    tomove as nat,
                );
                lemma_bits_of_split(right.bits as nat, right.count as nat, keep as nat);
                lemma_pow2_pos(keep as nat);
            }
            let taken = BitBucket { bits: append_low(self.bits, high, tomove), count: limit };
            let remainder = BitBucket { bits: low_bits(right.bits, keep), count: keep };
            proof {
                assert(right@ == bits_of(high as nat, tomove as nat) + remainder@);
                assert(taken@ =~= (self@ + right@).take(limit as int));
                assert(remainder@ =~= (self@ + right@).skip(limit as int));
            }
            (taken, remainder)
        }
    }

    /// Takes the first `count` bits out of the register.
    pub fn pop_bits(&mut self, count: BitCount) -> (r: BitBucket)
        requires
            old(self).wf(),
            count <= old(self).count,
        ensures
            r.wf(),
            final(self).wf(),
            r.count == count,
            final(self).count == old(self).count - count,
            r@ == old(self)@.take(count as int),
            final(self)@ == old(self)@.skip(count as int),
            r.bits == old(self).bits as nat / pow2((old(self).count - count) as nat),
            final(self).bits == old(self).bits as nat % pow2((old(self).count - count) as nat),
    {
        proof {
            lemma_pow2_pos(self.count as nat);
        }
        if count == 0 {
            proof {
                lemma_basic_div(self.bits as int, pow2(self.count as nat) as int);
                lemma_small_mod(self.bits as nat, pow2(self.count as nat));
                assert(self@.skip(0) =~= self@);
            }
            return BitBucket::new();
        }
        let keep = safe_sub(self.count, count);
        proof {
            lemma_quotient_bound(self.bits as nat, self.count as nat, keep as nat);
            lemma_bits_of_split(self.bits as nat, self.count as nat, keep as nat);
            lemma_pow2_pos(keep as nat);
        }
        let result = BitBucket { bits: shift_down(self.bits, keep), count: count };
        self.bits = low_bits(self.bits, keep);
        self.count = keep;
        proof {
            assert(result@ =~= old(self)@.take(count as int));
            assert(self@ =~= old(self)@.skip(count as int));
        }
        result
    }
}

} // verus!
