//! The fifo: a register that takes bits in, a queue of full words, and a
//! register that gives bits out.

use std::collections::VecDeque;
use vstd::prelude::*;
use vstd::arithmetic::div_mod::{lemma_fundamental_div_mod_converse, lemma_small_mod};
use vstd::arithmetic::power2::{lemma_pow2_pos, pow2};
use crate::bitbucket::BitBucket;
use crate::BitCount;
use crate::item::{limit_of, pop_budget, spec_opt_min, Poppable, Pushable};
use crate::bits::{
    bits_of,
    lemma_bits_of_mod,
    lemma_value_of_bits_of,
    lemma_word_range,
    lemma_words_bits_len,
    lemma_words_bits_push,
    low_bits,
    value_of,
    word_bits,
    word_width,
    words_bits,
};

verus! {

/// A first-in, first-out queue of bits.
pub struct BitFifo {
    queue: VecDeque<usize>,
    incoming: BitBucket,
    outgoing: BitBucket,
}

impl View for BitFifo {
    type V = Seq<bool>;

    /// The bits in the fifo, the next to leave first.
    open spec fn view(&self) -> Seq<bool> {
        self.outgoing_bits() + words_bits(self.words()) + self.incoming_bits()
    }
}

impl BitFifo {
    /// The bits of the register that gives bits out.
    pub closed spec fn outgoing_bits(&self) -> Seq<bool> {
        self.outgoing@
    }

    /// The full words between the two registers, the oldest first.
    pub closed spec fn words(&self) -> Seq<usize> {
        self.queue@
    }

    /// The bits of the register that takes bits in.
    pub closed spec fn incoming_bits(&self) -> Seq<bool> {
        self.incoming@
    }

    /// Both registers are well formed and hold less than a word, and the
    /// number of bits held fits a machine integer.
    pub closed spec fn wf(&self) -> bool {
        &&& self.incoming.wf()
        &&& self.outgoing.wf()
        &&& self.incoming.count < word_width()
        &&& self.outgoing.count < word_width()
        &&& self@.len() <= usize::MAX
    }

    /// How putting the run `added` in moves bits between the parts of the
    /// fifo. The register that gives bits out is not touched. The run joins
    /// what the register that takes bits in holds; where that makes a full
    /// word or more, the first word's worth of it goes to the back of the
    /// queue and the rest stays in the register.
    pub open spec fn spilled(before: BitFifo, after: BitFifo, added: Seq<bool>) -> bool {
        let joined = before.incoming_bits() + added;
        &&& after.outgoing_bits() == before.outgoing_bits()
        &&& if joined.len() < word_width() {
            &&& after.words() == before.words()
            &&& after.incoming_bits() == joined
        } else {
            &&& after.words().len() == before.words().len() + 1
            &&& after.words().drop_last() == before.words()
            &&& after.words().last() == value_of(joined.take(word_width() as int))
            &&& after.incoming_bits() == joined.skip(word_width() as int)
        }
    }

    /// How taking `count` bits, the run `taken`, moves bits between the
    /// parts of the fifo. Where the register that gives bits out holds
    /// enough, nothing else is touched. Where it does not, exactly one word
    /// leaves the queue, and `taken` is what the register held, followed by
    /// as much of the start of that word as was missing; the rest of the word
    /// stays in the register. Where the queue is empty, what the other
    /// register holds takes the place of the word.
    pub open spec fn refilled(before: BitFifo, after: BitFifo, count: nat, taken: Seq<bool>) -> bool {
        let held = before.outgoing_bits();
        if count <= held.len() {
            &&& after.words() == before.words()
            &&& after.incoming_bits() == before.incoming_bits()
            &&& taken == held.take(count as int)
            &&& after.outgoing_bits() == held.skip(count as int)
        } else if before.words().len() > 0 {
            let word = bits_of(before.words()[0] as nat, word_width());
            &&& after.words() == before.words().skip(1)
            &&& after.incoming_bits() == before.incoming_bits()
            &&& taken == held + word.take(count - held.len())
            &&& after.outgoing_bits() == word.skip(count - held.len())
        } else {
            let last = before.incoming_bits();
            &&& after.words() == before.words()
            &&& after.incoming_bits() == Seq::<bool>::empty()
            &&& taken == held + last.take(count - held.len())
            &&& after.outgoing_bits() == last.skip(count - held.len())
        }
    }

    /// In a well-formed fifo each register holds less than a word.
    pub proof fn lemma_wf_bounds(&self)
        requires
            self.wf(),
        ensures
            self.outgoing_bits().len() < word_width(),
            self.incoming_bits().len() < word_width(),
            self@.len() == self.outgoing_bits().len() + word_width() * self.words().len()
                + self.incoming_bits().len(),
            self@.len() <= usize::MAX,
    {
        lemma_words_bits_len(self.queue@);
    }

    /// Bits beyond a word's width are held as full words: as long as nothing
    /// waits in the register that gives bits out, the queue holds one word
    /// for each full word's worth of bits in the fifo.
    pub proof fn lemma_full_words_are_queued(&self)
        requires
            self.wf(),
            self.outgoing_bits().len() == 0,
        ensures
            self.words().len() == self@.len() / word_width(),
            self@.len() >= word_width() ==> self.words().len() >= 1,
    {
        self.lemma_wf_bounds();
        lemma_word_range();
        let w = word_width() as int;
        let q = self.words().len() as int;
        let r = self.incoming_bits().len() as int;
        assert(w * q == q * w) by (nonlinear_arith);
        lemma_fundamental_div_mod_converse(q * w + r, w, q, r);
    }

    /// The empty fifo.
    pub fn new() -> (fifo: BitFifo)
        ensures
            fifo.wf(),
            fifo@ == Seq::<bool>::empty(),
            fifo.outgoing_bits() == Seq::<bool>::empty(),
            fifo.words() == Seq::<usize>::empty(),
            fifo.incoming_bits() == Seq::<bool>::empty(),
    {
        let fifo = BitFifo {
            queue: VecDeque::new(),
            incoming: BitBucket::new(),
            outgoing: BitBucket::new(),
        };
        proof {
            lemma_word_range();
            assert(fifo@ =~= Seq::<bool>::empty());
        }
        fifo
    }

    /// The number of bits in the fifo.
    pub fn count(&self) -> (c: BitCount)
        requires
            self.wf(),
        ensures
            c == self@.len(),
    {
        proof {
            self.lemma_wf_bounds();
            assert(0 <= word_width() * self.queue@.len()) by (nonlinear_arith);
        }
        let queued = word_bits() * self.queue.len();
        self.incoming.count + self.outgoing.count + queued
    }

    /// Puts the bits of `source` in.
    pub fn push<T: Pushable>(&mut self, source: T)
        requires
            old(self).wf(),
            source.fits(),
            old(self)@.len() + source.bits().len() <= usize::MAX,
        ensures
            final(self).wf(),
            final(self)@ == old(self)@ + source.bits(),
            final(self).outgoing_bits() == old(self).outgoing_bits(),
    {
        self.push_opt_limit(source, None);
    }

    /// Takes a value of `T` out, made of as many bits as are there and as `T`
    /// holds. Returns it with the number of bits that it took.
    pub fn pop<T: Poppable>(&mut self) -> (r: (T, BitCount))
        requires
            old(self).wf(),
            T::poppable(),
        ensures
            final(self).wf(),
            r.1 == pop_budget(old(self)@.len(), T::capacity(), None),
            T::decodes_to(old(self)@.take(r.1 as int), r.0),
            final(self)@ == old(self)@.skip(r.1 as int),
    {
        self.pop_opt_limit(None)
    }

    /// Puts in what `limit` bits allow of `source`.
    pub fn push_limit<T: Pushable>(&mut self, source: T, limit: BitCount)
        requires
            old(self).wf(),
            source.fits(),
            old(self)@.len() + spec_opt_min(source.bits().len(), Some(limit as nat))
                <= usize::MAX,
        ensures
            final(self).wf(),
            final(self)@ == old(self)@ + source.bits_within(limit as nat),
            final(self).outgoing_bits() == old(self).outgoing_bits(),
    {
        self.push_opt_limit(source, Some(limit));
    }

    /// Takes a value of `T` out, made of as many bits as are there, as `T`
    /// holds and as `limit` allows. Returns it with the number of bits that
    /// it took.
    pub fn pop_limit<T: Poppable>(&mut self, limit: BitCount) -> (r: (T, BitCount))
        requires
            old(self).wf(),
            T::poppable(),
        ensures
            final(self).wf(),
            r.1 == pop_budget(old(self)@.len(), T::capacity(), Some(limit)),
            T::decodes_to(old(self)@.take(r.1 as int), r.0),
            final(self)@ == old(self)@.skip(r.1 as int),
    {
        self.pop_opt_limit(Some(limit))
    }

    fn push_opt_limit<T: Pushable>(&mut self, source: T, limit: Option<BitCount>)
        requires
            old(self).wf(),
            source.fits(),
            old(self)@.len() + spec_opt_min(source.bits().len(), limit_of(limit)) <= usize::MAX,
        ensures
            final(self).wf(),
            limit is None ==> final(self)@ == old(self)@ + source.bits(),
            limit matches Some(l) ==> final(self)@ == old(self)@ + source.bits_within(l as nat),
            final(self).outgoing_bits() == old(self).outgoing_bits(),
    {
        source.push_into(self, limit);
    }

    fn pop_opt_limit<T: Poppable>(&mut self, limit: Option<BitCount>) -> (r: (T, BitCount))
        requires
            old(self).wf(),
            T::poppable(),
        ensures
            final(self).wf(),
            r.1 == pop_budget(old(self)@.len(), T::capacity(), limit),
            T::decodes_to(old(self)@.take(r.1 as int), r.0),
            final(self)@ == old(self)@.skip(r.1 as int),
    {
        T::pop_from(self, limit)
    }

    /// Puts the `count` low-order bits of `bits` in, the most significant
    /// first.
    pub fn push_uint(&mut self, bits: usize, count: BitCount)
        requires
            old(self).wf(),
            count <= word_width(),
            old(self)@.len() + count <= usize::MAX,
        ensures
            final(self).wf(),
            final(self)@ == old(self)@ + bits_of(bits as nat, count as nat),
            Self::spilled(*old(self), *final(self), bits_of(bits as nat, count as nat)),
    {
        proof {
            lemma_pow2_pos(count as nat);
            lemma_bits_of_mod(bits as nat, count as nat);
        }
        self.push_bitbucket(BitBucket { bits: low_bits(bits, count), count: count });
    }

    /// Takes the first `count` bits out, as a number whose most significant
    /// bit is the first of them.
    pub fn pop_uint(&mut self, count: BitCount) -> (r: (usize, BitCount))
        requires
            old(self).wf(),
            count <= word_width(),
            count <= old(self)@.len(),
        ensures
            final(self).wf(),
            r.1 == count,
            r.0 == value_of(old(self)@.take(count as int)),
            r.0 < pow2(count as nat),
            bits_of(r.0 as nat, count as nat) == old(self)@.take(count as int),
            final(self)@ == old(self)@.skip(count as int),
            Self::refilled(*old(self), *final(self), count as nat, old(self)@.take(count as int)),
    {
        let bb = self.pop_bitbucket(count);
        proof {
            lemma_value_of_bits_of(bb.bits as nat, bb.count as nat);
            lemma_small_mod(bb.bits as nat, pow2(bb.count as nat));
        }
        (bb.bits, bb.count)
    }

    /// Puts the bits of `source` in. When the register that takes bits in
    /// reaches a full word, that word moves to the queue.
    pub fn push_bitbucket(&mut self, source: BitBucket)
        requires
            old(self).wf(),
            source.wf(),
            old(self)@.len() + source.count <= usize::MAX,
        ensures
            final(self).wf(),
            final(self)@ == old(self)@ + source@,
            Self::spilled(*old(self), *final(self), source@),
    {
        proof {
            self.lemma_wf_bounds();
            lemma_words_bits_len(self.queue@);
        }
        let (a, b) = self.incoming.merge_left(source, word_bits());
        if a.count == word_bits() {
            proof {
                lemma_words_bits_push(self.queue@, a.bits);
                lemma_words_bits_len(self.queue@.push(a.bits));
            }
            self.incoming = b;
            self.queue.push_back(a.bits);
            proof {
                lemma_value_of_bits_of(a.bits as nat, a.count as nat);
                lemma_small_mod(a.bits as nat, pow2(a.count as nat));
                let joined = old(self).incoming@ + source@;
                assert(joined =~= joined.take(word_width() as int) + joined.skip(
                    word_width() as int,
                ));
                assert(self.queue@.drop_last() =~= old(self).queue@);
                assert(self@ =~= old(self)@ + source@);
            }
        } else {
            self.incoming = a;
            proof {
                let joined = old(self).incoming@ + source@;
                assert(joined.take(a.count as int) =~= joined);
                assert(self@ =~= old(self)@ + source@);
            }
        }
    }

    /// Takes the first `count` bits out. Where the register that gives bits
    /// out holds too few, it is first refilled with the next word of the
    /// queue or, where there is none, with what the other register holds.
    pub fn pop_bitbucket(&mut self, count: BitCount) -> (r: BitBucket)
        requires
            old(self).wf(),
            count <= word_width(),
            count <= old(self)@.len(),
        ensures
            final(self).wf(),
            r.wf(),
            r.count == count,
            r@ == old(self)@.take(count as int),
            final(self)@ == old(self)@.skip(count as int),
            Self::refilled(*old(self), *final(self), count as nat, r@),
    {
        proof {
            self.lemma_wf_bounds();
        }
        if count <= self.outgoing.count {
            let r = self.outgoing.pop_bits(count);
            proof {
                assert(r@ =~= old(self)@.take(count as int));
                assert(self@ =~= old(self)@.skip(count as int));
            }
            r
        } else {
            let ghost before = self.outgoing@;
            let tmp = self.pop_internal_bitbucket();
            let (a, b) = self.outgoing.merge_left(tmp, count);
            self.outgoing = b;
            proof {
                let out_len = before.len() as int;
                lemma_words_bits_len(self.queue@);
                lemma_words_bits_len(old(self).queue@);
                let joined = before + tmp@;
                assert(old(self)@ =~= joined + words_bits(self.queue@) + self.incoming@);
                assert(a@ =~= old(self)@.take(count as int));
                assert(self@ =~= old(self)@.skip(count as int));
                assert(a@ =~= before + tmp@.take(count - out_len));
                assert(b@ =~= tmp@.skip(count - out_len));
            }
            a
        }
    }

    /// Takes the next full word from the queue or, where the queue is empty,
    /// all that the register that takes bits in holds.
    fn pop_internal_bitbucket(&mut self) -> (r: BitBucket)
        requires
            old(self).wf(),
        ensures
            final(self).wf(),
            r.wf(),
            final(self).outgoing == old(self).outgoing,
            old(self)@ == old(self).outgoing@ + r@ + words_bits(final(self).queue@) + final(self).incoming@,
            old(self).queue@.len() > 0 ==> {
                &&& r.bits == old(self).queue@[0]
                &&& r.count == word_width()
                &&& final(self).queue@ == old(self).queue@.skip(1)
                &&& final(self).incoming == old(self).incoming
            },
            old(self).queue@.len() == 0 ==> {
                &&& r == old(self).incoming
                &&& final(self).queue@ == old(self).queue@
                &&& final(self).incoming@ == Seq::<bool>::empty()
            },
    {
        proof {
            self.lemma_wf_bounds();
            lemma_word_range();
        }
        match self.queue.pop_front() {
            None => {
                let result = self.incoming;
                self.incoming = BitBucket::new();
                proof {
                    lemma_words_bits_len(self.queue@);
                    assert(old(self)@ =~= old(self).outgoing@ + result@ + words_bits(self.queue@)
                        + self.incoming@);
                    assert(self@ =~= old(self).outgoing@);
                }
                result
            },
            Some(bits) => {
                let result = BitBucket { bits: bits, count: word_bits() };
                proof {
                    lemma_words_bits_len(self.queue@);
                    lemma_words_bits_len(old(self).queue@);
                    assert(old(self)@ =~= old(self).outgoing@ + result@ + words_bits(self.queue@)
                        + self.incoming@);
                }
                result
            },
        }
    }
}

} // verus!
