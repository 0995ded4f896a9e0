//! Values that can ride the fifo: how many bits a value takes, which bits
//! they are, and how a run of bits is read back as a value.

use vstd::prelude::*;
use crate::bitbucket::BitBucket;
use crate::bitfifo::BitFifo;
use crate::safe_sub::safe_sub;
use crate::BitCount;
use vstd::arithmetic::div_mod::lemma_small_mod;
use vstd::arithmetic::power2::{lemma2_to64, lemma2_to64_rest, pow2};
use vstd::pervasive::unreached;
use crate::bits::{
    bit_at,
    bits_of,
    lemma_pow2_le,
    lemma_value_of_bits_of,
    lemma_word_range,
    value_of,
    word_bits,
    word_width,
};

verus! {

/// A value that can be put into a fifo.
pub trait Pushable {
    /// The bits of the value, the first to enter first.
    spec fn bits(&self) -> Seq<bool>;

    /// The bits that a push under a limit of `limit` bits puts in.
    spec fn bits_within(&self, limit: nat) -> Seq<bool>;

    /// Whether the value can be pushed on this machine: each run of bits that
    /// it hands to the fifo at once fits a word.
    spec fn fits(&self) -> bool;

    /// A limit cuts what is pushed down to its own length, and a limit that
    /// the value does not reach changes nothing.
    proof fn lemma_bits_within(&self, limit: nat)
        ensures
            self.bits_within(limit).len() == vstd::math::min(
                self.bits().len() as int,
                limit as int,
            ),
            limit >= self.bits().len() ==> self.bits_within(limit) == self.bits(),
    ;

    /// Puts the value into `fifo`: all of it, or what `limit` allows.
    fn push_into(&self, fifo: &mut BitFifo, limit: Option<BitCount>)
        requires
            old(fifo).wf(),
            self.fits(),
            old(fifo)@.len() + spec_opt_min(self.bits().len(), limit_of(limit)) <= usize::MAX,
        ensures
            final(fifo).wf(),
            limit is None ==> final(fifo)@ == old(fifo)@ + self.bits(),
            limit matches Some(l) ==> final(fifo)@ == old(fifo)@ + self.bits_within(l as nat),
            final(fifo).outgoing_bits() == old(fifo).outgoing_bits(),
    ;

    /// The number of bits that the value takes.
    fn bit_count(&self) -> (c: BitCount)
        requires
            self.bits().len() <= usize::MAX,
        ensures
            c == self.bits().len(),
    ;
}

/// The smaller of `a` and `b`, where there is a `b`.
pub open spec fn spec_opt_min(a: nat, optb: Option<nat>) -> nat {
    match optb {
        None => a,
        Some(b) => if a <= b {
            a
        } else {
            b
        },
    }
}

/// The limit as a number of the model.
pub open spec fn limit_of(limit: Option<BitCount>) -> Option<nat> {
    match limit {
        None => None,
        Some(l) => Some(l as nat),
    }
}

/// The number of bits that a pop takes: all that are there, but no more than
/// the type holds, and no more than the limit.
pub open spec fn pop_budget(available: nat, capacity: Option<nat>, limit: Option<BitCount>) -> nat {
    spec_opt_min(spec_opt_min(available, capacity), limit_of(limit))
}

/// A type whose values can be taken out of a fifo.
pub trait Poppable: Sized {
    /// The width of the type in bits, where all its values have the same.
    spec fn capacity() -> Option<nat>;

    /// Whether the run `bits` reads as `value`.
    spec fn decodes_to(bits: Seq<bool>, value: Self) -> bool;

    /// Whether values of the type can be popped on this machine: each run of
    /// bits that it asks of the fifo at once fits a word.
    spec fn poppable() -> bool;

    /// Takes a value out of `fifo`, made of as many bits as are there, as the
    /// type holds and as `limit` allows. Returns it with the number of bits
    /// that it took.
    fn pop_from(fifo: &mut BitFifo, limit: Option<BitCount>) -> (r: (Self, BitCount))
        requires
            old(fifo).wf(),
            Self::poppable(),
        ensures
            final(fifo).wf(),
            r.1 == pop_budget(old(fifo)@.len(), Self::capacity(), limit),
            Self::decodes_to(old(fifo)@.take(r.1 as int), r.0),
            final(fifo)@ == old(fifo)@.skip(r.1 as int),
    ;

    /// The width of the type in bits, where all its values have the same.
    fn bit_capacity() -> (c: Option<BitCount>)
        ensures
            limit_of(c) == Self::capacity(),
    ;
}

/// The width in bits of the values of `T`, where it is fixed.
pub fn poppable_capacity<T: Poppable>() -> (c: Option<BitCount>)
    ensures
        limit_of(c) == T::capacity(),
{
    T::bit_capacity()
}

/// The smaller of `a` and `optb`, where there is an `optb`.
pub fn opt_min(a: usize, optb: Option<usize>) -> (m: usize)
    ensures
        m == spec_opt_min(a as nat, limit_of(optb)),
{
    match optb {
        None => a,
        Some(b) => if a <= b {
            a
        } else {
            b
        },
    }
}

/// The number of bits that pushing `item` under `limit` puts in.
pub fn get_push_limit<T: Pushable>(item: &T, limit: Option<BitCount>) -> (c: BitCount)
    requires
        item.bits().len() <= usize::MAX,
    ensures
        c == spec_opt_min(item.bits().len(), limit_of(limit)),
{
    opt_min(item.bit_count(), limit)
}

/// The number of bits that popping a `T` from `fifo` under `limit` takes.
pub fn get_pop_limit<T: Poppable>(fifo: &BitFifo, limit: Option<BitCount>) -> (c: BitCount)
    requires
        fifo.wf(),
    ensures
        c == pop_budget(fifo@.len(), T::capacity(), limit),
{
    opt_min(opt_min(fifo.count(), poppable_capacity::<T>()), limit)
}

/// A bit pattern that is no value of the type asked for.
#[derive(Clone, Copy, Debug, PartialEq, Eq, Structural)]
pub enum DecodeError {
    /// The pattern is neither 0 nor 1, so it is no boolean.
    InvalidBoolean { bits: usize },
}

/// Reads a bit pattern as a boolean: 0 is `false`, 1 is `true`, and nothing
/// else is a boolean.
pub fn decode_bool(bits: usize) -> (r: Result<bool, DecodeError>)
    ensures
        bits == 0 ==> r == Ok::<bool, DecodeError>(false),
        bits == 1 ==> r == Ok::<bool, DecodeError>(true),
        bits > 1 ==> r == Err::<bool, DecodeError>(DecodeError::InvalidBoolean { bits }),
{
    if bits == 0 {
        Ok(false)
    } else if bits == 1 {
        Ok(true)
    } else {
        Err(DecodeError::InvalidBoolean { bits })
    }
}

/// The bits of the items of a sequence, one item after the other.
pub open spec fn seq_bits<T: Pushable>(items: Seq<T>) -> Seq<bool>
    decreases items.len(),
{
    if items.len() == 0 {
        Seq::empty()
    } else {
        items[0].bits() + seq_bits(items.skip(1))
    }
}

/// The bits that are pushed of the items of a sequence under `limit`: each
/// item in turn is pushed under what the items before it left of the limit.
pub open spec fn seq_bits_within<T: Pushable>(items: Seq<T>, limit: nat) -> Seq<bool>
    decreases items.len(),
{
    if items.len() == 0 || limit == 0 {
        Seq::empty()
    } else {
        let head = items[0].bits_within(limit);
        head + seq_bits_within(items.skip(1), (limit - head.len()) as nat)
    }
}

/// Every item can be pushed, and its bits can be counted.
pub open spec fn seq_fits<T: Pushable>(items: Seq<T>) -> bool {
    forall|i: int|
        0 <= i < items.len() ==> (#[trigger] items[i]).fits() && items[i].bits().len()
            <= usize::MAX
}

/// What a sequence pushes under a limit is as long as the limit or, if that
/// is less, as all its bits; and it is all its bits where the limit covers
/// them.
pub proof fn lemma_seq_bits_within<T: Pushable>(items: Seq<T>, limit: nat)
    ensures
        seq_bits_within(items, limit).len() == vstd::math::min(
            seq_bits(items).len() as int,
            limit as int,
        ),
        limit >= seq_bits(items).len() ==> seq_bits_within(items, limit) == seq_bits(items),
    decreases items.len(),
{
    if items.len() == 0 {
    } else if limit == 0 {
        assert(seq_bits(items).len() == 0 ==> seq_bits(items) =~= Seq::<bool>::empty());
    } else {
        let head = items[0].bits_within(limit);
        items[0].lemma_bits_within(limit);
        lemma_seq_bits_within(items.skip(1), (limit - head.len()) as nat);
    }
}

/// Whether no more may be pushed or popped under what is left of a limit.
fn limit_reached(remaining: Option<BitCount>) -> (b: bool)
    ensures
        b == (remaining == Some(0usize)),
{
    match remaining {
        None => false,
        Some(c) => c == 0,
    }
}

/// What is left of a limit after `used` bits.
fn limit_less(remaining: Option<BitCount>, used: BitCount) -> (r: Option<BitCount>)
    requires
        remaining matches Some(l) ==> used <= l,
    ensures
        remaining is None ==> r is None,
        remaining matches Some(l) ==> r == Some((l - used) as usize),
{
    match remaining {
        None => None,
        Some(l) => Some(safe_sub(l, used)),
    }
}

/// A slice is pushed item by item, the first item first.
impl<'a, T: Pushable> Pushable for &'a [T] {
    open spec fn bits(&self) -> Seq<bool> {
        seq_bits(self@)
    }

    open spec fn bits_within(&self, limit: nat) -> Seq<bool> {
        seq_bits_within(self@, limit)
    }

    open spec fn fits(&self) -> bool {
        seq_fits(self@)
    }

    proof fn lemma_bits_within(&self, limit: nat) {
        lemma_seq_bits_within(self@, limit);
    }

    fn push_into(&self, fifo: &mut BitFifo, limit: Option<BitCount>) {
        let mut remaining = limit;
        let mut i: usize = 0;
        let ghost goal = match limit {
            None => seq_bits(self@),
            Some(l) => seq_bits_within(self@, l as nat),
        };
        let ghost mut done = Seq::<bool>::empty();
        proof {
            if let Some(l) = limit {
                lemma_seq_bits_within(self@, l as nat);
            }
            assert(self@.skip(0) =~= self@);
            assert(fifo@ =~= old(fifo)@ + done);
        }
        while i < self.len() && !limit_reached(remaining)
            invariant
                0 <= i <= self@.len(),
                fifo.wf(),
                seq_fits(self@),
                fifo@ == old(fifo)@ + done,
                fifo.outgoing_bits() == old(fifo).outgoing_bits(),
                old(fifo)@.len() + goal.len() <= usize::MAX,
                limit is None <==> remaining is None,
                remaining is None ==> goal == done + seq_bits(self@.skip(i as int)),
                remaining matches Some(l) ==> goal == done + seq_bits_within(
                    self@.skip(i as int),
                    l as nat,
                ),
            decreases self@.len() - i,
        {
            let x = &self[i];
            let ghost rest = self@.skip(i as int);
            proof {
                assert(rest[0] == *x);
                assert(rest.skip(1) =~= self@.skip(i + 1));
                match remaining {
                    None => {
                        x.lemma_bits_within(x.bits().len());
                    },
                    Some(l) => {
                        x.lemma_bits_within(l as nat);
                        x.lemma_bits_within(x.bits().len());
                    },
                }
            }
            let sublimit = get_push_limit(x, remaining);
            x.push_into(fifo, Some(sublimit));
            remaining = limit_less(remaining, sublimit);
            proof {
                done = done + x.bits_within(sublimit as nat);
                assert(fifo@ =~= old(fifo)@ + done);
            }
            i += 1;
        }
        proof {
            assert(goal =~= done);
        }
    }

    fn bit_count(&self) -> (c: BitCount) {
        let mut sum: usize = 0;
        let mut i: usize = 0;
        proof {
            assert(self@.skip(0) =~= self@);
        }
        while i < self.len()
            invariant
                0 <= i <= self@.len(),
                seq_bits(self@).len() <= usize::MAX,
                sum + seq_bits(self@.skip(i as int)).len() == seq_bits(self@).len(),
            decreases self@.len() - i,
        {
            let x = &self[i];
            proof {
                let rest = self@.skip(i as int);
                assert(rest[0] == *x);
                assert(rest.skip(1) =~= self@.skip(i + 1));
            }
            sum = sum + x.bit_count();
            i += 1;
        }
        sum
    }
}

/// Whether the run `bits`, cut into pieces of the width of `T` (the last one
/// may be shorter; where `T` has no fixed width, it is one piece), reads as
/// `values`, piece by piece.
pub open spec fn decodes_each<T: Poppable>(bits: Seq<bool>, values: Seq<T>) -> bool
    decreases values.len(),
{
    if values.len() == 0 {
        bits.len() == 0
    } else {
        let n = spec_opt_min(bits.len(), T::capacity());
        &&& bits.len() > 0
        &&& T::decodes_to(bits.take(n as int), values[0])
        &&& decodes_each(bits.skip(n as int), values.skip(1))
    }
}

/// A vector is popped item by item until the fifo is empty or the limit is
/// used up.
impl<T: Poppable> Poppable for Vec<T> {
    open spec fn capacity() -> Option<nat> {
        None
    }

    open spec fn decodes_to(bits: Seq<bool>, value: Vec<T>) -> bool {
        decodes_each(bits, value@)
    }

    /// Items of no width would never use up the bits, so they are left out.
    open spec fn poppable() -> bool {
        T::poppable() && T::capacity() != Some(0nat)
    }

    fn pop_from(fifo: &mut BitFifo, limit: Option<BitCount>) -> (r: (Vec<T>, BitCount)) {
        let mut remaining = limit;
        let mut count: usize = 0;
        let mut result: Vec<T> = Vec::new();
        let ghost budget = pop_budget(old(fifo)@.len(), None, limit);
        let ghost goal = old(fifo)@.take(budget as int);
        proof {
            fifo.lemma_wf_bounds();
            assert(fifo@ =~= old(fifo)@.skip(0));
            assert(goal.skip(0) =~= goal);
            assert forall|tail: Seq<T>| #[trigger]
                decodes_each(goal.skip(0), tail) implies decodes_each(goal, result@ + tail) by {
                assert(result@ + tail =~= tail);
            }
        }
        while fifo.count() > 0 && !limit_reached(remaining)
            invariant
                fifo.wf(),
                T::poppable(),
                T::capacity() != Some(0nat),
                budget == pop_budget(old(fifo)@.len(), None, limit),
                goal == old(fifo)@.take(budget as int),
                count <= budget <= old(fifo)@.len() <= usize::MAX,
                fifo@ == old(fifo)@.skip(count as int),
                limit is None <==> remaining is None,
                remaining matches Some(l) ==> limit matches Some(all) && l + count == all,
                forall|tail: Seq<T>| #[trigger]
                    decodes_each(goal.skip(count as int), tail) ==> decodes_each(
                        goal,
                        result@ + tail,
                    ),
            decreases old(fifo)@.len() - count,
        {
            let ghost before = result@;
            let ghost taken = count;
            let sublimit = get_pop_limit::<T>(fifo, remaining);
            let (elem, subcount) = T::pop_from(fifo, Some(sublimit));
            result.push(elem);
            remaining = limit_less(remaining, subcount);
            count += subcount;
            proof {
                let rest = goal.skip(taken as int);
                assert(rest.take(subcount as int) =~= old(fifo)@.skip(taken as int).take(
                    subcount as int,
                ));
                assert(rest.skip(subcount as int) =~= goal.skip(count as int));
                assert(fifo@ =~= old(fifo)@.skip(count as int));
                assert forall|tail: Seq<T>| #[trigger]
                    decodes_each(goal.skip(count as int), tail) implies decodes_each(
                    goal,
                    result@ + tail,
                ) by {
                    let longer = seq![elem] + tail;
                    assert(longer.skip(1) =~= tail);
                    assert(longer[0] == elem);
                    assert(decodes_each(rest, longer));
                    assert(before + longer =~= result@ + tail);
                }
            }
        }
        proof {
            assert(count == budget);
            assert(decodes_each(goal.skip(count as int), Seq::<T>::empty()));
            assert(result@ + Seq::<T>::empty() =~= result@);
        }
        (result, count)
    }

    fn bit_capacity() -> (c: Option<BitCount>) {
        None
    }
}

/// A register is pushed as it is; under a limit, its low-order bits are.
impl Pushable for BitBucket {
    open spec fn bits(&self) -> Seq<bool> {
        self@
    }

    open spec fn bits_within(&self, limit: nat) -> Seq<bool> {
        bits_of(self.bits as nat, spec_opt_min(self.count as nat, Some(limit)))
    }

    open spec fn fits(&self) -> bool {
        self.wf()
    }

    proof fn lemma_bits_within(&self, limit: nat) {
    }

    fn push_into(&self, fifo: &mut BitFifo, limit: Option<BitCount>)
        ensures
            BitFifo::spilled(
                *old(fifo),
                *final(fifo),
                bits_of(self.bits as nat, spec_opt_min(self.count as nat, limit_of(limit))),
            ),
    {
        let count = opt_min(self.bit_count(), limit);
        if count < self.count {
            fifo.push_uint(self.bits, count);
        } else {
            fifo.push_bitbucket(*self);
        }
    }

    fn bit_count(&self) -> (c: BitCount) {
        self.count
    }
}

/// A register takes up to a word of bits as they are.
impl Poppable for BitBucket {
    open spec fn capacity() -> Option<nat> {
        Some(word_width())
    }

    open spec fn decodes_to(bits: Seq<bool>, value: BitBucket) -> bool {
        value.wf() && value@ == bits
    }

    open spec fn poppable() -> bool {
        true
    }

    fn pop_from(fifo: &mut BitFifo, limit: Option<BitCount>) -> (r: (BitBucket, BitCount))
        ensures
            BitFifo::refilled(
                *old(fifo),
                *final(fifo),
                r.1 as nat,
                old(fifo)@.take(r.1 as int),
            ),
    {
        let count = opt_min(opt_min(fifo.count(), Self::bit_capacity()), limit);
        let bucket = fifo.pop_bitbucket(count);
        (bucket, count)
    }

    fn bit_capacity() -> (c: Option<BitCount>) {
        Some(word_bits())
    }
}

/// A boolean is one bit: 1 for `true`, 0 for `false`.
impl Pushable for bool {
    open spec fn bits(&self) -> Seq<bool> {
        seq![*self]
    }

    open spec fn bits_within(&self, limit: nat) -> Seq<bool> {
        if limit == 0 {
            Seq::empty()
        } else {
            seq![*self]
        }
    }

    open spec fn fits(&self) -> bool {
        true
    }

    proof fn lemma_bits_within(&self, limit: nat) {
    }

    fn push_into(&self, fifo: &mut BitFifo, limit: Option<BitCount>)
        ensures
            BitFifo::spilled(
                *old(fifo),
                *final(fifo),
                self.bits_within(spec_opt_min(1, limit_of(limit))),
            ),
    {
        let bits: usize = if *self {
            1
        } else {
            0
        };
        let count = opt_min(self.bit_count(), limit);
        proof {
            lemma_word_range();
            lemma2_to64();
            assert(bit_at(bits as nat, 0) == *self);
            assert(bits_of(bits as nat, 1) =~= seq![*self]);
            assert(bits_of(bits as nat, 0) =~= Seq::<bool>::empty());
        }
        fifo.push_uint(bits, count);
    }

    fn bit_count(&self) -> (c: BitCount) {
        1
    }
}

impl Poppable for bool {
    open spec fn capacity() -> Option<nat> {
        Some(1)
    }

    open spec fn decodes_to(bits: Seq<bool>, value: bool) -> bool {
        ||| value_of(bits) == 0 && !value
        ||| value_of(bits) == 1 && value
    }

    open spec fn poppable() -> bool {
        true
    }

    /// At most one bit is taken, so what is read is a boolean.
    fn pop_from(fifo: &mut BitFifo, limit: Option<BitCount>) -> (r: (bool, BitCount))
        ensures
            BitFifo::refilled(
                *old(fifo),
                *final(fifo),
                r.1 as nat,
                old(fifo)@.take(r.1 as int),
            ),
    {
        let c = opt_min(opt_min(fifo.count(), Self::bit_capacity()), limit);
        proof {
            lemma_word_range();
            lemma_pow2_le(c as nat, 1);
            lemma2_to64();
        }
        let (bits, count) = fifo.pop_uint(c);
        match decode_bool(bits) {
            Ok(value) => (value, count),
            Err(_) => unreached(),
        }
    }

    fn bit_capacity() -> (c: Option<BitCount>) {
        Some(1)
    }
}

/// An unsigned integer of a machine word is pushed with its most significant bit
/// first; under a limit, its low-order bits are.
impl Pushable for usize {
    open spec fn bits(&self) -> Seq<bool> {
        bits_of(*self as nat, word_width())
    }

    open spec fn bits_within(&self, limit: nat) -> Seq<bool> {
        bits_of(*self as nat, spec_opt_min(word_width(), Some(limit)))
    }

    open spec fn fits(&self) -> bool {
        true
    }

    proof fn lemma_bits_within(&self, limit: nat) {
    }

    fn push_into(&self, fifo: &mut BitFifo, limit: Option<BitCount>)
        ensures
            BitFifo::spilled(
                *old(fifo),
                *final(fifo),
                bits_of(*self as nat, spec_opt_min(word_width(), limit_of(limit))),
            ),
    {
        proof {
            lemma_word_range();
        }
        fifo.push_uint(*self, opt_min(self.bit_count(), limit));
    }

    fn bit_count(&self) -> (c: BitCount) {
        word_bits()
    }
}

/// The bits taken are the low-order bits of the integer, the first of them
/// the most significant.
impl Poppable for usize {
    open spec fn capacity() -> Option<nat> {
        Some(word_width())
    }

    open spec fn decodes_to(bits: Seq<bool>, value: usize) -> bool {
        value == value_of(bits)
    }

    open spec fn poppable() -> bool {
        true
    }

    fn pop_from(fifo: &mut BitFifo, limit: Option<BitCount>) -> (r: (usize, BitCount))
        ensures
            BitFifo::refilled(
                *old(fifo),
                *final(fifo),
                r.1 as nat,
                old(fifo)@.take(r.1 as int),
            ),
    {
        let count = opt_min(opt_min(fifo.count(), Self::bit_capacity()), limit);
        proof {
            lemma_word_range();
            lemma_pow2_le(count as nat, word_width());
            lemma2_to64();
            lemma2_to64_rest();
        }
        let (bits, count) = fifo.pop_uint(count);
        (bits, count)
    }

    fn bit_capacity() -> (c: Option<BitCount>) {
        Some(word_bits())
    }
}

/// An unsigned integer of 64 bits is pushed with its most significant bit
/// first; under a limit, its low-order bits are.
impl Pushable for u64 {
    open spec fn bits(&self) -> Seq<bool> {
        bits_of(*self as nat, 64)
    }

    open spec fn bits_within(&self, limit: nat) -> Seq<bool> {
        bits_of(*self as nat, spec_opt_min(64, Some(limit)))
    }

    /// A value of 64 bits fits a word only where words are as wide.
    open spec fn fits(&self) -> bool {
        64 <= word_width()
    }

    proof fn lemma_bits_within(&self, limit: nat) {
    }

    fn push_into(&self, fifo: &mut BitFifo, limit: Option<BitCount>)
        ensures
            BitFifo::spilled(
                *old(fifo),
                *final(fifo),
                bits_of(*self as nat, spec_opt_min(64, limit_of(limit))),
            ),
    {
        proof {
            lemma_word_range();
        }
        fifo.push_uint(*self as usize, opt_min(self.bit_count(), limit));
    }

    fn bit_count(&self) -> (c: BitCount) {
        64
    }
}

/// The bits taken are the low-order bits of the integer, the first of them
/// the most significant.
impl Poppable for u64 {
    open spec fn capacity() -> Option<nat> {
        Some(64)
    }

    open spec fn decodes_to(bits: Seq<bool>, value: u64) -> bool {
        value == value_of(bits)
    }

    /// A value of 64 bits fits a word only where words are as wide.
    open spec fn poppable() -> bool {
        64 <= word_width()
    }

    fn pop_from(fifo: &mut BitFifo, limit: Option<BitCount>) -> (r: (u64, BitCount))
        ensures
            BitFifo::refilled(
                *old(fifo),
                *final(fifo),
                r.1 as nat,
                old(fifo)@.take(r.1 as int),
            ),
    {
        let count = opt_min(opt_min(fifo.count(), Self::bit_capacity()), limit);
        proof {
            lemma_word_range();
            lemma_pow2_le(count as nat, 64);
            lemma2_to64();
            lemma2_to64_rest();
        }
        let (bits, count) = fifo.pop_uint(count);
        (bits as u64, count)
    }

    fn bit_capacity() -> (c: Option<BitCount>) {
        Some(64)
    }
}

/// An unsigned integer of 32 bits is pushed with its most significant bit
/// first; under a limit, its low-order bits are.
impl Pushable for u32 {
    open spec fn bits(&self) -> Seq<bool> {
        bits_of(*self as nat, 32)
    }

    open spec fn bits_within(&self, limit: nat) -> Seq<bool> {
        bits_of(*self as nat, spec_opt_min(32, Some(limit)))
    }

    open spec fn fits(&self) -> bool {
        32 <= word_width()
    }

    proof fn lemma_bits_within(&self, limit: nat) {
    }

    fn push_into(&self, fifo: &mut BitFifo, limit: Option<BitCount>)
        ensures
            BitFifo::spilled(
                *old(fifo),
                *final(fifo),
                bits_of(*self as nat, spec_opt_min(32, limit_of(limit))),
            ),
    {
        proof {
            lemma_word_range();
        }
        fifo.push_uint(*self as usize, opt_min(self.bit_count(), limit));
    }

    fn bit_count(&self) -> (c: BitCount) {
        32
    }
}

/// The bits taken are the low-order bits of the integer, the first of them
/// the most significant.
impl Poppable for u32 {
    open spec fn capacity() -> Option<nat> {
        Some(32)
    }

    open spec fn decodes_to(bits: Seq<bool>, value: u32) -> bool {
        value == value_of(bits)
    }

    open spec fn poppable() -> bool {
        32 <= word_width()
    }

    fn pop_from(fifo: &mut BitFifo, limit: Option<BitCount>) -> (r: (u32, BitCount))
        ensures
            BitFifo::refilled(
                *old(fifo),
                *final(fifo),
                r.1 as nat,
                old(fifo)@.take(r.1 as int),
            ),
    {
        let count = opt_min(opt_min(fifo.count(), Self::bit_capacity()), limit);
        proof {
            lemma_word_range();
            lemma_pow2_le(count as nat, 32);
            lemma2_to64();
            lemma2_to64_rest();
        }
        let (bits, count) = fifo.pop_uint(count);
        (bits as u32, count)
    }

    fn bit_capacity() -> (c: Option<BitCount>) {
        Some(32)
    }
}

/// An unsigned integer of 16 bits is pushed with its most significant bit
/// first; under a limit, its low-order bits are.
impl Pushable for u16 {
    open spec fn bits(&self) -> Seq<bool> {
        bits_of(*self as nat, 16)
    }

    open spec fn bits_within(&self, limit: nat) -> Seq<bool> {
        bits_of(*self as nat, spec_opt_min(16, Some(limit)))
    }

    open spec fn fits(&self) -> bool {
        16 <= word_width()
    }

    proof fn lemma_bits_within(&self, limit: nat) {
    }

    fn push_into(&self, fifo: &mut BitFifo, limit: Option<BitCount>)
        ensures
            BitFifo::spilled(
                *old(fifo),
                *final(fifo),
                bits_of(*self as nat, spec_opt_min(16, limit_of(limit))),
            ),
    {
        proof {
            lemma_word_range();
        }
        fifo.push_uint(*self as usize, opt_min(self.bit_count(), limit));
    }

    fn bit_count(&self) -> (c: BitCount) {
        16
    }
}

/// The bits taken are the low-order bits of the integer, the first of them
/// the most significant.
impl Poppable for u16 {
    open spec fn capacity() -> Option<nat> {
        Some(16)
    }

    open spec fn decodes_to(bits: Seq<bool>, value: u16) -> bool {
        value == value_of(bits)
    }

    open spec fn poppable() -> bool {
        16 <= word_width()
    }

    fn pop_from(fifo: &mut BitFifo, limit: Option<BitCount>) -> (r: (u16, BitCount))
        ensures
            BitFifo::refilled(
                *old(fifo),
                *final(fifo),
                r.1 as nat,
                old(fifo)@.take(r.1 as int),
            ),
    {
        let count = opt_min(opt_min(fifo.count(), Self::bit_capacity()), limit);
        proof {
            lemma_word_range();
            lemma_pow2_le(count as nat, 16);
            lemma2_to64();
            lemma2_to64_rest();
        }
        let (bits, count) = fifo.pop_uint(count);
        (bits as u16, count)
    }

    fn bit_capacity() -> (c: Option<BitCount>) {
        Some(16)
    }
}

/// An unsigned integer of 8 bits is pushed with its most significant bit
/// first; under a limit, its low-order bits are.
impl Pushable for u8 {
    open spec fn bits(&self) -> Seq<bool> {
        bits_of(*self as nat, 8)
    }

    open spec fn bits_within(&self, limit: nat) -> Seq<bool> {
        bits_of(*self as nat, spec_opt_min(8, Some(limit)))
    }

    open spec fn fits(&self) -> bool {
        8 <= word_width()
    }

    proof fn lemma_bits_within(&self, limit: nat) {
    }

    fn push_into(&self, fifo: &mut BitFifo, limit: Option<BitCount>)
        ensures
            BitFifo::spilled(
                *old(fifo),
                *final(fifo),
                bits_of(*self as nat, spec_opt_min(8, limit_of(limit))),
            ),
    {
        proof {
            lemma_word_range();
        }
        fifo.push_uint(*self as usize, opt_min(self.bit_count(), limit));
    }

    fn bit_count(&self) -> (c: BitCount) {
        8
    }
}

/// The bits taken are the low-order bits of the integer, the first of them
/// the most significant.
impl Poppable for u8 {
    open spec fn capacity() -> Option<nat> {
        Some(8)
    }

    open spec fn decodes_to(bits: Seq<bool>, value: u8) -> bool {
        value == value_of(bits)
    }

    open spec fn poppable() -> bool {
        8 <= word_width()
    }

    fn pop_from(fifo: &mut BitFifo, limit: Option<BitCount>) -> (r: (u8, BitCount))
        ensures
            BitFifo::refilled(
                *old(fifo),
                *final(fifo),
                r.1 as nat,
                old(fifo)@.take(r.1 as int),
            ),
    {
        let count = opt_min(opt_min(fifo.count(), Self::bit_capacity()), limit);
        proof {
            lemma_word_range();
            lemma_pow2_le(count as nat, 8);
            lemma2_to64();
            lemma2_to64_rest();
        }
        let (bits, count) = fifo.pop_uint(count);
        (bits as u8, count)
    }

    fn bit_capacity() -> (c: Option<BitCount>) {
        Some(8)
    }
}

/// A type all of whose values take the same number of bits, and are read back
/// from them.
pub trait FixedWidth: Pushable + Poppable {
    /// A value takes as many bits as its type has, and those bits read as
    /// that value and as no other.
    proof fn lemma_reads_back(&self, other: Self)
        ensures
            Self::capacity() == Some(self.bits().len()),
            Self::decodes_to(self.bits(), other) <==> other == *self,
    ;
}

impl FixedWidth for bool {
    proof fn lemma_reads_back(&self, other: bool) {
        assert(seq![*self].drop_last() =~= Seq::<bool>::empty());
        reveal_with_fuel(value_of, 2);
    }
}

impl FixedWidth for usize {
    proof fn lemma_reads_back(&self, other: usize) {
        lemma_value_of_bits_of(*self as nat, word_width());
        lemma_word_range();
        lemma2_to64();
        lemma2_to64_rest();
        lemma_small_mod(*self as nat, pow2(word_width()));
    }
}

impl FixedWidth for u64 {
    proof fn lemma_reads_back(&self, other: u64) {
        lemma_value_of_bits_of(*self as nat, 64);
        lemma_word_range();
        lemma2_to64();
        lemma2_to64_rest();
        lemma_small_mod(*self as nat, pow2(64));
    }
}

impl FixedWidth for u32 {
    proof fn lemma_reads_back(&self, other: u32) {
        lemma_value_of_bits_of(*self as nat, 32);
        lemma_word_range();
        lemma2_to64();
        lemma2_to64_rest();
        lemma_small_mod(*self as nat, pow2(32));
    }
}

impl FixedWidth for u16 {
    proof fn lemma_reads_back(&self, other: u16) {
        lemma_value_of_bits_of(*self as nat, 16);
        lemma_word_range();
        lemma2_to64();
        lemma2_to64_rest();
        lemma_small_mod(*self as nat, pow2(16));
    }
}

impl FixedWidth for u8 {
    proof fn lemma_reads_back(&self, other: u8) {
        lemma_value_of_bits_of(*self as nat, 8);
        lemma_word_range();
        lemma2_to64();
        lemma2_to64_rest();
        lemma_small_mod(*self as nat, pow2(8));
    }
}

} // verus!
