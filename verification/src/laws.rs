//! What holds of every run of pushes and pops.

use vstd::prelude::*;
use crate::bitbucket::BitBucket;
use crate::item::{decodes_each, pop_budget, seq_bits, FixedWidth, Poppable, Pushable};
use crate::BitCount;

verus! {

/// One step in the life of a fifo.
pub enum Step {
    /// These bits are put in.
    Push(Seq<bool>),
    /// This many bits are taken out.
    Pop(nat),
}

/// The bits in a fifo that was made empty and has gone through `steps`.
pub open spec fn bits_after(steps: Seq<Step>) -> Seq<bool>
    decreases steps.len(),
{
    if steps.len() == 0 {
        Seq::empty()
    } else {
        let before = bits_after(steps.drop_last());
        match steps.last() {
            Step::Push(bits) => before + bits,
            Step::Pop(count) => before.skip(count as int),
        }
    }
}

/// No step takes out more bits than are in the fifo when it is made.
pub open spec fn can_run(steps: Seq<Step>) -> bool
    decreases steps.len(),
{
    if steps.len() == 0 {
        true
    } else {
        &&& can_run(steps.drop_last())
        &&& steps.last() matches Step::Pop(count) ==> count <= bits_after(steps.drop_last()).len()
    }
}

/// The number of bits that `steps` put in.
pub open spec fn pushed_by(steps: Seq<Step>) -> nat
    decreases steps.len(),
{
    if steps.len() == 0 {
        0
    } else {
        pushed_by(steps.drop_last()) + match steps.last() {
            Step::Push(bits) => bits.len(),
            Step::Pop(_) => 0,
        }
    }
}

/// The number of bits that `steps` took out.
pub open spec fn popped_by(steps: Seq<Step>) -> nat
    decreases steps.len(),
{
    if steps.len() == 0 {
        0
    } else {
        popped_by(steps.drop_last()) + match steps.last() {
            Step::Push(_) => 0,
            Step::Pop(count) => count,
        }
    }
}

/// Conservation: at every point a fifo holds as many bits as were put in
/// since it was made, less those that were taken out.
pub proof fn lemma_conservation(steps: Seq<Step>)
    requires
        can_run(steps),
    ensures
        bits_after(steps).len() == pushed_by(steps) - popped_by(steps),
    decreases steps.len(),
{
    if steps.len() > 0 {
        lemma_conservation(steps.drop_last());
    }
}

/// Round trip: when a value of a type of fixed width is pushed and a value of
/// that type is popped, under no limit or one that covers the type's width,
/// as many bits leave as came, so that the fifo holds as many as before; and
/// where it was empty before, the value popped is the value pushed.
pub proof fn lemma_round_trip<T: FixedWidth>(
    before: Seq<bool>,
    value: T,
    limit: Option<BitCount>,
    popped: T,
)
    requires
        limit matches Some(l) ==> l >= value.bits().len(),
    ensures
        ({
            let held = before + value.bits();
            let count = pop_budget(held.len(), T::capacity(), limit);
            &&& count == value.bits().len()
            &&& held.skip(count as int).len() == before.len()
            &&& before.len() == 0 ==> (T::decodes_to(held.take(count as int), popped) <==> popped
                == value)
        }),
{
    value.lemma_reads_back(popped);
    let held = before + value.bits();
    if before.len() == 0 {
        assert(held.take(value.bits().len() as int) =~= value.bits());
    }
}

/// Order: a value of a type of fixed width whose bits are at the front of the
/// fifo is what a pop of that type gives back, whatever follows it, and what
/// follows it is what stays. So values that went in one after the other come
/// out one after the other, each as it went in.
pub proof fn lemma_pop_front<T: FixedWidth>(
    value: T,
    rest: Seq<bool>,
    limit: Option<BitCount>,
    popped: T,
)
    requires
        limit matches Some(l) ==> l >= value.bits().len(),
    ensures
        ({
            let held = value.bits() + rest;
            let count = pop_budget(held.len(), T::capacity(), limit);
            &&& count == value.bits().len()
            &&& T::decodes_to(held.take(count as int), popped) <==> popped == value
            &&& held.skip(count as int) == rest
        }),
{
    value.lemma_reads_back(popped);
    let held = value.bits() + rest;
    let count = value.bits().len() as int;
    assert(held.take(count) =~= value.bits());
    assert(held.skip(count) =~= rest);
}

/// Round trip of a register: a well-formed register that is pushed into an
/// empty fifo is what the next pop of a register gives back, under no limit or
/// one that covers its bits.
pub proof fn lemma_register_round_trip(value: BitBucket, limit: Option<BitCount>, popped: BitBucket)
    requires
        value.wf(),
        limit matches Some(l) ==> l >= value.count,
    ensures
        ({
            let held = value.bits();
            let count = pop_budget(held.len(), BitBucket::capacity(), limit);
            &&& count == value.count
            &&& held.skip(count as int).len() == 0
            &&& BitBucket::decodes_to(held.take(count as int), popped) <==> popped == value
        }),
{
    let held = value.bits();
    assert(held.take(value.count as int) =~= value@);
    if popped.wf() && popped@ == value@ {
        BitBucket::lemma_view_injective(popped, value);
    }
}

/// The bits of a sequence of values of fixed width number that width for
/// each value.
pub proof fn lemma_sequence_width<T: FixedWidth>(values: Seq<T>)
    ensures
        T::capacity() matches Some(width) && seq_bits(values).len() == values.len() * width,
    decreases values.len(),
{
    if values.len() == 0 {
        let any: T = arbitrary();
        any.lemma_reads_back(any);
    } else {
        values[0].lemma_reads_back(values[0]);
        lemma_sequence_width(values.skip(1));
        let width = T::capacity()->0;
        assert(values.len() * width == width + (values.len() - 1) * width) by (nonlinear_arith);
    }
}

/// Order: values of a type of fixed width that were pushed one after the
/// other into an empty fifo come out as the same values in the same order
/// when the fifo is drained into a vector.
pub proof fn lemma_sequence_round_trip<T: FixedWidth>(values: Seq<T>, popped: Seq<T>)
    requires
        T::capacity() != Some(0nat),
    ensures
        decodes_each(seq_bits(values), popped) <==> popped == values,
    decreases values.len(),
{
    let bits = seq_bits(values);
    if values.len() == 0 {
        if decodes_each(bits, popped) {
            assert(popped =~= values);
        }
    } else {
        let first = values[0];
        let n = first.bits().len();
        let rest = seq_bits(values.skip(1));
        first.lemma_reads_back(first);
        assert(bits.take(n as int) =~= first.bits());
        assert(bits.skip(n as int) =~= rest);
        if popped.len() > 0 {
            first.lemma_reads_back(popped[0]);
            lemma_sequence_round_trip(values.skip(1), popped.skip(1));
            if decodes_each(bits, popped) {
                assert(popped =~= seq![popped[0]] + popped.skip(1));
                assert(values =~= seq![first] + values.skip(1));
            }
            if popped == values {
                assert(decodes_each(bits, popped));
            }
        }
    }
}

} // verus!
