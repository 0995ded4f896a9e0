use bitfifo::bitbucket::BitBucket;
use bitfifo::{BitCount, BitFifo, Poppable, Pushable};

const W: usize = usize::BITS as usize;

#[test]
fn gather_bytes_into_u32() {
    let mut fifo = BitFifo::new();

    fifo.push(0xABu8);
    fifo.push(0xCDu8);
    fifo.push(0xEFu8);
    fifo.push(0x89u8);
    assert_eq!(fifo.count(), 32);

    let (x, count): (u32, BitCount) = fifo.pop();

    assert_eq!(fifo.count(), 0);
    assert_eq!(count, 32);
    assert_eq!(x, 0xABCDEF89u32);
}

#[test]
fn split_u32_into_bytes() {
    let mut fifo = BitFifo::new();

    fifo.push(0xABCDEF89u32);
    assert_eq!(fifo.count(), 32);

    let (a, acnt): (u8, BitCount) = fifo.pop();
    assert_eq!(fifo.count(), 24);
    assert_eq!(acnt, 8);
    assert_eq!(a, 0xABu8);

    let (b, bcnt): (u8, BitCount) = fifo.pop();
    assert_eq!(fifo.count(), 16);
    assert_eq!(bcnt, 8);
    assert_eq!(b, 0xCDu8);

    let (c, ccnt): (u8, BitCount) = fifo.pop();
    assert_eq!(fifo.count(), 8);
    assert_eq!(ccnt, 8);
    assert_eq!(c, 0xEFu8);

    let (d, dcnt): (u8, BitCount) = fifo.pop();
    assert_eq!(fifo.count(), 0);
    assert_eq!(dcnt, 8);
    assert_eq!(d, 0x89u8);
}

#[test]
fn the_answer_in_bools() {
    let mut fifo = BitFifo::new();

    for _ in 0..3 {
        fifo.push(true);
        fifo.push(false);
    }

    let (answer, count): (usize, BitCount) = fifo.pop();

    assert_eq!(answer, 42usize);
    assert_eq!(count, 6usize);
}

#[test]
fn bitfifo_gather_bytes_into_u32() {
    let mut fifo = BitFifo::new();

    0xABu8.push_into(&mut fifo, None);
    0xCDu8.push_into(&mut fifo, None);
    0xEFu8.push_into(&mut fifo, None);
    0x89u8.push_into(&mut fifo, None);
    assert_eq!(fifo.count(), 32);

    let (x, count): (u32, BitCount) = Poppable::pop_from(&mut fifo, None);

    assert_eq!(fifo.count(), 0);
    assert_eq!(count, 32);
    assert_eq!(x, 0xABCDEF89u32);
}

#[test]
fn bitfifo_split_u32_into_bytes() {
    let mut fifo = BitFifo::new();

    0xABCDEF89u32.push_into(&mut fifo, None);
    assert_eq!(fifo.count(), 32);

    let (a, acnt): (u8, BitCount) = Poppable::pop_from(&mut fifo, None);
    assert_eq!(fifo.count(), 24);
    assert_eq!(acnt, 8);
    assert_eq!(a, 0xABu8);

    let (b, bcnt): (u8, BitCount) = Poppable::pop_from(&mut fifo, None);
    assert_eq!(fifo.count(), 16);
    assert_eq!(bcnt, 8);
    assert_eq!(b, 0xCDu8);

    let (c, ccnt): (u8, BitCount) = Poppable::pop_from(&mut fifo, None);
    assert_eq!(fifo.count(), 8);
    assert_eq!(ccnt, 8);
    assert_eq!(c, 0xEFu8);

    let (d, dcnt): (u8, BitCount) = Poppable::pop_from(&mut fifo, None);
    assert_eq!(fifo.count(), 0);
    assert_eq!(dcnt, 8);
    assert_eq!(d, 0x89u8);
}

// Raw bit groups, pushed and popped as they are.

fn bb_nibbles() -> Vec<BitBucket> {
    let mut v = Vec::new();
    for nib in 0usize..(2 ^ 4) {
        v.push(BitBucket { bits: nib, count: 4 });
    }
    v
}

fn bb_bytes() -> Vec<BitBucket> {
    let mut v = Vec::new();
    for byte in 0usize..(2 ^ 8) {
        v.push(BitBucket { bits: byte, count: 8 });
    }
    v
}

fn bb_words() -> Vec<BitBucket> {
    let mut v = Vec::new();
    let mut word: usize = 0x0123456789abcdef;
    for i in 0usize..(2 ^ 16) {
        v.push(BitBucket { bits: word, count: W });
        word = (word << 1).wrapping_add(i);
    }
    v
}

fn fill_drain_bb(bs: &[BitBucket]) {
    let mut fifo = BitFifo::new();
    let mut count = 0;

    for b in bs.iter() {
        fifo.push_bitbucket(*b);
        count += b.count;
        assert_eq!(fifo.count(), count);
    }

    for b in bs.iter() {
        let out = fifo.pop_bitbucket(b.count);
        assert_eq!(&out, b);
        count -= b.count;
        assert_eq!(fifo.count(), count);
    }
    assert_eq!(fifo.count(), 0);
}

fn lockstep_bb(bs: &[BitBucket]) {
    let mut fifo = BitFifo::new();

    for b in bs.iter() {
        assert_eq!(fifo.count(), 0);
        fifo.push_bitbucket(*b);
        assert_eq!(fifo.count(), b.count);
        let out = fifo.pop_bitbucket(b.count);
        assert_eq!(&out, b);
        assert_eq!(fifo.count(), 0);
    }
}

#[test]
fn bitbucket_words_fill_drain() {
    fill_drain_bb(&bb_words())
}

#[test]
fn bitbucket_words_lockstep() {
    lockstep_bb(&bb_words())
}

#[test]
fn bitbucket_bytes_fill_drain() {
    fill_drain_bb(&bb_bytes())
}

#[test]
fn bitbucket_bytes_lockstep() {
    lockstep_bb(&bb_bytes())
}

#[test]
fn bitbucket_nibbles_fill_drain() {
    fill_drain_bb(&bb_nibbles())
}

#[test]
fn bitbucket_nibbles_lockstep() {
    lockstep_bb(&bb_nibbles())
}

// The fifo by numbers.

#[test]
fn new_fifo_is_empty() {
    let fifo = BitFifo::new();
    assert_eq!(fifo.count(), 0);
}

#[test]
fn count_adds_registers_and_words() {
    let mut fifo = BitFifo::new();
    for i in 0..3 {
        fifo.push_uint(i, W);
    }
    fifo.push_uint(0b10110, 5);
    assert_eq!(fifo.count(), 3 * W + 5);
    assert_eq!(fifo.pop_uint(3), (0, 3));
    assert_eq!(fifo.count(), 3 * W + 2);
}

#[test]
fn push_uint_drops_high_bits() {
    let mut fifo = BitFifo::new();
    fifo.push_uint(0xFF, 4);
    fifo.push_uint(0x0, 4);
    assert_eq!(fifo.count(), 8);
    assert_eq!(fifo.pop_uint(8), (0xF0, 8));
}

#[test]
fn push_uint_of_no_bits() {
    let mut fifo = BitFifo::new();
    fifo.push_uint(0xFF, 0);
    assert_eq!(fifo.count(), 0);
    fifo.push_uint(0b101, 3);
    fifo.push_uint(usize::MAX, 0);
    assert_eq!(fifo.count(), 3);
    assert_eq!(fifo.pop_uint(3), (0b101, 3));
}

#[test]
fn pop_uint_of_no_bits() {
    let mut fifo = BitFifo::new();
    assert_eq!(fifo.pop_uint(0), (0, 0));
    fifo.push_uint(0b101, 3);
    assert_eq!(fifo.pop_uint(0), (0, 0));
    assert_eq!(fifo.count(), 3);
    assert_eq!(fifo.pop_uint(3), (0b101, 3));
}

#[test]
fn full_words_pass_through() {
    let mut fifo = BitFifo::new();
    fifo.push_uint(usize::MAX, W);
    fifo.push_uint(0x1234, W);
    assert_eq!(fifo.count(), 2 * W);
    assert_eq!(fifo.pop_uint(W), (usize::MAX, W));
    assert_eq!(fifo.pop_uint(W), (0x1234, W));
    assert_eq!(fifo.count(), 0);
}

#[test]
fn word_boundary_crossing() {
    // Seven bits at a time, until well over two words are in.
    let mut fifo = BitFifo::new();
    let n = 2 * W / 7 + 3;
    for i in 0..n {
        fifo.push_uint(i & 0x7f, 7);
        assert_eq!(fifo.count(), 7 * (i + 1));
    }
    assert!(fifo.count() > 2 * W);
    for i in 0..n {
        assert_eq!(fifo.pop_uint(7), (i & 0x7f, 7));
    }
    assert_eq!(fifo.count(), 0);
}

#[test]
fn partial_pop_boundary() {
    let mut fifo = BitFifo::new();
    // One full word goes to the queue; one byte waits behind it.
    fifo.push_uint(0xA5 << (W - 8) | 0x3C, W);
    fifo.push_uint(0x96, 8);
    assert_eq!(fifo.count(), W + 8);
    // Nothing waits to leave, so this pop takes the word from the queue.
    assert_eq!(fifo.pop_uint(4), (0xA, 4));
    // These bits are at hand.
    assert_eq!(fifo.pop_uint(4), (0x5, 4));
    assert_eq!(fifo.count(), W);
    // The rest of the word, all but its last two bits.
    let (middle, taken) = fifo.pop_uint(W - 10);
    assert_eq!(taken, W - 10);
    assert_eq!(middle, 0x3C >> 2);
    // Two bits are at hand, six are missing: the byte that waited follows.
    assert_eq!(fifo.pop_uint(8), (0b00_100101, 8));
    assert_eq!(fifo.pop_uint(2), (0b10, 2));
    assert_eq!(fifo.count(), 0);
}

#[test]
fn pop_joins_outgoing_with_next_word() {
    let mut fifo = BitFifo::new();
    fifo.push_uint(0b101, 3);
    fifo.push_uint(usize::MAX, W);
    fifo.push_uint(0, W);
    // The first word in the queue is 101 followed by ones.
    assert_eq!(fifo.pop_uint(1), (1, 1));
    let (rest, _) = fifo.pop_uint(W - 1);
    assert_eq!(rest, (0b01 << (W - 3)) | ((1 << (W - 3)) - 1));
    // Three ones are left of the second word of ones; zeros follow.
    assert_eq!(fifo.pop_uint(5), (0b11100, 5));
    assert_eq!(fifo.count(), W - 2);
}

#[test]
fn conservation_over_mixed_steps() {
    let mut fifo = BitFifo::new();
    let mut pushed = 0;
    let mut popped = 0;
    for i in 0..200usize {
        let width = (i * 7) % (W + 1);
        fifo.push_uint(i.wrapping_mul(0x9E3779B9), width);
        pushed += width;
        assert_eq!(fifo.count(), pushed - popped);
        let want = (i * 5) % (W + 1);
        let take = if want <= fifo.count() { want } else { fifo.count() };
        let (_, got) = fifo.pop_uint(take);
        assert_eq!(got, take);
        popped += take;
        assert_eq!(fifo.count(), pushed - popped);
    }
}

#[test]
fn bits_leave_in_the_order_they_came() {
    let mut fifo = BitFifo::new();
    let mut expect = Vec::new();
    let mut x: usize = 0x1234_5678;
    for i in 0..500usize {
        x = x.wrapping_mul(6364136223846793005usize).wrapping_add(1442695040888963407usize);
        let width = 1 + (x >> 7) % 13;
        let value = (x >> 20) & ((1 << width) - 1);
        fifo.push_uint(value, width);
        for k in (0..width).rev() {
            expect.push((value >> k) & 1);
        }
        if i % 3 == 2 {
            let take = 1 + (x >> 11) % 11;
            let (got, _) = fifo.pop_uint(take);
            let mut want = 0;
            for b in expect.drain(..take) {
                want = (want << 1) | b;
            }
            assert_eq!(got, want);
        }
    }
    assert_eq!(fifo.count(), expect.len());
    for b in expect {
        assert_eq!(fifo.pop_uint(1), (b, 1));
    }
    assert_eq!(fifo.count(), 0);
}

#[test]
fn push_bitbucket_then_pop_bitbucket() {
    let mut fifo = BitFifo::new();
    fifo.push_bitbucket(BitBucket { bits: 0b1011, count: 4 });
    fifo.push_bitbucket(BitBucket::new());
    fifo.push_bitbucket(BitBucket { bits: 0b01, count: 2 });
    assert_eq!(fifo.count(), 6);
    assert_eq!(fifo.pop_bitbucket(5), BitBucket { bits: 0b10110, count: 5 });
    assert_eq!(fifo.pop_bitbucket(0), BitBucket::new());
    assert_eq!(fifo.pop_bitbucket(1), BitBucket { bits: 1, count: 1 });
}

#[test]
fn push_limit_and_pop_limit() {
    let mut fifo = BitFifo::new();
    fifo.push_limit(0xABu8, 4);
    assert_eq!(fifo.count(), 4);
    fifo.push_limit(0xCDu8, 20);
    assert_eq!(fifo.count(), 12);
    let (x, n): (u8, BitCount) = fifo.pop_limit(4);
    assert_eq!((x, n), (0xB, 4));
    let (y, m): (u16, BitCount) = fifo.pop_limit(100);
    assert_eq!((y, m), (0xCD, 8));
}
