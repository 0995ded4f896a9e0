//! Bit sequences and the numbers they stand for.
//!
//! A run of bits is modelled as a `Seq<bool>` whose first element is the bit
//! that entered first. Read as a binary numeral, the first element is the most
//! significant digit.

use vstd::prelude::*;
use vstd::arithmetic::div_mod::{
    lemma_div_denominator,
    lemma_fundamental_div_mod,
    lemma_mod_breakdown,
};
use vstd::bits::{
    lemma_usize_low_bits_mask_is_mod,
    lemma_usize_pow2_no_overflow,
    lemma_usize_shl_is_mul,
    lemma_usize_shr_is_div,
};
use vstd::arithmetic::power2::{
    lemma2_to64,
    lemma2_to64_rest,
    lemma_pow2_adds,
    lemma_pow2_pos,
    lemma_pow2_strictly_increases,
    lemma_pow2_unfold,
    pow2,
};

verus! {

/// The number of bits in a machine word.
pub open spec fn word_width() -> nat {
    usize::BITS as nat
}

/// Whether the bit of weight `2^k` is set in `v`.
pub open spec fn bit_at(v: nat, k: nat) -> bool {
    (v / pow2(k)) % 2 == 1
}

/// The `n` low-order bits of `v`, most significant first.
pub open spec fn bits_of(v: nat, n: nat) -> Seq<bool> {
    Seq::new(n, |i: int| bit_at(v, (n - 1 - i) as nat))
}

/// The number that the bits `s` spell, most significant first.
pub open spec fn value_of(s: Seq<bool>) -> nat
    decreases s.len(),
{
    if s.len() == 0 {
        0
    } else {
        2 * value_of(s.drop_last()) + if s.last() {
            1nat
        } else {
            0nat
        }
    }
}

/// The bits of a run of full words, the first word first.
pub open spec fn words_bits(words: Seq<usize>) -> Seq<bool>
    decreases words.len(),
{
    if words.len() == 0 {
        Seq::empty()
    } else {
        bits_of(words[0] as nat, word_width()) + words_bits(words.skip(1))
    }
}

/// A machine word is 32 or 64 bits wide, and holds the numbers below two to
/// that power.
pub proof fn lemma_word_range()
    ensures
        word_width() == 32 || word_width() == 64,
        usize::MAX + 1 == pow2(word_width()),
{
    lemma2_to64();
    lemma2_to64_rest();
}

/// Powers of two grow with the exponent.
pub proof fn lemma_pow2_le(a: nat, b: nat)
    requires
        a <= b,
    ensures
        pow2(a) <= pow2(b),
{
    if a < b {
        lemma_pow2_strictly_increases(a, b);
    }
}

/// An `n`-bit number followed by an `m`-bit number is an `n + m`-bit number.
pub proof fn lemma_concat_bound(a: nat, n: nat, b: nat, m: nat)
    requires
        a < pow2(n),
        b < pow2(m),
    ensures
        a * pow2(m) + b < pow2(n + m),
{
    lemma_pow2_adds(n, m);
    assert(a * pow2(m) + b < pow2(n) * pow2(m)) by (nonlinear_arith)
        requires
            a < pow2(n),
            b < pow2(m),
    ;
}

/// Dropping the `k` low-order bits of an `n`-bit number leaves `n - k` bits.
pub proof fn lemma_quotient_bound(v: nat, n: nat, k: nat)
    requires
        v < pow2(n),
        k <= n,
    ensures
        v / pow2(k) < pow2((n - k) as nat),
{
    lemma_pow2_adds((n - k) as nat, k);
    lemma_pow2_pos(k);
    lemma_fundamental_div_mod(v as int, pow2(k) as int);
    let q = v / pow2(k);
    let p = pow2((n - k) as nat);
    let d = pow2(k);
    assert(q < p) by (nonlinear_arith)
        requires
            v < p * d,
            v == d * q + v % d,
            0 <= v % d,
            0 < d,
    ;
}

/// The bits of a number are those of its half, followed by its lowest bit.
pub proof fn lemma_bits_of_step(v: nat, n: nat)
    requires
        n > 0,
    ensures
        bits_of(v, n) == bits_of(v / 2, (n - 1) as nat).push(v % 2 == 1),
{
    let whole = bits_of(v, n);
    let stepped = bits_of(v / 2, (n - 1) as nat).push(v % 2 == 1);
    assert forall|i: int| 0 <= i < n implies whole[i] == stepped[i] by {
        let k = (n - 1 - i) as nat;
        if k == 0 {
            lemma2_to64();
        } else {
            let j = (k - 1) as nat;
            lemma_pow2_unfold(k);
            lemma_pow2_pos(j);
            lemma_div_denominator(v as int, 2, pow2(j) as int);
            assert(v / pow2(k) == (v / 2) / pow2(j));
        }
    }
    assert(whole =~= stepped);
}

/// Only the `n` low-order bits of `v` matter to `bits_of(v, n)`.
pub proof fn lemma_bits_of_mod(v: nat, n: nat)
    ensures
        bits_of(v % pow2(n), n) == bits_of(v, n),
    decreases n,
{
    lemma_pow2_pos(n);
    if n > 0 {
        let m = (n - 1) as nat;
        lemma_pow2_unfold(n);
        lemma_pow2_pos(m);
        lemma_mod_breakdown(v as int, 2, pow2(m) as int);
        let r = v % pow2(n);
        assert(r == 2 * ((v / 2) % pow2(m)) + v % 2);
        assert(r / 2 == (v / 2) % pow2(m));
        assert(r % 2 == v % 2);
        lemma_bits_of_mod(v / 2, m);
        lemma_bits_of_step(v, n);
        lemma_bits_of_step(r, n);
    }
}

/// The bits of a number spell that number again, as far as they reach.
pub proof fn lemma_value_of_bits_of(v: nat, n: nat)
    ensures
        value_of(bits_of(v, n)) == v % pow2(n),
    decreases n,
{
    lemma_pow2_pos(n);
    if n == 0 {
        lemma2_to64();
    } else {
        let m = (n - 1) as nat;
        let s = bits_of(v, n);
        lemma_bits_of_step(v, n);
        assert(s.drop_last() =~= bits_of(v / 2, m));
        lemma_value_of_bits_of(v / 2, m);
        lemma_pow2_unfold(n);
        lemma_pow2_pos(m);
        lemma_mod_breakdown(v as int, 2, pow2(m) as int);
    }
}

/// The converse: the number that `s` spells is below two to the length of
/// `s`, and its bits are `s`. So runs of `n` bits and numbers below `2^n`
/// stand for each other.
pub proof fn lemma_bits_of_value_of(s: Seq<bool>)
    ensures
        value_of(s) < pow2(s.len()),
        bits_of(value_of(s), s.len()) == s,
    decreases s.len(),
{
    if s.len() == 0 {
        lemma2_to64();
    } else {
        lemma_bits_of_value_of(s.drop_last());
        lemma_bits_of_step(value_of(s), s.len());
        lemma_pow2_unfold(s.len());
        assert(bits_of(value_of(s), s.len()) =~= s);
    }
}

/// Appending bits is shifting and adding: the bits of `a * 2^m + b`, where `b`
/// is below `2^m`, are the bits of `a` followed by the `m` bits of `b`.
pub proof fn lemma_bits_of_concat(a: nat, n: nat, b: nat, m: nat)
    requires
        b < pow2(m),
    ensures
        bits_of(a * pow2(m) + b, n + m) == bits_of(a, n) + bits_of(b, m),
    decreases m,
{
    if m == 0 {
        lemma2_to64();
        assert(a * pow2(0) == a) by (nonlinear_arith)
            requires
                pow2(0) == 1,
        ;
        assert(bits_of(a, n) + bits_of(b, 0) =~= bits_of(a, n));
    } else {
        let k = (m - 1) as nat;
        lemma_pow2_unfold(m);
        lemma_pow2_pos(k);
        let v = a * pow2(m) + b;
        let half = a * pow2(k) + b / 2;
        assert(a * pow2(m) == 2 * (a * pow2(k))) by (nonlinear_arith)
            requires
                pow2(m) == 2 * pow2(k),
        ;
        assert(v == 2 * half + b % 2);
        assert(v / 2 == half);
        assert(v % 2 == b % 2);
        lemma_bits_of_concat(a, n, b / 2, k);
        lemma_bits_of_step(v, n + m);
        lemma_bits_of_step(b, m);
        assert((n + m - 1) as nat == n + k);
        assert(bits_of(v, n + m) =~= bits_of(a, n) + bits_of(b, m));
    }
}

/// Cutting `n` bits after the first `n - k`: the front part is the quotient
/// by `2^k`, the back part the remainder.
pub proof fn lemma_bits_of_split(v: nat, n: nat, k: nat)
    requires
        k <= n,
    ensures
        bits_of(v, n) == bits_of(v / pow2(k), (n - k) as nat) + bits_of(v % pow2(k), k),
        bits_of(v, n).subrange(0, n - k) == bits_of(v / pow2(k), (n - k) as nat),
        bits_of(v, n).subrange(n - k, n as int) == bits_of(v, k),
{
    lemma_pow2_pos(k);
    lemma_fundamental_div_mod(v as int, pow2(k) as int);
    let q = v / pow2(k);
    let r = v % pow2(k);
    assert(q * pow2(k) == pow2(k) * q) by (nonlinear_arith);
    assert(v == q * pow2(k) + r);
    lemma_bits_of_concat(q, (n - k) as nat, r, k);
    lemma_bits_of_mod(v, k);
    let front = bits_of(q, (n - k) as nat);
    let back = bits_of(r, k);
    assert((front + back).subrange(0, n - k) =~= front);
    assert((front + back).subrange(n - k, n as int) =~= back);
}

/// Each word contributes a word's width of bits.
pub proof fn lemma_words_bits_len(words: Seq<usize>)
    ensures
        words_bits(words).len() == word_width() * words.len(),
    decreases words.len(),
{
    if words.len() > 0 {
        lemma_words_bits_len(words.skip(1));
        assert(word_width() * words.len() == word_width() + word_width() * (words.len() - 1))
            by (nonlinear_arith);
    }
}

/// A word added at the back adds its bits at the back.
pub proof fn lemma_words_bits_push(words: Seq<usize>, w: usize)
    ensures
        words_bits(words.push(w)) == words_bits(words) + bits_of(w as nat, word_width()),
    decreases words.len(),
{
    let all = words.push(w);
    if words.len() == 0 {
        assert(all.skip(1) =~= Seq::<usize>::empty());
        assert(words_bits(Seq::<usize>::empty()) =~= Seq::<bool>::empty());
        assert(words_bits(all) =~= bits_of(w as nat, word_width()));
    } else {
        assert(all.skip(1) =~= words.skip(1).push(w));
        lemma_words_bits_push(words.skip(1), w);
        assert(words_bits(all) =~= words_bits(words) + bits_of(w as nat, word_width()));
    }
}

/// The width of a machine word.
pub fn word_bits() -> (w: usize)
    ensures
        w == word_width(),
{
    usize::BITS as usize
}

/// `x` moved up by `n` bits, where nothing is lost at the top.
pub fn shift_up(x: usize, n: usize) -> (r: usize)
    requires
        n <= word_width(),
        x * pow2(n as nat) <= usize::MAX,
    ensures
        r == x * pow2(n as nat),
{
    proof {
        lemma_word_range();
    }
    if n >= word_bits() {
        assert(x == 0) by (nonlinear_arith)
            requires
                x * pow2(n as nat) <= usize::MAX,
                pow2(n as nat) == usize::MAX + 1,
        ;
        0
    } else {
        proof {
            lemma_usize_shl_is_mul(x, n);
        }
        x << n
    }
}

/// `x` moved down by `n` bits: the quotient by `2^n`.
pub fn shift_down(x: usize, n: usize) -> (r: usize)
    requires
        n <= word_width(),
    ensures
        r == x as nat / pow2(n as nat),
{
    proof {
        lemma_word_range();
    }
    if n >= word_bits() {
        assert(x as nat / pow2(n as nat) == 0) by (nonlinear_arith)
            requires
                x <= usize::MAX,
                pow2(n as nat) == usize::MAX + 1,
        ;
        0
    } else {
        proof {
            lemma_usize_shr_is_div(x, n);
        }
        x >> n
    }
}

/// The `n` low-order bits of `x`: the remainder by `2^n`.
pub fn low_bits(x: usize, n: usize) -> (r: usize)
    requires
        n <= word_width(),
    ensures
        r == x as nat % pow2(n as nat),
{
    proof {
        lemma_word_range();
    }
    if n >= word_bits() {
        assert(x as nat % pow2(n as nat) == x) by (nonlinear_arith)
            requires
                x <= usize::MAX,
                pow2(n as nat) == usize::MAX + 1,
        ;
        x
    } else {
        proof {
            lemma_usize_pow2_no_overflow(n as nat);
            lemma_usize_shl_is_mul(1, n);
            lemma_usize_low_bits_mask_is_mod(x, n as nat);
        }
        x & ((1usize << n) - 1)
    }
}

/// `hi` followed by the `n` bits of `lo`, in one word.
pub fn append_low(hi: usize, lo: usize, n: usize) -> (r: usize)
    requires
        n <= word_width(),
        lo < pow2(n as nat),
        hi * pow2(n as nat) + lo <= usize::MAX,
    ensures
        r == hi * pow2(n as nat) + lo,
{
    let up = shift_up(hi, n);
    proof {
        lemma_word_range();
        if n < word_width() {
            lemma_usize_pow2_no_overflow(n as nat);
            lemma_usize_shl_is_mul(1, n);
            lemma_usize_shl_is_mul(hi, n);
            let one_up = 1usize << n;
            assert(one_up == pow2(n as nat));
            assert(up == hi << n);
            assert(((hi << n) | lo) == (hi << n) + lo) by (bit_vector)
                requires
                    n < usize::BITS,
                    lo < one_up,
                    one_up == 1usize << n,
            ;
        } else {
            assert(up == 0) by (nonlinear_arith)
                requires
                    up == hi * pow2(n as nat),
                    up <= usize::MAX,
                    pow2(n as nat) == usize::MAX + 1,
            ;
            assert((0usize | lo) == lo) by (bit_vector);
        }
    }
    up | lo
}

} // verus!
