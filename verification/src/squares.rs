//! Counter-based Middle Square Weyl Sequence random number generators.
//!
//! A generator holds a `seed` (the key) and a `counter`. Each draw squares a
//! Weyl sequence value `counter * seed` over several rounds, swapping the
//! halves of the word between rounds, and then advances the counter by one.
//! The output is a pure function of the seed and the counter.

use vstd::prelude::*;

verus! {

/// The value of `bytes` read as a little-endian unsigned integer.
pub open spec fn le_value(bytes: Seq<u8>) -> nat
    decreases bytes.len(),
{
    if bytes.len() == 0 {
        0
    } else {
        bytes[0] as nat + 256 * le_value(bytes.drop_first())
    }
}

/// `256` to the power `k`.
pub open spec fn pow256(k: nat) -> nat
    decreases k,
{
    if k == 0 {
        1
    } else {
        256 * pow256((k - 1) as nat)
    }
}

/// A little-endian value of `k` bytes is below `256^k`.
pub proof fn lemma_le_value_bound(bytes: Seq<u8>)
    ensures
        le_value(bytes) < pow256(bytes.len()),
    decreases bytes.len(),
{
    if bytes.len() > 0 {
        lemma_le_value_bound(bytes.drop_first());
        assert(le_value(bytes) + 1 <= 256 * pow256((bytes.len() - 1) as nat)) by (nonlinear_arith)
            requires
                le_value(bytes) == bytes[0] as nat + 256 * le_value(bytes.drop_first()),
                le_value(bytes.drop_first()) + 1 <= pow256((bytes.len() - 1) as nat),
                bytes[0] < 256,
        ;
    }
}

/// `pow256` grows with its exponent.
proof fn lemma_pow256_monotone(a: nat, b: nat)
    requires
        a <= b,
    ensures
        pow256(a) <= pow256(b),
    decreases b,
{
    if a < b {
        lemma_pow256_monotone(a, (b - 1) as nat);
    }
}

/// The little-endian value of `bytes` (at most 16 of them).
fn le_bytes_value(bytes: &[u8]) -> (r: u128)
    requires
        bytes@.len() <= 16,
    ensures
        r == le_value(bytes@),
{
    let n = bytes.len();
    let mut i = n;
    let mut acc: u128 = 0;
    proof {
        assert(bytes@.subrange(n as int, n as int) =~= Seq::<u8>::empty());
        assert(pow256(16) == 0x1_0000_0000_0000_0000_0000_0000_0000_0000) by {
            reveal_with_fuel(pow256, 17);
        }
    }
    while i > 0
        invariant
            n == bytes@.len(),
            n <= 16,
            i <= n,
            acc == le_value(bytes@.subrange(i as int, n as int)),
            pow256(16) == 0x1_0000_0000_0000_0000_0000_0000_0000_0000,
        decreases i,
    {
        let ghost tail = bytes@.subrange(i as int, n as int);
        let ghost next = bytes@.subrange(i - 1, n as int);
        proof {
            assert(next.drop_first() =~= tail);
            lemma_le_value_bound(tail);
            lemma_pow256_monotone(tail.len(), 15);
            assert(pow256(16) == 256 * pow256(15));
            assert(acc * 256 + 255 < 0x1_0000_0000_0000_0000_0000_0000_0000_0000) by (nonlinear_arith)
                requires
                    acc < pow256(15),
                    pow256(16) == 256 * pow256(15),
                    pow256(16) == 0x1_0000_0000_0000_0000_0000_0000_0000_0000,
            ;
        }
        acc = acc * 256 + bytes[i - 1] as u128;
        i = i - 1;
    }
    proof {
        assert(bytes@.subrange(0, n as int) =~= bytes@);
    }
    acc
}

/// `x` rotated by half its width: its two 32-bit halves swapped.
pub open spec fn swap_halves64(x: u64) -> u64 {
    (x << 32u64) | (x >> 32u64)
}

/// `x * x + w`, modulo 2^64.
pub open spec fn square_add64(x: u64, w: u64) -> u64 {
    x.wrapping_mul(x).wrapping_add(w)
}

/// The word after the first three rounds of a 64-bit draw.
pub open spec fn squares64_rounds(seed: u64, counter: u64) -> u64 {
    let y = seed.wrapping_mul(counter);
    let z = y.wrapping_add(seed);
    let x1 = swap_halves64(square_add64(y, y));
    let x2 = swap_halves64(square_add64(x1, z));
    swap_halves64(square_add64(x2, y))
}

/// The 32-bit draw with key `seed` at `counter`: the high half of the fourth
/// round.
pub open spec fn squares32_spec(seed: u64, counter: u64) -> u32 {
    let y = seed.wrapping_mul(counter);
    let z = y.wrapping_add(seed);
    (square_add64(squares64_rounds(seed, counter), z) >> 32u64) as u32
}

/// The 64-bit draw with key `seed` at `counter`: the fourth round, combined by
/// exclusive or with the high half of a fifth.
pub open spec fn squares64_spec(seed: u64, counter: u64) -> u64 {
    let y = seed.wrapping_mul(counter);
    let z = y.wrapping_add(seed);
    let t = square_add64(squares64_rounds(seed, counter), z);
    t ^ (square_add64(swap_halves64(t), y) >> 32u64)
}

/// `x * x + w` wraps modulo 2^64.
proof fn lemma_square_add64(x: u64, w: u64)
    ensures
        square_add64(x, w) == (x * x + w) % 0x1_0000_0000_0000_0000int,
{
    let m = 0x1_0000_0000_0000_0000int;
    let a = (x * x) % m;
    assert(x.wrapping_mul(x) == a);
    vstd::arithmetic::div_mod::lemma_add_mod_noop(x * x, w as int, m);
    vstd::arithmetic::div_mod::lemma_small_mod(w as nat, m as nat);
    if a + w >= m {
        vstd::arithmetic::div_mod::lemma_small_mod((a + w - m) as nat, m as nat);
        vstd::arithmetic::div_mod::lemma_mod_add_multiples_vanish((a + w - m) as int, m);
    } else {
        vstd::arithmetic::div_mod::lemma_small_mod((a + w) as nat, m as nat);
    }
}

/// Swapping the halves of a 64-bit word moves the low half up and the high
/// half down.
proof fn lemma_swap_halves64(v: u64)
    ensures
        swap_halves64(v) == (v % 0x1_0000_0000) * 0x1_0000_0000 + v / 0x1_0000_0000,
{
    assert((v << 32u64) | (v >> 32u64) == ((v % 0x1_0000_0000) * 0x1_0000_0000 + v / 0x1_0000_0000) as u64)
        by (bit_vector);
    assert((v % 0x1_0000_0000) * 0x1_0000_0000 + v / 0x1_0000_0000 < 0x1_0000_0000_0000_0000) by (nonlinear_arith);
}

/// Each draw of the 64-bit generator with key `seed` at `counter`, stated
/// in integer arithmetic: with `y = seed * counter` and
/// `z = seed * (counter + 1)` modulo 2^64, three rounds each square the
/// word, add `y`, `z`, `y` in turn modulo 2^64 and swap its 32-bit halves;
/// the fourth round `t = x * x + z` modulo 2^64 gives the 32-bit draw as its
/// high half, and the 64-bit draw is `t` combined by exclusive or with the
/// high half of a fifth round on `t` with its halves swapped.
pub proof fn lemma_squares64_draws(seed: u64, counter: u64)
    ensures
        ({
            let m = 0x1_0000_0000_0000_0000int;
            let h = 0x1_0000_0000int;
            let y = (seed * counter) % m;
            let z = (seed * (counter + 1)) % m;
            let s1 = (y * y + y) % m;
            let x1 = (s1 % h) * h + s1 / h;
            let s2 = (x1 * x1 + z) % m;
            let x2 = (s2 % h) * h + s2 / h;
            let s3 = (x2 * x2 + y) % m;
            let x3 = (s3 % h) * h + s3 / h;
            let t = (x3 * x3 + z) % m;
            let x4 = (t % h) * h + t / h;
            &&& squares32_spec(seed, counter) == t / h
            &&& squares64_spec(seed, counter) == (t as u64) ^ ((((x4 * x4 + y) % m) / h) as u64)
        }),
{
    let m = 0x1_0000_0000_0000_0000int;
    let yu = seed.wrapping_mul(counter);
    assert(yu == (seed * counter) % m);
    let zu = yu.wrapping_add(seed);
    assert(zu == (seed * (counter + 1)) % m) by {
        vstd::arithmetic::div_mod::lemma_add_mod_noop(seed * counter, seed as int, m);
        vstd::arithmetic::div_mod::lemma_small_mod(seed as nat, m as nat);
        assert(seed * (counter + 1) == seed * counter + seed) by (nonlinear_arith);
        if yu + seed >= m {
            vstd::arithmetic::div_mod::lemma_small_mod((yu + seed - m) as nat, m as nat);
            vstd::arithmetic::div_mod::lemma_mod_add_multiples_vanish((yu + seed - m) as int, m);
        } else {
            vstd::arithmetic::div_mod::lemma_small_mod((yu + seed) as nat, m as nat);
        }
    }
    let a1 = square_add64(yu, yu);
    lemma_square_add64(yu, yu);
    let x1 = swap_halves64(a1);
    lemma_swap_halves64(a1);
    let a2 = square_add64(x1, zu);
    lemma_square_add64(x1, zu);
    let x2 = swap_halves64(a2);
    lemma_swap_halves64(a2);
    let a3 = square_add64(x2, yu);
    lemma_square_add64(x2, yu);
    let x3 = swap_halves64(a3);
    lemma_swap_halves64(a3);
    assert(x3 == squares64_rounds(seed, counter));
    let t = square_add64(x3, zu);
    lemma_square_add64(x3, zu);
    let x4 = swap_halves64(t);
    lemma_swap_halves64(t);
    let a5 = square_add64(x4, yu);
    lemma_square_add64(x4, yu);
    assert(t >> 32u64 == t / 0x1_0000_0000) by (bit_vector);
    assert(a5 >> 32u64 == a5 / 0x1_0000_0000) by (bit_vector);
}

/// The first three rounds of a 64-bit draw.
fn rounds64(seed: u64, counter: u64) -> (r: (u64, u64, u64))
    ensures
        r.0 == squares64_rounds(seed, counter),
        r.1 == seed.wrapping_mul(counter),
        r.2 == seed.wrapping_mul(counter).wrapping_add(seed),
{
    let mut x = seed.wrapping_mul(counter);
    let y = x;
    let z = y.wrapping_add(seed);
    let s = x.wrapping_mul(x).wrapping_add(y);
    x = (s << 32) | (s >> 32);
    let s = x.wrapping_mul(x).wrapping_add(z);
    x = (s << 32) | (s >> 32);
    let s = x.wrapping_mul(x).wrapping_add(y);
    x = (s << 32) | (s >> 32);
    (x, y, z)
}

/// Draw a 32-bit value with key `seed` at `*counter`, then advance the
/// counter.
pub fn squares32(seed: u64, counter: &mut u64) -> (r: u32)
    requires
        *old(counter) < u64::MAX,
    ensures
        r == squares32_spec(seed, *old(counter)),
        *final(counter) == *old(counter) + 1,
{
    let (x, _y, z) = rounds64(seed, *counter);
    *counter += 1;
    let t = x.wrapping_mul(x).wrapping_add(z);
    (t >> 32) as u32
}

/// A 64-bit variant of the counter-based Middle Square Weyl Sequence PRNG.
pub struct Squares64 {
    /// The seed for the PRNG.
    seed: u64,
    /// The current counter state.
    counter: u64,
}

impl Squares64 {
    /// The key of the generator.
    pub closed spec fn seed_spec(&self) -> u64 {
        self.seed
    }

    /// The counter of the next draw.
    pub closed spec fn counter_spec(&self) -> u64 {
        self.counter
    }

    /// The counter of the next draw.
    pub fn counter(&self) -> (r: u64)
        ensures
            r == self.counter_spec(),
    {
        self.counter
    }

    /// A generator keyed by `seed` read as a little-endian integer, at
    /// counter 0.
    pub fn from_seed(seed: [u8; 8]) -> (r: Self)
        ensures
            r.seed_spec() == le_value(seed@),
            r.counter_spec() == 0,
    {
        proof {
            lemma_le_value_bound(seed@);
            assert(pow256(8) == 0x1_0000_0000_0000_0000) by {
                reveal_with_fuel(pow256, 9);
            }
        }
        let value = le_bytes_value(seed.as_slice());
        Squares64 { seed: value as u64, counter: 0 }
    }

    /// A generator keyed by `state`, at counter 0.
    pub fn seed_from_u64(state: u64) -> (r: Self)
        ensures
            r.seed_spec() == state,
            r.counter_spec() == 0,
    {
        Squares64 { seed: state, counter: 0 }
    }

    /// Draw a 64-bit value and advance the counter.
    pub fn next_u64(&mut self) -> (r: u64)
        requires
            old(self).counter_spec() < u64::MAX,
        ensures
            r == squares64_spec(old(self).seed_spec(), old(self).counter_spec()),
            final(self).seed_spec() == old(self).seed_spec(),
            final(self).counter_spec() == old(self).counter_spec() + 1,
    {
        let (x, y, z) = rounds64(self.seed, self.counter);
        let t = x.wrapping_mul(x).wrapping_add(z);
        let x = (t << 32) | (t >> 32);
        self.counter += 1;
        t ^ (x.wrapping_mul(x).wrapping_add(y) >> 32)
    }

    /// Draw a 32-bit value and advance the counter.
    pub fn next_u32(&mut self) -> (r: u32)
        requires
            old(self).counter_spec() < u64::MAX,
        ensures
            r == squares32_spec(old(self).seed_spec(), old(self).counter_spec()),
            final(self).seed_spec() == old(self).seed_spec(),
            final(self).counter_spec() == old(self).counter_spec() + 1,
    {
        squares32(self.seed, &mut self.counter)
    }
}

/// The multiplier that spreads a 128-bit seed over the key space.
pub const SQUARES128_MULTIPLIER: u128 = 0xc58e_fd15_4ce3_2f6d;

/// `x` rotated by half its width: its two 64-bit halves swapped.
pub open spec fn swap_halves128(x: u128) -> u128 {
    (x << 64u128) | (x >> 64u128)
}

/// `x * x + w`, modulo 2^128.
pub open spec fn square_add128(x: u128, w: u128) -> u128 {
    x.wrapping_mul(x).wrapping_add(w)
}

/// The 128-bit block drawn with key `seed` at `counter`: four rounds, then
/// the fourth combined by exclusive or with a fifth.
pub open spec fn squares128_spec(seed: u128, counter: u128) -> u128 {
    let y = seed.wrapping_mul(counter);
    let z = y.wrapping_add(seed);
    let x1 = swap_halves128(square_add128(y, y));
    let x2 = swap_halves128(square_add128(x1, z));
    let x3 = swap_halves128(square_add128(x2, y));
    let t = square_add128(x3, z);
    t ^ square_add128(swap_halves128(t), y)
}

/// `x * x + w` wraps modulo 2^128.
proof fn lemma_square_add128(x: u128, w: u128)
    ensures
        square_add128(x, w) == (x * x + w) % 0x1_0000_0000_0000_0000_0000_0000_0000_0000int,
{
    let m = 0x1_0000_0000_0000_0000_0000_0000_0000_0000int;
    let a = (x * x) % m;
    assert(x.wrapping_mul(x) == a);
    vstd::arithmetic::div_mod::lemma_add_mod_noop(x * x, w as int, m);
    vstd::arithmetic::div_mod::lemma_small_mod(w as nat, m as nat);
    if a + w >= m {
        vstd::arithmetic::div_mod::lemma_small_mod((a + w - m) as nat, m as nat);
        vstd::arithmetic::div_mod::lemma_mod_add_multiples_vanish((a + w - m) as int, m);
    } else {
        vstd::arithmetic::div_mod::lemma_small_mod((a + w) as nat, m as nat);
    }
}

/// Swapping the halves of a 128-bit word moves the low half up and the
/// high half down.
proof fn lemma_swap_halves128(v: u128)
    ensures
        swap_halves128(v) == (v % 0x1_0000_0000_0000_0000) * 0x1_0000_0000_0000_0000 + v / 0x1_0000_0000_0000_0000,
{
    assert((v << 64u128) | (v >> 64u128) == ((v % 0x1_0000_0000_0000_0000) * 0x1_0000_0000_0000_0000
        + v / 0x1_0000_0000_0000_0000) as u128) by (bit_vector);
    assert((v % 0x1_0000_0000_0000_0000) * 0x1_0000_0000_0000_0000 + v / 0x1_0000_0000_0000_0000
        < 0x1_0000_0000_0000_0000_0000_0000_0000_0000int) by (nonlinear_arith);
}

/// Each block of the 128-bit generator with key `seed` at `counter`, stated
/// in integer arithmetic: with `y = seed * counter` and
/// `z = seed * (counter + 1)` modulo 2^128, three rounds each square the
/// word, add `y`, `z`, `y` in turn modulo 2^128 and swap its 64-bit halves;
/// the fourth round `t = x * x + z` modulo 2^128 is combined by exclusive or
/// with a fifth round on `t` with its halves swapped, `x * x + y` modulo
/// 2^128.
pub proof fn lemma_squares128_blocks(seed: u128, counter: u128)
    ensures
        ({
            let m = 0x1_0000_0000_0000_0000_0000_0000_0000_0000int;
            let h = 0x1_0000_0000_0000_0000int;
            let y = (seed * counter) % m;
            let z = (seed * (counter + 1)) % m;
            let s1 = (y * y + y) % m;
            let x1 = (s1 % h) * h + s1 / h;
            let s2 = (x1 * x1 + z) % m;
            let x2 = (s2 % h) * h + s2 / h;
            let s3 = (x2 * x2 + y) % m;
            let x3 = (s3 % h) * h + s3 / h;
            let t = (x3 * x3 + z) % m;
            let x4 = (t % h) * h + t / h;
            squares128_spec(seed, counter) == (t as u128) ^ (((x4 * x4 + y) % m) as u128)
        }),
{
    let m = 0x1_0000_0000_0000_0000_0000_0000_0000_0000int;
    let yu = seed.wrapping_mul(counter);
    assert(yu == (seed * counter) % m);
    let zu = yu.wrapping_add(seed);
    assert(zu == (seed * (counter + 1)) % m) by {
        vstd::arithmetic::div_mod::lemma_add_mod_noop(seed * counter, seed as int, m);
        vstd::arithmetic::div_mod::lemma_small_mod(seed as nat, m as nat);
        assert(seed * (counter + 1) == seed * counter + seed) by (nonlinear_arith);
        if yu + seed >= m {
            vstd::arithmetic::div_mod::lemma_small_mod((yu + seed - m) as nat, m as nat);
            vstd::arithmetic::div_mod::lemma_mod_add_multiples_vanish((yu + seed - m) as int, m);
        } else {
            vstd::arithmetic::div_mod::lemma_small_mod((yu + seed) as nat, m as nat);
        }
    }
    let a1 = square_add128(yu, yu);
    lemma_square_add128(yu, yu);
    let x1 = swap_halves128(a1);
    lemma_swap_halves128(a1);
    let a2 = square_add128(x1, zu);
    lemma_square_add128(x1, zu);
    let x2 = swap_halves128(a2);
    lemma_swap_halves128(a2);
    let a3 = square_add128(x2, yu);
    lemma_square_add128(x2, yu);
    let x3 = swap_halves128(a3);
    lemma_swap_halves128(a3);
    let t = square_add128(x3, zu);
    lemma_square_add128(x3, zu);
    let x4 = swap_halves128(t);
    lemma_swap_halves128(t);
    lemma_square_add128(x4, yu);
}

/// The 128-bit counter-based Middle Square Weyl Sequence generator, which
/// produces its output in blocks of two 64-bit words.
pub struct Squares128Core {
    /// The seed for the PRNG.
    seed: u128,
    /// The current state of the counter.
    counter: u128,
}

impl Squares128Core {
    /// The key of the generator.
    pub closed spec fn seed_spec(&self) -> u128 {
        self.seed
    }

    /// The counter of the next block.
    pub closed spec fn counter_spec(&self) -> u128 {
        self.counter
    }

    /// The counter of the next block.
    pub fn counter(&self) -> (r: u128)
        ensures
            r == self.counter_spec(),
    {
        self.counter
    }

    /// A generator keyed by `(v + 1) * SQUARES128_MULTIPLIER` modulo 2^128,
    /// where `v` is `seed` read as a little-endian integer, at counter 0.
    ///
    /// Every seed gives a generator; the key wraps around as 128-bit
    /// arithmetic does.
    pub fn from_seed(seed: [u8; 16]) -> (r: Self)
        ensures
            r.seed_spec() == ((le_value(seed@) + 1) * SQUARES128_MULTIPLIER) % 0x1_0000_0000_0000_0000_0000_0000_0000_0000int,
            r.counter_spec() == 0,
    {
        let value = le_bytes_value(seed.as_slice());
        let key = value.wrapping_add(1).wrapping_mul(SQUARES128_MULTIPLIER);
        proof {
            let m: int = 0x1_0000_0000_0000_0000_0000_0000_0000_0000int;
            let k: int = SQUARES128_MULTIPLIER as int;
            if value == u128::MAX {
                assert(value.wrapping_add(1) == 0);
                assert((m * k) % m == 0) by (nonlinear_arith)
                    requires
                        m > 0,
                ;
                assert((le_value(seed@) + 1) * k == m * k);
            } else {
                assert(value.wrapping_add(1) == value + 1);
            }
        }
        Squares128Core { seed: key, counter: 0 }
    }

    /// A generator keyed by `(state + 1) * SQUARES128_MULTIPLIER`, at counter 0.
    pub fn seed_from_u64(state: u64) -> (r: Self)
        ensures
            r.seed_spec() == (state + 1) * SQUARES128_MULTIPLIER,
            r.counter_spec() == 0,
    {
        assert((state + 1) * SQUARES128_MULTIPLIER <= u128::MAX) by (nonlinear_arith)
            requires
                state <= u64::MAX,
        ;
        let key = (state as u128 + 1) * SQUARES128_MULTIPLIER;
        Squares128Core { seed: key, counter: 0 }
    }

    /// Draw the next block, high word first, and advance the counter.
    pub fn generate(&mut self) -> (r: [u64; 2])
        requires
            old(self).counter_spec() < u128::MAX,
        ensures
            r[0] == (squares128_spec(old(self).seed_spec(), old(self).counter_spec()) >> 64u128) as u64,
            r[1] == squares128_spec(old(self).seed_spec(), old(self).counter_spec()) as u64,
            final(self).seed_spec() == old(self).seed_spec(),
            final(self).counter_spec() == old(self).counter_spec() + 1,
    {
        let mut x = self.seed.wrapping_mul(self.counter);
        let y = x;
        let z = y.wrapping_add(self.seed);
        let s = x.wrapping_mul(x).wrapping_add(y);
        x = (s << 64) | (s >> 64);
        let s = x.wrapping_mul(x).wrapping_add(z);
        x = (s << 64) | (s >> 64);
        let s = x.wrapping_mul(x).wrapping_add(y);
        x = (s << 64) | (s >> 64);
        let t = x.wrapping_mul(x).wrapping_add(z);
        x = (t << 64) | (t >> 64);
        self.counter += 1;
        let value = t ^ x.wrapping_mul(x).wrapping_add(y);
        [(value >> 64) as u64, value as u64]
    }
}

} // verus!
