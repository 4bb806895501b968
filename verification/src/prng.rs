//! The pseudo random number generator that the game uses to derive keys and
//! to obfuscate the first kilobyte of an encrypted file: a 64-bit Mersenne
//! Twister, an 8-bit linear congruential generator and an 8-bit linear
//! feedback shift register, summed.

use vstd::prelude::*;

verus! {

#[verifier::external_type_specification]
#[verifier::external_body]
pub struct ExMt64(rand_mt::Mt64);

/// The first `len` bytes that `rand_mt::Mt64::fill_bytes` writes for a
/// generator made by `rand_mt::Mt64::new(seed)`.
pub uninterp spec fn mt64_bytes(seed: u64, len: nat) -> Seq<u8>;

/// Calls `rand_mt::Mt64::new(seed)` and then `fill_bytes` on a zeroed
/// buffer of `len` bytes. The contract claims that the result is the named
/// byte stream of the seed, and that the stream of a shorter length is a
/// prefix of it: `fill_bytes` writes the little-endian bytes of successive
/// `next_u64` outputs in order, so it is.
#[verifier::external_body]
fn mt64_stream_bytes(seed: u64, len: usize) -> (r: Vec<u8>)
    ensures
        r@ == mt64_bytes(seed, len as nat),
        r@.len() == len,
        forall|k: nat| k <= len ==> #[trigger] mt64_bytes(seed, k) == r@.subrange(0, k as int),
{
    let mut mt = rand_mt::Mt64::new(seed);
    let mut buffer = vec![0u8; len];
    mt.fill_bytes(&mut buffer);
    buffer
}

/// The little-endian value of eight bytes.
pub open spec fn u64_from_le(b: Seq<u8>) -> u64 {
    (b[0] as u64) | ((b[1] as u64) << 8u64) | ((b[2] as u64) << 16u64) | ((b[3] as u64) << 24u64)
        | ((b[4] as u64) << 32u64) | ((b[5] as u64) << 40u64) | ((b[6] as u64) << 48u64) | ((
    b[7] as u64) << 56u64)
}

/// The `i`-th output of the Mersenne Twister seeded with `seed`.
pub open spec fn mt64_word(seed: u64, i: nat) -> u64 {
    u64_from_le(mt64_bytes(seed, 8 * i + 8).subrange(8 * i as int, (8 * i + 8) as int))
}

/// One step of the linear congruential generator.
pub open spec fn lcg_step(x: u8) -> u8 {
    x.wrapping_mul(5).wrapping_add(1)
}

/// One step of the linear feedback shift register.
pub open spec fn lfsr_step(x: u8) -> u8 {
    ((x << 1u8) | (((x >> 4u8) ^ !(x >> 7u8)) & 1u8)) as u8
}

/// The initial state of the linear congruential generator.
pub open spec fn lcg_init(seed: u64) -> u8 {
    (seed >> 8u64) as u8
}

/// The initial state of the shift register: the low byte of the seed, but
/// never `0xFF`.
pub open spec fn lfsr_init(seed: u64) -> u8 {
    if seed as u8 == 0xFFu8 {
        0x55u8
    } else {
        seed as u8
    }
}

/// The generator's congruential state after `n` outputs.
pub open spec fn lcg_after(seed: u64, n: nat) -> u8
    decreases n,
{
    if n == 0 {
        lcg_init(seed)
    } else {
        lcg_step(lcg_after(seed, (n - 1) as nat))
    }
}

/// The generator's shift register state after `n` outputs.
pub open spec fn lfsr_after(seed: u64, n: nat) -> u8
    decreases n,
{
    if n == 0 {
        lfsr_init(seed)
    } else {
        lfsr_step(lfsr_after(seed, (n - 1) as nat))
    }
}

/// The `i`-th output of the generator seeded with `seed` (wrapping sum).
pub open spec fn prng_output(seed: u64, i: nat) -> u64 {
    mt64_word(seed, i).wrapping_add(lcg_after(seed, i + 1) as u64).wrapping_add(
        lfsr_after(seed, i + 1) as u64,
    )
}

/// The 32-bit value that takes the odd bits of the low half and the even
/// bits of the high half of a 64-bit value.
pub open spec fn interweave(v: u64) -> u32 {
    ((v as u32) & !0x55555555u32) | (((v >> 32u64) as u32) & 0x55555555u32)
}

/// The generator. It draws the Mersenne Twister outputs it may need when it
/// is made, `capacity` of them, and hands them out one by one.
pub struct MyPrng {
    seed: u64,
    words: Vec<u64>,
    drawn: usize,
    lcg: u8,
    lfsr: u8,
}

impl MyPrng {
    /// The generator's invariant: it is the generator of `seed` after
    /// `drawn` outputs.
    pub closed spec fn wf(&self) -> bool {
        &&& self.drawn <= self.words.len()
        &&& forall|i: int| 0 <= i < self.words.len() ==> #[trigger] self.words@[i] == mt64_word(self.seed, i as nat)
        &&& self.lcg == lcg_after(self.seed, self.drawn as nat)
        &&& self.lfsr == lfsr_after(self.seed, self.drawn as nat)
    }

    pub closed spec fn seed(&self) -> u64 {
        self.seed
    }

    /// How many outputs were taken.
    pub closed spec fn drawn(&self) -> nat {
        self.drawn as nat
    }

    /// How many outputs can be taken in all.
    pub closed spec fn capacity(&self) -> nat {
        self.words.len() as nat
    }

    /// A generator seeded with `seed` that can give `capacity` outputs.
    pub fn new(seed: u64, capacity: usize) -> (r: MyPrng)
        requires
            capacity <= usize::MAX / 8,
        ensures
            r.wf(),
            r.seed() == seed,
            r.drawn() == 0,
            r.capacity() == capacity,
    {
        let bytes = mt64_stream_bytes(seed, capacity * 8);
        let mut words: Vec<u64> = Vec::new();
        let mut i: usize = 0;
        while i < capacity
            invariant
                i <= capacity,
                capacity <= usize::MAX / 8,
                bytes@ == mt64_bytes(seed, (capacity * 8) as nat),
                bytes@.len() == capacity * 8,
                forall|k: nat| k <= capacity * 8 ==> #[trigger] mt64_bytes(seed, k) == bytes@.subrange(0, k as int),
                words.len() == i,
                forall|j: int| 0 <= j < i ==> #[trigger] words@[j] == mt64_word(seed, j as nat),
            decreases capacity - i,
        {
            let b = 8 * i;
            let w: u64 = (bytes[b] as u64) | ((bytes[b + 1] as u64) << 8u64) | ((bytes[b + 2] as u64) << 16u64)
                | ((bytes[b + 3] as u64) << 24u64) | ((bytes[b + 4] as u64) << 32u64) | ((bytes[b + 5] as u64) << 40u64)
                | ((bytes[b + 6] as u64) << 48u64) | ((bytes[b + 7] as u64) << 56u64);
            proof {
                let k: nat = (8 * i + 8) as nat;
                assert(mt64_bytes(seed, k) == bytes@.subrange(0, k as int));
                assert(mt64_bytes(seed, k).subrange(8 * i, 8 * i + 8) =~= bytes@.subrange(8 * i, 8 * i + 8));
            }
            words.push(w);
            i = i + 1;
        }
        let lcg = (seed >> 8u64) as u8;
        let low_bits = seed as u8;
        let lfsr = if low_bits == 0xFF {
            0x55
        } else {
            low_bits
        };
        MyPrng { seed, words, drawn: 0, lcg, lfsr }
    }

    /// The next output.
    pub fn next_u64(&mut self) -> (r: u64)
        requires
            old(self).wf(),
            old(self).drawn() < old(self).capacity(),
        ensures
            final(self).wf(),
            final(self).seed() == old(self).seed(),
            final(self).capacity() == old(self).capacity(),
            final(self).drawn() == old(self).drawn() + 1,
            r == prng_output(old(self).seed(), old(self).drawn()),
    {
        let next_mt64 = self.words[self.drawn];
        let old_lcg = self.lcg;
        let new_lcg = old_lcg.wrapping_mul(5).wrapping_add(1);
                self.lcg = new_lcg;
        let new_bit = ((self.lfsr >> 4u8) ^ !(self.lfsr >> 7u8)) & 1u8;
        self.lfsr = (self.lfsr << 1u8) | new_bit;
        self.drawn = self.drawn + 1;
        next_mt64.wrapping_add(self.lcg as u64).wrapping_add(self.lfsr as u64)
    }

    /// The next output, folded to 32 bits by `interweave`.
    pub fn next_interweaved(&mut self) -> (r: u32)
        requires
            old(self).wf(),
            old(self).drawn() < old(self).capacity(),
        ensures
            final(self).wf(),
            final(self).seed() == old(self).seed(),
            final(self).capacity() == old(self).capacity(),
            final(self).drawn() == old(self).drawn() + 1,
            r == interweave(prng_output(old(self).seed(), old(self).drawn())),
    {
        let value64 = self.next_u64();
        let lower = value64 as u32;
        let upper = (value64 >> 32u64) as u32;
        (lower & !0x55555555u32) | (upper & 0x55555555u32)
    }
}

/// The congruential part of the generator starts from the second byte of
/// the seed and steps `x -> 5x + 1 (mod 256)`.
pub proof fn lemma_lcg_steps(seed: u64, n: nat)
    ensures
        lcg_after(seed, 0) as int == (seed as int / 256) % 256,
        lcg_after(seed, n + 1) as int == (5 * lcg_after(seed, n) as int + 1) % 256,
{
    let x = lcg_after(seed, n);
    assert(lcg_after(seed, n + 1) == lcg_step(x));
    assert(x.wrapping_mul(5).wrapping_add(1) as int == (5 * x as int + 1) % 256) by (bit_vector);
    assert((seed >> 8u64) as u8 as int == (seed as int / 256) % 256) by (bit_vector);
}

/// The shift register starts from the low byte of the seed (`0x55` in place
/// of `0xFF`) and shifts left, the new low bit being 1 exactly when bits 4
/// and 7 of the old state are equal.
pub proof fn lemma_lfsr_steps(seed: u64, n: nat)
    ensures
        lfsr_after(seed, 0) as int == if seed as int % 256 == 255 { 0x55 } else { seed as int % 256 },
        lfsr_after(seed, n + 1) as int == (2 * lfsr_after(seed, n) as int) % 256 + if (lfsr_after(seed, n) as int / 16)
            % 2 == lfsr_after(seed, n) as int / 128 {
            1int
        } else {
            0int
        },
{
    let x = lfsr_after(seed, n);
    assert(lfsr_after(seed, n + 1) == lfsr_step(x));
    assert(((x << 1u8) | (((x >> 4u8) ^ !(x >> 7u8)) & 1u8)) as u8 as int == (2 * x as int) % 256 + if (x as int / 16)
        % 2 == x as int / 128 {
        1int
    } else {
        0int
    }) by (bit_vector);
    assert(seed as u8 as int == seed as int % 256) by (bit_vector);
}

/// An output of the generator is the sum, modulo 2^64, of the Mersenne
/// Twister word and the two small states after the step.
pub proof fn lemma_output_is_sum(seed: u64, i: nat)
    ensures
        prng_output(seed, i) as int == (mt64_word(seed, i) as int + lcg_after(seed, i + 1) as int + lfsr_after(
            seed,
            i + 1,
        ) as int) % 0x1_0000_0000_0000_0000,
{
    let m = mt64_word(seed, i);
    let a = lcg_after(seed, i + 1) as u64;
    let b = lfsr_after(seed, i + 1) as u64;
    assert(m.wrapping_add(a).wrapping_add(b) as int == (m as int + a as int + b as int) % 0x1_0000_0000_0000_0000)
        by (bit_vector);
}

/// Bit `k` of the folded value is bit `k` of the low half where `k` is odd,
/// and bit `k` of the high half where `k` is even.
pub proof fn lemma_interweave_bits(v: u64, k: u32)
    requires
        k < 32,
    ensures
        (interweave(v) >> k) & 1 == if k % 2 == 1 { ((v >> k) & 1) as u32 } else { ((v >> (k + 32)) & 1) as u32 },
{
    assert(((((v as u32) & !0x55555555u32) | (((v >> 32u64) as u32) & 0x55555555u32)) >> k) & 1 == if k % 2 == 1 {
        ((v >> k) & 1) as u32
    } else {
        ((v >> (k + 32)) & 1) as u32
    }) by (bit_vector)
        requires
            k < 32,
    ;
}

/// Eight bytes read least significant first.
pub proof fn lemma_u64_from_le_value(b: Seq<u8>)
    requires
        b.len() == 8,
    ensures
        u64_from_le(b) as int == b[0] as int + 0x100 * b[1] as int + 0x1_0000 * b[2] as int + 0x100_0000 * b[3] as int
            + 0x1_0000_0000 * b[4] as int + 0x100_0000_0000 * b[5] as int + 0x1_0000_0000_0000 * b[6] as int
            + 0x100_0000_0000_0000 * b[7] as int,
{
    let (b0, b1, b2, b3, b4, b5, b6, b7) = (b[0], b[1], b[2], b[3], b[4], b[5], b[6], b[7]);
    assert(((b0 as u64) | ((b1 as u64) << 8u64) | ((b2 as u64) << 16u64) | ((b3 as u64) << 24u64) | ((b4 as u64)
        << 32u64) | ((b5 as u64) << 40u64) | ((b6 as u64) << 48u64) | ((b7 as u64) << 56u64)) as int == b0 as int
        + 0x100 * b1 as int + 0x1_0000 * b2 as int + 0x100_0000 * b3 as int + 0x1_0000_0000 * b4 as int
        + 0x100_0000_0000 * b5 as int + 0x1_0000_0000_0000 * b6 as int + 0x100_0000_0000_0000 * b7 as int)
        by (bit_vector);
}

} // verus!
