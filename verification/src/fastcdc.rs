//! The FastCDC chunker: a gear rolling hash with two masks that narrow the
//! chunk-size distribution around the expected size.
//!
//! Below the expected size a stricter mask must hit zero (fewer small
//! chunks); past it a laxer mask applies (cuts come sooner); at `max_size`
//! the cut is forced.  The gear table and the masks derive from the seed
//! through a 64-bit linear congruential generator.

use vstd::prelude::*;

use crate::bitops::next_pow2;
use crate::bitops::next_power_of_two64;
use crate::bitops::popcount;
use crate::bitops::popcount64;
use crate::bitops::rotl64;
use crate::bitops::spec_rotl64;
use crate::chunker::ChunkerStatus;

verus! {

/// Multiplier of the 64-bit linear congruential generator.
pub const LCG_MUL: u64 = 6364136223846793005;

/// Increment of the 64-bit linear congruential generator.
pub const LCG_INC: u64 = 1442695040888963407;

/// One step of the generator.
pub open spec fn lcg_next(x: u64) -> u64 {
    vstd::wrapping::u64_specs::wrapping_add(
        vstd::wrapping::u64_specs::wrapping_mul(x, LCG_MUL),
        LCG_INC,
    )
}

/// The generator iterated `n` times from `seed`.
pub open spec fn lcg_iter(seed: u64, n: nat) -> u64
    decreases n,
{
    if n == 0 {
        seed
    } else {
        lcg_next(lcg_iter(seed, (n - 1) as nat))
    }
}

/// The gear table: one pseudorandom 64-bit value per byte value, drawn as
/// the successive states of the generator.
pub fn generate_seq(seed: u64) -> (r: Vec<u64>)
    ensures
        r@.len() == 256,
        forall|i: int| 0 <= i < 256 ==> r@[i] == lcg_iter(seed, (i + 1) as nat),
{
    let mut result: Vec<u64> = Vec::new();
    let mut cur_value: u64 = seed;
    let mut i: usize = 0;
    while i < 256
        invariant
            i <= 256,
            result@.len() == i,
            cur_value == lcg_iter(seed, i as nat),
            forall|t: int| 0 <= t < i ==> result@[t] == lcg_iter(seed, (t + 1) as nat),
        decreases 256 - i,
    {
        cur_value = cur_value.wrapping_mul(LCG_MUL).wrapping_add(LCG_INC);
        result.push(cur_value);
        i += 1;
    }
    result
}

/// How many generator draws the mask search may spend before it settles for
/// the mask built so far; in practice a few hundred suffice for any seed.
pub const MASK_SEARCH_FUEL: u32 = 65536;

/// The rotate-and-fill search for a mask with `target` set bits: each step
/// draws a rotation amount from the generator, sets the lowest bit and
/// rotates.  The result pairs the mask reached with the generator state.
pub open spec fn mask_search(mask: u64, x: u64, target: int, fuel: nat) -> (u64, u64)
    decreases fuel,
{
    if popcount(mask as nat) >= target || fuel == 0 {
        (mask, x)
    } else {
        let x2 = lcg_next(x);
        mask_search(
            spec_rotl64(mask | 1, (((x2 as u32) & 0x3f) as u64)),
            x2,
            target,
            (fuel - 1) as nat,
        )
    }
}

/// The short (stricter) and long (laxer) masks for an expected chunk size:
/// built by the rotate-and-fill search at one bit above and one `noice`
/// below the target bit count, except for the 13-bit target, whose masks
/// come fixed from the FastCDC paper.
pub open spec fn fc_masks(expected_size: nat, noice: nat, seed: u64) -> (u64, u64) {
    let bits = popcount((next_pow2(expected_size) - 1) as nat);
    if bits == 13 {
        (0x0003590703530000u64, 0x0000d90003530000u64)
    } else {
        let first = mask_search(0, seed, bits - noice, MASK_SEARCH_FUEL as nat);
        let second = mask_search(first.0, first.1, bits + noice as int, MASK_SEARCH_FUEL as nat);
        (second.0, first.0)
    }
}

/// Runs the rotate-and-fill search from the given mask and generator state.
fn advance_mask(mask0: u64, x0: u64, target: u32) -> (r: (u64, u64))
    ensures
        (r.0, r.1) == mask_search(mask0, x0, target as int, MASK_SEARCH_FUEL as nat),
{
    let mut mask: u64 = mask0;
    let mut cur: u64 = x0;
    let mut fuel: u32 = MASK_SEARCH_FUEL;
    let mut pc: u32 = popcount64(mask);
    while pc < target && fuel > 0
        invariant
            pc == popcount(mask as nat),
            mask_search(mask, cur, target as int, fuel as nat) == mask_search(
                mask0,
                x0,
                target as int,
                MASK_SEARCH_FUEL as nat,
            ),
        decreases fuel,
    {
        cur = cur.wrapping_mul(LCG_MUL).wrapping_add(LCG_INC);
        let sh = (cur as u32) & 0x3f;
        proof {
            assert(((cur as u32) & 0x3f) < 64) by (bit_vector);
        }
        mask = rotl64(mask | 1, sh);
        fuel = fuel - 1;
        pc = popcount64(mask);
    }
    (mask, cur)
}

/// The short and long masks, as `fc_masks` states them.  `noice` is the
/// distance from the target bit count: the long mask sits `noice` bits
/// below it, the short mask `noice` bits above.
pub fn generate_masks(expected_size: usize, noice: usize, seed: u64) -> (r: (u64, u64))
    requires
        expected_size as u64 <= 0x8000_0000_0000_0000,
        noice as int <= popcount((next_pow2(expected_size as nat) - 1) as nat),
    ensures
        (r.0, r.1) == fc_masks(expected_size as nat, noice as nat, seed),
{
    let np = next_power_of_two64(expected_size as u64);
    let bits_count = popcount64(np - 1);
    if bits_count == 13 {
        return (0x0003590703530000, 0x0000d90003530000);
    }
    let noice32 = noice as u32;
    let first = advance_mask(0, seed, bits_count - noice32);
    let long_mask = first.0;
    let second = advance_mask(first.0, first.1, bits_count + noice32);
    let short_mask = second.0;
    (short_mask, long_mask)
}

/// Streaming FastCDC chunker: the working buffer, the gear table, the size
/// bounds and the two masks.
pub struct FastCdcChunker {
    /// Working buffer; its length is the fixed capacity.
    pub buffer: Vec<u8>,
    /// How many bytes at the front of the buffer are read but not emitted.
    pub buffered: usize,
    /// The gear table, one 64-bit value per byte value.
    pub gear: Vec<u64>,
    /// No boundary may fire below this position in a chunk.
    pub min_size: usize,
    /// A boundary is forced at this position in a chunk.
    pub max_size: usize,
    /// Below this position the short mask applies, past it the long mask.
    pub expected_size: usize,
    /// The laxer mask, applied past the expected size.
    pub long_mask: u64,
    /// The stricter mask, applied below the expected size.
    pub short_mask: u64,
}

/// The parameters of a FastCDC scan, fixed over a chunker's lifetime.
pub struct FcParams {
    pub gear: Seq<u64>,
    pub min: int,
    pub expected: int,
    pub max: int,
    pub short_mask: u64,
    pub long_mask: u64,
}

/// One scan step of the gear-hash detector: from position `i` in the chunk
/// that starts at `cs`, with rolling hash `h`.  Bytes below `min` are not
/// hashed; between `min` and `expected` the short mask must hit zero, past
/// `expected` the long mask; at `max` the cut is forced.  The result is the
/// chunk end (exclusive) and whether a boundary fired.
pub open spec fn fc_scan(data: Seq<u8>, i: int, cs: int, h: u64, ps: FcParams) -> (int, bool)
    decreases data.len() - i,
{
    let p = i - cs;
    if i < 0 || i >= data.len() {
        (data.len() as int, false)
    } else if p >= ps.min {
        let h2 = vstd::wrapping::u64_specs::wrapping_add(h << 1u64, ps.gear[data[i] as int]);
        if (p < ps.expected && (h2 & ps.short_mask) == 0) || (p >= ps.expected && (h2
            & ps.long_mask) == 0) || p >= ps.max {
            (i + 1, true)
        } else {
            fc_scan(data, i + 1, cs, h2, ps)
        }
    } else {
        fc_scan(data, i + 1, cs, h, ps)
    }
}

/// Where the chunk that starts at `cs` ends.
pub open spec fn fc_next(data: Seq<u8>, cs: int, ps: FcParams) -> int {
    fc_scan(data, cs, cs, 0, ps).0
}

/// Whether a boundary fires for the chunk that starts at `cs`.
pub open spec fn fc_finds(data: Seq<u8>, cs: int, ps: FcParams) -> bool {
    fc_scan(data, cs, cs, 0, ps).1
}

pub proof fn lemma_fc_scan_range(data: Seq<u8>, i: int, cs: int, h: u64, ps: FcParams)
    requires
        0 <= i <= data.len(),
    ensures
        i <= fc_scan(data, i, cs, h, ps).0 <= data.len(),
    decreases data.len() - i,
{
    if i < data.len() {
        let p = i - cs;
        if p >= ps.min {
            let h2 = vstd::wrapping::u64_specs::wrapping_add(h << 1u64, ps.gear[data[i] as int]);
            if (p < ps.expected && (h2 & ps.short_mask) == 0) || (p >= ps.expected && (h2
                & ps.long_mask) == 0) || p >= ps.max {
            } else {
                lemma_fc_scan_range(data, i + 1, cs, h2, ps);
            }
        } else {
            lemma_fc_scan_range(data, i + 1, cs, h, ps);
        }
    }
}

/// A chunk is never empty.
pub proof fn lemma_fc_next_range(data: Seq<u8>, cs: int, ps: FcParams)
    requires
        0 <= cs < data.len(),
    ensures
        cs < fc_next(data, cs, ps) <= data.len(),
{
    if 0 >= ps.min {
        let h2 = vstd::wrapping::u64_specs::wrapping_add(0u64 << 1u64, ps.gear[data[cs] as int]);
        if (0 < ps.expected && (h2 & ps.short_mask) == 0) || (0 >= ps.expected && (h2
            & ps.long_mask) == 0) || 0 >= ps.max {
        } else {
            lemma_fc_scan_range(data, cs + 1, cs, h2, ps);
        }
    } else {
        lemma_fc_scan_range(data, cs + 1, cs, 0, ps);
    }
}

/// When no boundary fires, the scan runs to the end of the data.
pub proof fn lemma_fc_scan_nofind(data: Seq<u8>, i: int, cs: int, h: u64, ps: FcParams)
    requires
        0 <= i <= data.len(),
        !fc_scan(data, i, cs, h, ps).1,
    ensures
        fc_scan(data, i, cs, h, ps).0 == data.len(),
    decreases data.len() - i,
{
    if i < data.len() {
        let p = i - cs;
        if p >= ps.min {
            let h2 = vstd::wrapping::u64_specs::wrapping_add(h << 1u64, ps.gear[data[i] as int]);
            if (p < ps.expected && (h2 & ps.short_mask) == 0) || (p >= ps.expected && (h2
                & ps.long_mask) == 0) || p >= ps.max {
            } else {
                lemma_fc_scan_nofind(data, i + 1, cs, h2, ps);
            }
        } else {
            lemma_fc_scan_nofind(data, i + 1, cs, h, ps);
        }
    }
}

/// The boundary list from chunk start `cs` on; the data length closes the
/// list whenever a last partial chunk remains.
pub open spec fn fc_bounds_from(data: Seq<u8>, cs: int, ps: FcParams) -> Seq<int>
    decreases data.len() - cs,
    via fc_bounds_from_decreases
{
    if cs < 0 || cs >= data.len() {
        Seq::empty()
    } else if fc_finds(data, cs, ps) {
        seq![fc_next(data, cs, ps)] + fc_bounds_from(data, fc_next(data, cs, ps), ps)
    } else {
        seq![data.len() as int]
    }
}

#[via_fn]
proof fn fc_bounds_from_decreases(data: Seq<u8>, cs: int, ps: FcParams) {
    if 0 <= cs < data.len() {
        lemma_fc_next_range(data, cs, ps);
    }
}

/// The boundary list of the whole input.
pub open spec fn fc_bounds(data: Seq<u8>, ps: FcParams) -> Seq<int> {
    fc_bounds_from(data, 0, ps)
}

impl FastCdcChunker {
    /// Well-formedness: buffer present, unemitted prefix leaves room, gear
    /// table complete.
    pub open spec fn wf(&self) -> bool {
        &&& 1 <= self.buffer@.len()
        &&& self.buffered < self.buffer@.len()
        &&& self.gear@.len() == 256
    }

    /// The scan parameters of this chunker.
    pub open spec fn params(&self) -> FcParams {
        FcParams {
            gear: self.gear@,
            min: self.min_size as int,
            expected: self.expected_size as int,
            max: self.max_size as int,
            short_mask: self.short_mask,
            long_mask: self.long_mask,
        }
    }

    /// Stream consistency, as for the other chunkers: the buffer front
    /// holds exactly the bytes read but not yet emitted.
    pub open spec fn stream_inv(&self, input: Seq<u8>, pos: int) -> bool {
        &&& self.wf()
        &&& self.buffered <= pos <= input.len()
        &&& self.buffer@.subrange(0, self.buffered as int) == input.subrange(
            pos - self.buffered,
            pos,
        )
    }

    /// How many bytes have been emitted once `pos` bytes were read.
    pub open spec fn emitted(&self, pos: int) -> int {
        pos - self.buffered
    }

    /// A chunker for the given expected chunk size and seed, with the given
    /// working-buffer capacity: minimum a quarter of the expected size,
    /// forced cut at eight times it, masks and gear drawn from the seed.
    pub fn with_capacity(expected_size: usize, seed: u64, capacity: usize) -> (r: FastCdcChunker)
        requires
            2 <= expected_size,
            expected_size <= usize::MAX / 8,
            expected_size as u64 <= 0x8000_0000_0000_0000,
            capacity >= 1,
        ensures
            r.buffered == 0,
            r.buffer@.len() == capacity,
            r.min_size == expected_size / 4,
            r.max_size == expected_size * 8,
            r.expected_size == expected_size,
            (r.short_mask, r.long_mask) == fc_masks(expected_size as nat, 1, seed),
            r.gear@.len() == 256,
            forall|i: int| 0 <= i < 256 ==> r.gear@[i] == lcg_iter(seed, (i + 1) as nat),
            r.wf(),
    {
        proof {
            crate::bitops::lemma_next_pow2_ge(expected_size as nat);
            crate::bitops::lemma_popcount_pos((next_pow2(expected_size as nat) - 1) as nat);
        }
        let masks = generate_masks(expected_size, 1, seed);
        let mask_short = masks.0;
        let mask_long = masks.1;
        let mut buffer: Vec<u8> = Vec::new();
        let mut k: usize = 0;
        while k < capacity
            invariant
                k <= capacity,
                buffer@.len() == k,
            decreases capacity - k,
        {
            buffer.push(0);
            k += 1;
        }
        FastCdcChunker {
            buffer,
            buffered: 0,
            gear: generate_seq(seed),
            min_size: expected_size / 4,
            max_size: expected_size * 8,
            expected_size,
            long_mask: mask_long,
            short_mask: mask_short,
        }
    }

    /// Reads the next chunk of `input` (a cursor at `*pos` stands for the
    /// byte stream) and appends its bytes to `output`.  Exactly the chunk
    /// starting at the emission watermark is written, its end a pure
    /// function of the input and the scan parameters — never of the buffer
    /// capacity.  `Working` reports a detected boundary; `Finished` reports
    /// that the input ran out, after writing the trailing partial chunk, if
    /// any.
    pub fn next_chunk(&mut self, input: &Vec<u8>, pos: &mut usize, output: &mut Vec<u8>) -> (status:
        ChunkerStatus)
        requires
            old(self).stream_inv(input@, *old(pos) as int),
        ensures
            final(self).stream_inv(input@, *final(pos) as int),
            final(self).params() == old(self).params(),
            final(self).buffer@.len() == old(self).buffer@.len(),
            *old(pos) <= *final(pos) <= input@.len(),
            final(self).emitted(*final(pos) as int) == fc_next(
                input@,
                old(self).emitted(*old(pos) as int),
                old(self).params(),
            ),
            final(output)@ == old(output)@ + input@.subrange(
                old(self).emitted(*old(pos) as int),
                fc_next(input@, old(self).emitted(*old(pos) as int), old(self).params()),
            ),
            status == (if fc_finds(
                input@,
                old(self).emitted(*old(pos) as int),
                old(self).params(),
            ) {
                ChunkerStatus::Working
            } else {
                ChunkerStatus::Finished
            }),
    {
        let ghost ps = old(self).params();
        let n = input.len();
        let ghost e0 = old(self).emitted(*old(pos) as int);
        let ghost out0 = output@;
        let mut local_pos: usize = 0;
        let mut hash: u64 = 0;
        loop
            invariant
                self.params() == ps,
                ps == old(self).params(),
                self.buffer@.len() == old(self).buffer@.len(),
                n == input@.len(),
                self.stream_inv(input@, *pos as int),
                *old(pos) <= *pos,
                e0 == old(self).emitted(*old(pos) as int),
                0 <= e0,
                e0 <= *pos - self.buffered,
                local_pos == (*pos - self.buffered) - e0,
                out0 == old(output)@,
                output@ == out0 + input@.subrange(e0, *pos - self.buffered),
                fc_scan(input@, *pos - self.buffered, e0, hash, ps) == fc_scan(
                    input@,
                    e0,
                    e0,
                    0,
                    ps,
                ),
            decreases n - *pos + self.buffered,
        {
            // refill the working buffer from the input
            let cap = self.buffer.len();
            let space = cap - self.buffered;
            let remaining = n - *pos;
            let k = if space < remaining {
                space
            } else {
                remaining
            };
            let ghost pos0 = *pos as int;
            let ghost b0 = self.buffered as int;
            let mut j: usize = 0;
            while j < k
                invariant
                    j <= k,
                    self.buffered == b0,
                    self.params() == ps,
                    self.buffer@.len() == cap as int,
                    self.buffer@.len() == old(self).buffer@.len(),
                    b0 + k <= cap as int,
                    n == input@.len(),
                    *pos == pos0,
                    0 <= pos0 - b0,
                    pos0 + k <= n as int,
                    self.buffer@.subrange(0, b0 + j) == input@.subrange(pos0 - b0, pos0 + j),
                decreases k - j,
            {
                let v = input[*pos + j];
                self.buffer[self.buffered + j] = v;
                j += 1;
                proof {
                    assert(self.buffer@.subrange(0, b0 + j) =~= input@.subrange(
                        pos0 - b0,
                        pos0 + j,
                    ));
                }
            }
            let avail = self.buffered + k;
            *pos = *pos + k;
            if avail == 0 {
                // nothing buffered and the input is exhausted
                proof {
                    assert(*pos == n);
                    assert(fc_scan(input@, *pos - self.buffered, e0, hash, ps) == ((n as int),
                    false));
                }
                return ChunkerStatus::Finished;
            }
            // scan the buffered bytes for a boundary
            let ghost a0 = *pos as int - avail as int;
            let ghost bufsnap0 = self.buffer@;
            let mut i: usize = 0;
            while i < avail
                invariant
                    i <= avail,
                    avail as int <= self.buffer@.len(),
                    self.buffer@ == bufsnap0,
                    self.params() == ps,
                    ps == old(self).params(),
                    self.buffered + k == avail,
                    self.buffer@.len() == old(self).buffer@.len(),
                    1 <= self.buffer@.len(),
                    self.gear@.len() == 256,
                    n == input@.len(),
                    *pos <= n,
                    *old(pos) <= *pos,
                    0 <= e0 <= a0,
                    e0 == old(self).emitted(*old(pos) as int),
                    a0 == *pos as int - avail as int,
                    self.buffer@.subrange(0, avail as int) == input@.subrange(a0, *pos as int),
                    local_pos == a0 + i - e0,
                    out0 == old(output)@,
                    output@ == out0 + input@.subrange(e0, a0),
                    fc_scan(input@, a0 + i, e0, hash, ps) == fc_scan(input@, e0, e0, 0, ps),
                decreases avail - i,
            {
                let cur_val = self.buffer[i];
                proof {
                    assert(self.buffer@.subrange(0, avail as int)[i as int] == input@.subrange(
                        a0,
                        *pos as int,
                    )[i as int]);
                    assert(cur_val == input@[a0 + i]);
                }
                if local_pos >= self.min_size {
                    hash = (hash << 1u64).wrapping_add(self.gear[cur_val as usize]);
                    if local_pos < self.expected_size && (hash & self.short_mask) == 0
                        || local_pos >= self.expected_size && (hash & self.long_mask) == 0
                        || local_pos >= self.max_size {
                        // boundary found: emit the chunk bytes up to and
                        // including this one
                        let ghost bnd = a0 + i + 1;
                        proof {
                            assert(fc_scan(input@, e0, e0, 0, ps) == (bnd, true));
                        }
                        let mut t: usize = 0;
                        while t < i + 1
                            invariant
                                t <= i + 1,
                                i < avail,
                                avail as int <= self.buffer@.len(),
                                self.buffer@ == bufsnap0,
                                self.params() == ps,
                                n == input@.len(),
                                *pos <= n,
                                0 <= e0 <= a0,
                                a0 == *pos as int - avail as int,
                                self.buffer@.subrange(0, avail as int) == input@.subrange(
                                    a0,
                                    *pos as int,
                                ),
                                out0 == old(output)@,
                                output@ == out0 + input@.subrange(e0, a0 + t),
                            decreases i + 1 - t,
                        {
                            let v = self.buffer[t];
                            output.push(v);
                            proof {
                                assert(self.buffer@.subrange(0, avail as int)[t as int]
                                    == input@.subrange(a0, *pos as int)[t as int]);
                                assert(v == input@[a0 + t]);
                                assert((out0 + input@.subrange(e0, a0 + t)).push(v) =~= out0
                                    + input@.subrange(e0, a0 + t + 1));
                            }
                            t += 1;
                        }
                        // move the unscanned tail to the front of the buffer
                        let m = avail - i - 1;
                        let ghost bufsnap = self.buffer@;
                        let mut t2: usize = 0;
                        while t2 < m
                            invariant
                                t2 <= m,
                                m == avail - i - 1,
                                i < avail,
                                avail as int <= self.buffer@.len(),
                                self.params() == ps,
                                self.buffer@.len() == bufsnap.len(),
                                forall|u: int|
                                    t2 <= u < bufsnap.len() ==> self.buffer@[u] == bufsnap[u],
                                forall|u: int|
                                    0 <= u < t2 ==> self.buffer@[u] == bufsnap[i + 1 + u],
                            decreases m - t2,
                        {
                            let v = self.buffer[i + 1 + t2];
                            self.buffer[t2] = v;
                            t2 += 1;
                        }
                        self.buffered = m;
                        proof {
                            assert forall|u: int| 0 <= u < m as int implies self.buffer@[u]
                                == input@[*pos - m + u] by {
                                assert(self.buffer@[u] == bufsnap[i + 1 + u]);
                                assert(bufsnap.subrange(0, avail as int)[i + 1 + u]
                                    == input@.subrange(a0, *pos as int)[i + 1 + u]);
                            }
                            assert(self.buffer@.subrange(0, m as int) =~= input@.subrange(
                                *pos as int - m,
                                *pos as int,
                            ));
                        }
                        return ChunkerStatus::Working;
                    }
                }
                local_pos += 1;
                i += 1;
            }
            // no boundary in the buffer: emit all buffered bytes and refill
            let mut t: usize = 0;
            while t < avail
                invariant
                    t <= avail,
                    avail as int <= self.buffer@.len(),
                    self.buffer@ == bufsnap0,
                    self.params() == ps,
                    n == input@.len(),
                    *pos <= n,
                    0 <= e0 <= a0,
                    a0 == *pos as int - avail as int,
                    self.buffer@.subrange(0, avail as int) == input@.subrange(a0, *pos as int),
                    out0 == old(output)@,
                    output@ == out0 + input@.subrange(e0, a0 + t),
                decreases avail - t,
            {
                let v = self.buffer[t];
                output.push(v);
                proof {
                    assert(self.buffer@.subrange(0, avail as int)[t as int] == input@.subrange(
                        a0,
                        *pos as int,
                    )[t as int]);
                    assert(v == input@[a0 + t]);
                    assert((out0 + input@.subrange(e0, a0 + t)).push(v) =~= out0 + input@.subrange(
                        e0,
                        a0 + t + 1,
                    ));
                }
                t += 1;
            }
            self.buffered = 0;
            proof {
                assert(self.buffer@.subrange(0, 0int) =~= input@.subrange(
                    *pos as int,
                    *pos as int,
                ));
            }
        }
    }

    /// Chunks the whole of `data` by driving `next_chunk` to completion and
    /// returns the boundary list: the end-exclusive offsets where chunks
    /// end, the data length closing the list whenever any bytes exist.
    pub fn chunk(&mut self, data: &Vec<u8>) -> (bounds: Vec<usize>)
        requires
            old(self).wf(),
            old(self).buffered == 0,
        ensures
            bounds@.map_values(|x: usize| x as int) == fc_bounds(data@, old(self).params()),
            final(self).params() == old(self).params(),
            final(self).buffer@.len() == old(self).buffer@.len(),
    {
        let ghost ps = old(self).params();
        let mut pos: usize = 0;
        let mut out: Vec<u8> = Vec::new();
        let mut bounds: Vec<usize> = Vec::new();
        proof {
            assert(self.buffer@.subrange(0, 0int) =~= data@.subrange(0int, 0int));
        }
        loop
            invariant
                self.stream_inv(data@, pos as int),
                self.params() == ps,
                ps == old(self).params(),
                self.buffer@.len() == old(self).buffer@.len(),
                bounds@.map_values(|x: usize| x as int) + fc_bounds_from(
                    data@,
                    pos - self.buffered,
                    ps,
                ) == fc_bounds(data@, ps),
            decreases data@.len() - (pos - self.buffered),
        {
            let ghost e = pos - self.buffered as int;
            let ghost before = bounds@.map_values(|x: usize| x as int);
            let e_before = pos - self.buffered;
            let status = self.next_chunk(data, &mut pos, &mut out);
            match status {
                ChunkerStatus::Working => {
                    let b = pos - self.buffered;
                    bounds.push(b);
                    proof {
                        lemma_fc_next_range(data@, e, ps);
                        assert(bounds@.map_values(|x: usize| x as int) =~= before.push(b as int));
                        assert(before.push(b as int) + fc_bounds_from(data@, b as int, ps)
                            =~= before + (seq![b as int] + fc_bounds_from(data@, b as int, ps)));
                    }
                },
                ChunkerStatus::Finished => {
                    if e_before < data.len() {
                        let b = data.len();
                        bounds.push(b);
                        proof {
                            assert(bounds@.map_values(|x: usize| x as int) =~= before.push(
                                b as int,
                            ));
                            assert(before.push(b as int) =~= before + seq![b as int]);
                            assert(before + seq![b as int] + Seq::<int>::empty() =~= before + seq![
                                b as int,
                            ]);
                        }
                    } else {
                        proof {
                            assert(bounds@.map_values(|x: usize| x as int) + Seq::<int>::empty()
                                =~= bounds@.map_values(|x: usize| x as int));
                        }
                    }
                    return bounds;
                },
            }
        }
    }

    /// The default construction, with a 4096-byte working buffer.
    pub fn new(expected_size: usize, seed: u64) -> (r: FastCdcChunker)
        requires
            2 <= expected_size,
            expected_size <= usize::MAX / 8,
            expected_size as u64 <= 0x8000_0000_0000_0000,
        ensures
            r.buffered == 0,
            r.buffer@.len() == 4096,
            r.min_size == expected_size / 4,
            r.max_size == expected_size * 8,
            r.expected_size == expected_size,
            (r.short_mask, r.long_mask) == fc_masks(expected_size as nat, 1, seed),
            r.gear@.len() == 256,
            forall|i: int| 0 <= i < 256 ==> r.gear@[i] == lcg_iter(seed, (i + 1) as nat),
            r.wf(),
    {
        FastCdcChunker::with_capacity(expected_size, seed, 4096)
    }
}

} // verus!
