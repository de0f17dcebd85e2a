//! The Rabin chunker: a polynomial rolling hash over a sliding window, with
//! minimum and maximum chunk sizes.
//!
//! Each byte multiplies the hash by a fixed odd constant and adds the byte;
//! once the window is full, a precomputed table removes the byte that slides
//! out in one subtraction.  A boundary fires where the masked, seeded hash
//! hits zero past the minimum size; a cut is forced at the maximum.

use std::collections::VecDeque;

use vstd::prelude::*;

use crate::bitops::next_pow2;
use crate::bitops::next_power_of_two64;
use crate::bitops::spec_wrapping_pow32;
use crate::bitops::wrapping_pow32;
use crate::chunker::ChunkerStatus;

verus! {

/// The multiplier of the rolling polynomial hash, a Knuth multiplier.
pub const RABIN_ALPHA: u32 = 1664525;

/// The boundary mask for an expected chunk size: the next power of two,
/// less one, so that around one position in `expected_size` qualifies.
pub open spec fn rabin_mask(mask_key: nat) -> u32 {
    ((next_pow2(mask_key) - 1) as nat % 0x1_0000_0000) as u32
}

/// The parameters that steer a Rabin hash: the removal table, the boundary
/// mask, the seed the hash is compared against, and the multiplier.
pub struct HashRabin {
    /// `b * alpha ^ window` mod 2^32 for every byte value `b`: what a byte
    /// leaving the window contributes to the hash.
    pub pow_table: Vec<u32>,
    /// The boundary mask.
    pub mask: u32,
    /// The seed folded into the hash before masking.
    pub seed: u32,
    /// The hash multiplier.
    pub alpha: u32,
}

impl HashRabin {
    /// Derives the removal table from the multiplier raised to the window
    /// length, and the mask from the expected chunk size `mask_key`.
    pub fn new(mask_key: usize, hash_exp: usize, alpha: u32, seed: u32) -> (r: HashRabin)
        requires
            mask_key as u32 <= 0x8000_0000u32,
        ensures
            r.pow_table@.len() == 256,
            forall|i: int|
                0 <= i < 256 ==> r.pow_table@[i] == vstd::wrapping::u32_specs::wrapping_mul(
                    i as u32,
                    spec_wrapping_pow32(alpha, (hash_exp as u32) as nat),
                ),
            r.mask == rabin_mask((mask_key as u32) as nat),
            r.seed == seed,
            r.alpha == alpha,
    {
        let a = wrapping_pow32(alpha, hash_exp as u32);
        let mut pow_table: Vec<u32> = Vec::new();
        let mut chunk_pos: u32 = 0;
        while chunk_pos < 256
            invariant
                chunk_pos <= 256,
                pow_table@.len() == chunk_pos,
                a == spec_wrapping_pow32(alpha, (hash_exp as u32) as nat),
                forall|i: int|
                    0 <= i < chunk_pos ==> pow_table@[i] == vstd::wrapping::u32_specs::wrapping_mul(
                        i as u32,
                        a,
                    ),
            decreases 256 - chunk_pos,
        {
            pow_table.push(chunk_pos.wrapping_mul(a));
            chunk_pos += 1;
        }
        let mk32 = mask_key as u32;
        let np = next_power_of_two64(mk32 as u64);
        proof {
            if mk32 as nat >= 1 {
                crate::bitops::lemma_next_pow2_lt(mk32 as nat);
            }
            crate::bitops::lemma_next_pow2_ge(mk32 as nat);
            assert(np < 0x1_0000_0000u64);
        }
        let mask = (np - 1) as u32;

        HashRabin { pow_table, mask, seed, alpha }
    }
}

/// Streaming Rabin chunker: the working buffer, the window and size bounds,
/// and the hash parameters.
pub struct RabinChunker {
    /// Working buffer; its length is the fixed capacity.
    pub buffer: Vec<u8>,
    /// How many bytes at the front of the buffer are read but not emitted.
    pub buffered: usize,
    /// The length of the sliding hash window.
    pub window_size: usize,
    /// No boundary may fire below this position in a chunk.
    pub min_size: usize,
    /// A boundary is forced at this position in a chunk.
    pub max_size: usize,
    /// The hash parameters.
    pub hash: HashRabin,
}

/// The parameters of a Rabin scan, fixed over a chunker's lifetime.
pub struct RbParams {
    pub pow: Seq<u32>,
    pub mask: u32,
    pub seed: u32,
    pub alpha: u32,
    pub w: int,
    pub min: int,
    pub max: int,
}

/// One scan step of the streaming Rabin detector: from position `i` in the
/// chunk that starts at `cs`, with rolling hash `h` over the last `w` bytes.
/// The cut is forced at `max` before the byte is hashed; otherwise the byte
/// enters the hash, the byte leaving the window (if full) is removed, and a
/// boundary fires where the masked, seeded hash is zero past `min`.
pub open spec fn rb_scan(data: Seq<u8>, i: int, cs: int, h: u32, ps: RbParams) -> (int, bool)
    decreases data.len() - i,
{
    let p = i - cs;
    if i < 0 || i >= data.len() {
        (data.len() as int, false)
    } else if p >= ps.max {
        (i + 1, true)
    } else {
        let h1 = vstd::wrapping::u32_specs::wrapping_add(
            vstd::wrapping::u32_specs::wrapping_mul(h, ps.alpha),
            data[i] as u32,
        );
        if p >= ps.w {
            let h2 = vstd::wrapping::u32_specs::wrapping_sub(h1, ps.pow[data[i - ps.w] as int]);
            if p >= ps.min && ((h2 ^ ps.seed) & ps.mask) == 0 {
                (i + 1, true)
            } else {
                rb_scan(data, i + 1, cs, h2, ps)
            }
        } else {
            rb_scan(data, i + 1, cs, h1, ps)
        }
    }
}

/// Where the chunk that starts at `cs` ends.
pub open spec fn rb_next(data: Seq<u8>, cs: int, ps: RbParams) -> int {
    rb_scan(data, cs, cs, 0, ps).0
}

/// Whether a boundary fires for the chunk that starts at `cs`.
pub open spec fn rb_finds(data: Seq<u8>, cs: int, ps: RbParams) -> bool {
    rb_scan(data, cs, cs, 0, ps).1
}

pub proof fn lemma_rb_scan_range(data: Seq<u8>, i: int, cs: int, h: u32, ps: RbParams)
    requires
        0 <= i <= data.len(),
    ensures
        i <= rb_scan(data, i, cs, h, ps).0 <= data.len(),
    decreases data.len() - i,
{
    if i < data.len() {
        let p = i - cs;
        if p >= ps.max {
        } else {
            let h1 = vstd::wrapping::u32_specs::wrapping_add(
                vstd::wrapping::u32_specs::wrapping_mul(h, ps.alpha),
                data[i] as u32,
            );
            if p >= ps.w {
                let h2 = vstd::wrapping::u32_specs::wrapping_sub(
                    h1,
                    ps.pow[data[i - ps.w] as int],
                );
                if p >= ps.min && ((h2 ^ ps.seed) & ps.mask) == 0 {
                } else {
                    lemma_rb_scan_range(data, i + 1, cs, h2, ps);
                }
            } else {
                lemma_rb_scan_range(data, i + 1, cs, h1, ps);
            }
        }
    }
}

/// A chunk is never empty.
pub proof fn lemma_rb_next_range(data: Seq<u8>, cs: int, ps: RbParams)
    requires
        0 <= cs < data.len(),
    ensures
        cs < rb_next(data, cs, ps) <= data.len(),
{
    if 0 >= ps.max {
    } else {
        let h1 = vstd::wrapping::u32_specs::wrapping_add(
            vstd::wrapping::u32_specs::wrapping_mul(0, ps.alpha),
            data[cs] as u32,
        );
        if 0 >= ps.w {
            let h2 = vstd::wrapping::u32_specs::wrapping_sub(h1, ps.pow[data[cs - ps.w] as int]);
            if 0 >= ps.min && ((h2 ^ ps.seed) & ps.mask) == 0 {
            } else {
                lemma_rb_scan_range(data, cs + 1, cs, h2, ps);
            }
        } else {
            lemma_rb_scan_range(data, cs + 1, cs, h1, ps);
        }
    }
}

/// When no boundary fires, the scan runs to the end of the data.
pub proof fn lemma_rb_scan_nofind(data: Seq<u8>, i: int, cs: int, h: u32, ps: RbParams)
    requires
        0 <= i <= data.len(),
        !rb_scan(data, i, cs, h, ps).1,
    ensures
        rb_scan(data, i, cs, h, ps).0 == data.len(),
    decreases data.len() - i,
{
    if i < data.len() {
        let p = i - cs;
        if p >= ps.max {
        } else {
            let h1 = vstd::wrapping::u32_specs::wrapping_add(
                vstd::wrapping::u32_specs::wrapping_mul(h, ps.alpha),
                data[i] as u32,
            );
            if p >= ps.w {
                let h2 = vstd::wrapping::u32_specs::wrapping_sub(
                    h1,
                    ps.pow[data[i - ps.w] as int],
                );
                if p >= ps.min && ((h2 ^ ps.seed) & ps.mask) == 0 {
                } else {
                    lemma_rb_scan_nofind(data, i + 1, cs, h2, ps);
                }
            } else {
                lemma_rb_scan_nofind(data, i + 1, cs, h1, ps);
            }
        }
    }
}

/// The boundary list from chunk start `cs` on; the data length closes the
/// list whenever a last partial chunk remains.
pub open spec fn rb_bounds_from(data: Seq<u8>, cs: int, ps: RbParams) -> Seq<int>
    decreases data.len() - cs,
    via rb_bounds_from_decreases
{
    if cs < 0 || cs >= data.len() {
        Seq::empty()
    } else if rb_finds(data, cs, ps) {
        seq![rb_next(data, cs, ps)] + rb_bounds_from(data, rb_next(data, cs, ps), ps)
    } else {
        seq![data.len() as int]
    }
}

#[via_fn]
proof fn rb_bounds_from_decreases(data: Seq<u8>, cs: int, ps: RbParams) {
    if 0 <= cs < data.len() {
        lemma_rb_next_range(data, cs, ps);
    }
}

/// The boundary list of the whole input.
pub open spec fn rb_bounds(data: Seq<u8>, ps: RbParams) -> Seq<int> {
    rb_bounds_from(data, 0, ps)
}

/// The scan of `[start, right)` used by the parallel overlap strategy.  The
/// deque `win` holds the bytes pushed but not yet removed from the hash;
/// after a boundary the scan anchors one position before the boundary, so
/// the window refills two bytes short of full before removals resume.  No
/// cut is forced here; boundary positions are recorded inclusively.
pub open spec fn rb_gb_scan(
    data: Seq<u8>,
    i: int,
    right: int,
    last_pos: int,
    h: u32,
    win: Seq<u8>,
    ps: RbParams,
) -> Seq<int>
    decreases right - i,
{
    if i < 0 || i >= right {
        Seq::empty()
    } else {
        let h1 = vstd::wrapping::u32_specs::wrapping_add(
            vstd::wrapping::u32_specs::wrapping_mul(h, ps.alpha),
            data[i] as u32,
        );
        if i >= last_pos + ps.w {
            let h2 = vstd::wrapping::u32_specs::wrapping_sub(h1, ps.pow[win[0] as int]);
            if i >= last_pos + ps.min && ((h2 ^ ps.seed) & ps.mask) == 0 {
                seq![i] + rb_gb_scan(data, i + 1, right, i - 1, 0, Seq::empty(), ps)
            } else {
                rb_gb_scan(data, i + 1, right, last_pos, h2, win.subrange(1, win.len() as int).push(data[i]), ps)
            }
        } else {
            rb_gb_scan(data, i + 1, right, last_pos, h1, win.push(data[i]), ps)
        }
    }
}

/// What `get_bounds` returns for the slab `[left, right)`: the scan starts
/// `w` bytes early to prime the rolling hash.
pub open spec fn rb_get_bounds_spec(data: Seq<u8>, left: int, right: int, ps: RbParams) -> Seq<
    int,
> {
    let start = if left >= ps.w {
        left - ps.w
    } else {
        0
    };
    rb_gb_scan(data, start, right, start, 0, Seq::empty(), ps)
}

impl RabinChunker {
    /// Well-formedness: buffer present with room to read, removal table
    /// complete, window long enough that the overlap scan's deque never
    /// runs dry.
    pub open spec fn wf(&self) -> bool {
        &&& 1 <= self.buffer@.len()
        &&& self.buffered < self.buffer@.len()
        &&& self.hash.pow_table@.len() == 256
        &&& 3 <= self.window_size
    }

    /// The scan parameters of this chunker.
    pub open spec fn params(&self) -> RbParams {
        RbParams {
            pow: self.hash.pow_table@,
            mask: self.hash.mask,
            seed: self.hash.seed,
            alpha: self.hash.alpha,
            w: self.window_size as int,
            min: self.min_size as int,
            max: self.max_size as int,
        }
    }

    /// Stream consistency, as for the other chunkers.
    pub open spec fn stream_inv(&self, input: Seq<u8>, pos: int) -> bool {
        &&& self.wf()
        &&& self.buffered <= pos <= input.len()
        &&& self.buffer@.subrange(0, self.buffered as int) == input.subrange(
            pos - self.buffered,
            pos,
        )
    }

    /// How many bytes have been emitted once `pos` bytes were read.
    pub open spec fn emitted(&self, pos: int) -> int {
        pos - self.buffered
    }

    /// A chunker for the given expected chunk size and seed, with the given
    /// working-buffer capacity: window one below a quarter of the expected
    /// size, minimum that quarter, forced cut at four times the expected
    /// size.
    pub fn with_capacity(expected_size: usize, seed: u32, capacity: usize) -> (r: RabinChunker)
        requires
            16 <= expected_size,
            expected_size <= 0x8000_0000usize,
            expected_size <= usize::MAX / 4,
            capacity >= 1,
        ensures
            r.buffered == 0,
            r.buffer@.len() == capacity,
            r.window_size == expected_size / 4 - 1,
            r.min_size == expected_size / 4,
            r.max_size == expected_size * 4,
            r.hash.alpha == RABIN_ALPHA,
            r.hash.seed == seed,
            r.hash.mask == rabin_mask(expected_size as nat),
            r.hash.pow_table@.len() == 256,
            forall|i: int|
                0 <= i < 256 ==> r.hash.pow_table@[i] == vstd::wrapping::u32_specs::wrapping_mul(
                    i as u32,
                    spec_wrapping_pow32(
                        RABIN_ALPHA,
                        (((expected_size / 4 - 1) as usize as u32)) as nat,
                    ),
                ),
            r.wf(),
    {
        let window_size = expected_size / 4 - 1;
        let min_size = expected_size / 4;
        let max_size = expected_size * 4;
        let alpha = RABIN_ALPHA;
        let mut buffer: Vec<u8> = Vec::new();
        let mut k: usize = 0;
        while k < capacity
            invariant
                k <= capacity,
                buffer@.len() == k,
            decreases capacity - k,
        {
            buffer.push(0);
            k += 1;
        }
        let hash = HashRabin::new(expected_size, window_size, alpha, seed);
        RabinChunker { buffer, buffered: 0, window_size, min_size, max_size, hash }
    }

    /// The boundaries that fall in `[start, right)` with the rolling hash
    /// primed from `window_size` bytes before `left`; used by the parallel
    /// overlap strategy.
    pub fn get_bounds(&self, vec: &Vec<u8>, left: usize, right: usize) -> (r: Vec<usize>)
        requires
            self.wf(),
            left <= vec@.len(),
            right <= vec@.len(),
        ensures
            r@.map_values(|x: usize| x as int) == rb_get_bounds_spec(
                vec@,
                left as int,
                right as int,
                self.params(),
            ),
    {
        let ghost ps = self.params();
        let w = self.window_size;
        let mut result: Vec<usize> = Vec::new();
        let mut hash: u32 = 0;
        let start = if left >= w {
            left - w
        } else {
            0
        };
        let mut last_pos: usize = start;
        let mut window: VecDeque<u8> = VecDeque::with_capacity(w);
        let mut i: usize = start;
        let ghost mut front: int = start as int;
        let ghost mut pbase: int = start as int;
        proof {
            assert(window@ =~= vec@.subrange(front, i as int));
        }
        while i < right
            invariant
                ps == self.params(),
                w == self.window_size,
                3 <= w,
                self.hash.pow_table@.len() == 256,
                right <= vec@.len(),
                start <= i,
                0 <= last_pos <= i,
                pbase == last_pos as int || pbase == last_pos + 2,
                start as int <= pbase <= i as int,
                front == pbase + (if i as int >= last_pos + ps.w {
                    i - last_pos - ps.w
                } else {
                    0int
                }),
                window@ == vec@.subrange(front, i as int),
                result@.map_values(|x: usize| x as int) + rb_gb_scan(
                    vec@,
                    i as int,
                    right as int,
                    last_pos as int,
                    hash,
                    window@,
                    ps,
                ) == rb_gb_scan(
                    vec@,
                    start as int,
                    right as int,
                    start as int,
                    0,
                    Seq::empty(),
                    ps,
                ),
            decreases right - i,
        {
            let ghost before = result@.map_values(|x: usize| x as int);
            let b = vec[i];
            hash = hash.wrapping_mul(self.hash.alpha).wrapping_add(b as u32);
            let mut took_boundary = false;
            if i - last_pos >= w {
                proof {
                    assert(window@.len() == i - front);
                }
                let ghost win_pre = window@;
                let front_window = window.pop_front().unwrap();
                proof {
                    assert(win_pre[0] == vec@.subrange(front, i as int)[0]);
                    assert(front_window == vec@[front]);
                    assert forall|u: int| 0 <= u < window@.len() implies window@[u] == vec@[front
                        + 1 + u] by {
                        assert(window@[u] == win_pre.subrange(1, win_pre.len() as int)[u]);
                        assert(win_pre[u + 1] == vec@.subrange(front, i as int)[u + 1]);
                    }
                    front = front + 1;
                    assert(window@ =~= vec@.subrange(front, i as int));
                }
                hash = hash.wrapping_sub(self.hash.pow_table[front_window as usize]);
                if i - last_pos >= self.min_size && ((hash ^ self.hash.seed) & self.hash.mask)
                    == 0 {
                    result.push(i);
                    window = VecDeque::new();
                    last_pos = i - 1;
                    hash = 0;
                    took_boundary = true;
                    proof {
                        pbase = i + 1;
                        front = i + 1;
                        assert(result@.map_values(|x: usize| x as int) =~= before.push(i as int));
                        assert(before.push(i as int) + rb_gb_scan(
                            vec@,
                            i + 1,
                            right as int,
                            i - 1,
                            0,
                            Seq::empty(),
                            ps,
                        ) =~= before + (seq![i as int] + rb_gb_scan(
                            vec@,
                            i + 1,
                            right as int,
                            i - 1,
                            0,
                            Seq::empty(),
                            ps,
                        )));
                    }
                }
            }
            if !took_boundary {
                let ghost win_pre2 = window@;
                window.push_back(b);
                proof {
                    assert forall|u: int| 0 <= u < window@.len() implies window@[u] == vec@[front
                        + u] by {
                        if u < win_pre2.len() {
                            assert(win_pre2[u] == vec@.subrange(front, i as int)[u]);
                        }
                    }
                }
            }
            i += 1;
            proof {
                assert(window@ =~= vec@.subrange(front, i as int));
            }
        }
        proof {
            assert(result@.map_values(|x: usize| x as int) + Seq::<int>::empty()
                =~= result@.map_values(|x: usize| x as int));
        }
        result
    }

    /// Reads the next chunk of `input` (a cursor at `*pos` stands for the
    /// byte stream) and appends its bytes to `output`.  Exactly the chunk
    /// starting at the emission watermark is written, its end a pure
    /// function of the input and the scan parameters — never of the buffer
    /// capacity.  `Working` reports a detected or forced boundary;
    /// `Finished` reports that the input ran out, after writing the
    /// trailing partial chunk, if any.
    pub fn next_chunk(&mut self, input: &Vec<u8>, pos: &mut usize, output: &mut Vec<u8>) -> (status:
        ChunkerStatus)
        requires
            old(self).stream_inv(input@, *old(pos) as int),
        ensures
            final(self).stream_inv(input@, *final(pos) as int),
            final(self).params() == old(self).params(),
            final(self).buffer@.len() == old(self).buffer@.len(),
            *old(pos) <= *final(pos) <= input@.len(),
            final(self).emitted(*final(pos) as int) == rb_next(
                input@,
                old(self).emitted(*old(pos) as int),
                old(self).params(),
            ),
            final(output)@ == old(output)@ + input@.subrange(
                old(self).emitted(*old(pos) as int),
                rb_next(input@, old(self).emitted(*old(pos) as int), old(self).params()),
            ),
            status == (if rb_finds(
                input@,
                old(self).emitted(*old(pos) as int),
                old(self).params(),
            ) {
                ChunkerStatus::Working
            } else {
                ChunkerStatus::Finished
            }),
    {
        let ghost ps = old(self).params();
        let n = input.len();
        let ghost e0 = old(self).emitted(*old(pos) as int);
        let ghost out0 = output@;
        let mut local_pos: usize = 0;
        let mut hash: u32 = 0;
        let mut window: VecDeque<u8> = VecDeque::with_capacity(self.window_size);
        loop
            invariant
                self.params() == ps,
                ps == old(self).params(),
                self.buffer@.len() == old(self).buffer@.len(),
                n == input@.len(),
                self.stream_inv(input@, *pos as int),
                *old(pos) <= *pos,
                e0 == old(self).emitted(*old(pos) as int),
                0 <= e0,
                e0 <= *pos - self.buffered,
                local_pos == (*pos - self.buffered) - e0,
                window@ == input@.subrange(
                    if local_pos >= ps.w {
                        (*pos - self.buffered) - ps.w
                    } else {
                        e0
                    },
                    *pos - self.buffered,
                ),
                out0 == old(output)@,
                output@ == out0 + input@.subrange(e0, *pos - self.buffered),
                rb_scan(input@, *pos - self.buffered, e0, hash, ps) == rb_scan(
                    input@,
                    e0,
                    e0,
                    0,
                    ps,
                ),
            decreases n - *pos + self.buffered,
        {
            // refill the working buffer from the input
            let cap = self.buffer.len();
            let space = cap - self.buffered;
            let remaining = n - *pos;
            let k = if space < remaining {
                space
            } else {
                remaining
            };
            let ghost pos0 = *pos as int;
            let ghost b0 = self.buffered as int;
            let mut j: usize = 0;
            while j < k
                invariant
                    j <= k,
                    self.buffered == b0,
                    self.params() == ps,
                    self.buffer@.len() == cap as int,
                    self.buffer@.len() == old(self).buffer@.len(),
                    b0 + k <= cap as int,
                    n == input@.len(),
                    *pos == pos0,
                    0 <= pos0 - b0,
                    pos0 + k <= n as int,
                    self.buffer@.subrange(0, b0 + j) == input@.subrange(pos0 - b0, pos0 + j),
                decreases k - j,
            {
                let v = input[*pos + j];
                self.buffer[self.buffered + j] = v;
                j += 1;
                proof {
                    assert(self.buffer@.subrange(0, b0 + j) =~= input@.subrange(
                        pos0 - b0,
                        pos0 + j,
                    ));
                }
            }
            let avail = self.buffered + k;
            *pos = *pos + k;
            if avail == 0 {
                // nothing buffered and the input is exhausted
                proof {
                    assert(*pos == n);
                    assert(rb_scan(input@, *pos - self.buffered, e0, hash, ps) == ((n as int),
                    false));
                }
                return ChunkerStatus::Finished;
            }
            // scan the buffered bytes for a boundary
            let ghost a0 = *pos as int - avail as int;
            let ghost bufsnap0 = self.buffer@;
            let mut i: usize = 0;
            while i < avail
                invariant
                    i <= avail,
                    avail as int <= self.buffer@.len(),
                    self.buffer@ == bufsnap0,
                    self.params() == ps,
                    ps == old(self).params(),
                    self.buffered + k == avail,
                    self.buffer@.len() == old(self).buffer@.len(),
                    1 <= self.buffer@.len(),
                    self.hash.pow_table@.len() == 256,
                    3 <= self.window_size,
                    n == input@.len(),
                    *pos <= n,
                    *old(pos) <= *pos,
                    0 <= e0 <= a0,
                    e0 == old(self).emitted(*old(pos) as int),
                    a0 == *pos as int - avail as int,
                    self.buffer@.subrange(0, avail as int) == input@.subrange(a0, *pos as int),
                    local_pos == a0 + i - e0,
                    window@ == input@.subrange(
                        if local_pos >= ps.w {
                            a0 + i - ps.w
                        } else {
                            e0
                        },
                        a0 + i,
                    ),
                    out0 == old(output)@,
                    output@ == out0 + input@.subrange(e0, a0),
                    rb_scan(input@, a0 + i, e0, hash, ps) == rb_scan(input@, e0, e0, 0, ps),
                decreases avail - i,
            {
                let cur_val = self.buffer[i];
                proof {
                    assert(self.buffer@.subrange(0, avail as int)[i as int] == input@.subrange(
                        a0,
                        *pos as int,
                    )[i as int]);
                    assert(cur_val == input@[a0 + i]);
                }
                let mut cut = false;
                if local_pos >= self.max_size {
                    // the chunk reached its maximum size: the cut is forced
                    cut = true;
                } else {
                    hash = hash.wrapping_mul(self.hash.alpha).wrapping_add(cur_val as u32);
                    if local_pos >= self.window_size {
                        let front_window = window.pop_front().unwrap();
                        proof {
                            assert(front_window == input@[a0 + i - ps.w]);
                        }
                        hash = hash.wrapping_sub(self.hash.pow_table[front_window as usize]);
                        if local_pos >= self.min_size && ((hash ^ self.hash.seed)
                            & self.hash.mask) == 0 {
                            cut = true;
                        }
                    }
                }
                if cut {
                    // boundary: emit the chunk bytes up to and including
                    // this one
                    let ghost bnd = a0 + i + 1;
                    proof {
                        assert(rb_scan(input@, e0, e0, 0, ps) == (bnd, true));
                    }
                    let mut t: usize = 0;
                    while t < i + 1
                        invariant
                            t <= i + 1,
                            i < avail,
                            avail as int <= self.buffer@.len(),
                            self.buffer@ == bufsnap0,
                            self.params() == ps,
                            n == input@.len(),
                            *pos <= n,
                            0 <= e0 <= a0,
                            a0 == *pos as int - avail as int,
                            self.buffer@.subrange(0, avail as int) == input@.subrange(
                                a0,
                                *pos as int,
                            ),
                            out0 == old(output)@,
                            output@ == out0 + input@.subrange(e0, a0 + t),
                        decreases i + 1 - t,
                    {
                        let v = self.buffer[t];
                        output.push(v);
                        proof {
                            assert(self.buffer@.subrange(0, avail as int)[t as int]
                                == input@.subrange(a0, *pos as int)[t as int]);
                            assert(v == input@[a0 + t]);
                            assert((out0 + input@.subrange(e0, a0 + t)).push(v) =~= out0
                                + input@.subrange(e0, a0 + t + 1));
                        }
                        t += 1;
                    }
                    // move the unscanned tail to the front of the buffer
                    let m = avail - i - 1;
                    let ghost bufsnap = self.buffer@;
                    let mut t2: usize = 0;
                    while t2 < m
                        invariant
                            t2 <= m,
                            m == avail - i - 1,
                            i < avail,
                            avail as int <= self.buffer@.len(),
                            self.params() == ps,
                            self.buffer@.len() == bufsnap.len(),
                            forall|u: int|
                                t2 <= u < bufsnap.len() ==> self.buffer@[u] == bufsnap[u],
                            forall|u: int| 0 <= u < t2 ==> self.buffer@[u] == bufsnap[i + 1 + u],
                        decreases m - t2,
                    {
                        let v = self.buffer[i + 1 + t2];
                        self.buffer[t2] = v;
                        t2 += 1;
                    }
                    self.buffered = m;
                    proof {
                        assert forall|u: int| 0 <= u < m as int implies self.buffer@[u]
                            == input@[*pos - m + u] by {
                            assert(self.buffer@[u] == bufsnap[i + 1 + u]);
                            assert(bufsnap.subrange(0, avail as int)[i + 1 + u] == input@.subrange(
                                a0,
                                *pos as int,
                            )[i + 1 + u]);
                        }
                        assert(self.buffer@.subrange(0, m as int) =~= input@.subrange(
                            *pos as int - m,
                            *pos as int,
                        ));
                    }
                    return ChunkerStatus::Working;
                }
                local_pos += 1;
                window.push_back(cur_val);
                proof {
                    assert(window@ =~= input@.subrange(
                        if local_pos >= ps.w {
                            a0 + i + 1 - ps.w
                        } else {
                            e0
                        },
                        a0 + i + 1,
                    ));
                }
                i += 1;
            }
            // no boundary in the buffer: emit all buffered bytes and refill
            let mut t: usize = 0;
            while t < avail
                invariant
                    t <= avail,
                    avail as int <= self.buffer@.len(),
                    self.buffer@ == bufsnap0,
                    self.params() == ps,
                    n == input@.len(),
                    *pos <= n,
                    0 <= e0 <= a0,
                    a0 == *pos as int - avail as int,
                    self.buffer@.subrange(0, avail as int) == input@.subrange(a0, *pos as int),
                    out0 == old(output)@,
                    output@ == out0 + input@.subrange(e0, a0 + t),
                decreases avail - t,
            {
                let v = self.buffer[t];
                output.push(v);
                proof {
                    assert(self.buffer@.subrange(0, avail as int)[t as int] == input@.subrange(
                        a0,
                        *pos as int,
                    )[t as int]);
                    assert(v == input@[a0 + t]);
                    assert((out0 + input@.subrange(e0, a0 + t)).push(v) =~= out0 + input@.subrange(
                        e0,
                        a0 + t + 1,
                    ));
                }
                t += 1;
            }
            self.buffered = 0;
            proof {
                assert(self.buffer@.subrange(0, 0int) =~= input@.subrange(
                    *pos as int,
                    *pos as int,
                ));
            }
        }
    }

    /// Chunks the whole of `data` by driving `next_chunk` to completion and
    /// returns the boundary list: the end-exclusive offsets where chunks
    /// end, the data length closing the list whenever any bytes exist.
    pub fn chunk(&mut self, data: &Vec<u8>) -> (bounds: Vec<usize>)
        requires
            old(self).wf(),
            old(self).buffered == 0,
        ensures
            bounds@.map_values(|x: usize| x as int) == rb_bounds(data@, old(self).params()),
            final(self).params() == old(self).params(),
            final(self).buffer@.len() == old(self).buffer@.len(),
    {
        let ghost ps = old(self).params();
        let mut pos: usize = 0;
        let mut out: Vec<u8> = Vec::new();
        let mut bounds: Vec<usize> = Vec::new();
        proof {
            assert(self.buffer@.subrange(0, 0int) =~= data@.subrange(0int, 0int));
        }
        loop
            invariant
                self.stream_inv(data@, pos as int),
                self.params() == ps,
                ps == old(self).params(),
                self.buffer@.len() == old(self).buffer@.len(),
                bounds@.map_values(|x: usize| x as int) + rb_bounds_from(
                    data@,
                    pos - self.buffered,
                    ps,
                ) == rb_bounds(data@, ps),
            decreases data@.len() - (pos - self.buffered),
        {
            let ghost e = pos - self.buffered as int;
            let ghost before = bounds@.map_values(|x: usize| x as int);
            let e_before = pos - self.buffered;
            let status = self.next_chunk(data, &mut pos, &mut out);
            match status {
                ChunkerStatus::Working => {
                    let b = pos - self.buffered;
                    bounds.push(b);
                    proof {
                        lemma_rb_next_range(data@, e, ps);
                        assert(bounds@.map_values(|x: usize| x as int) =~= before.push(b as int));
                        assert(before.push(b as int) + rb_bounds_from(data@, b as int, ps)
                            =~= before + (seq![b as int] + rb_bounds_from(data@, b as int, ps)));
                    }
                },
                ChunkerStatus::Finished => {
                    if e_before < data.len() {
                        let b = data.len();
                        bounds.push(b);
                        proof {
                            assert(bounds@.map_values(|x: usize| x as int) =~= before.push(
                                b as int,
                            ));
                            assert(before.push(b as int) =~= before + seq![b as int]);
                            assert(before + seq![b as int] + Seq::<int>::empty() =~= before + seq![
                                b as int,
                            ]);
                        }
                    } else {
                        proof {
                            assert(bounds@.map_values(|x: usize| x as int) + Seq::<int>::empty()
                                =~= bounds@.map_values(|x: usize| x as int));
                        }
                    }
                    return bounds;
                },
            }
        }
    }

    /// The default construction, with a 4096-byte working buffer.
    pub fn new(expected_size: usize, seed: u32) -> (r: RabinChunker)
        requires
            16 <= expected_size,
            expected_size <= 0x8000_0000usize,
            expected_size <= usize::MAX / 4,
        ensures
            r.buffered == 0,
            r.buffer@.len() == 4096,
            r.window_size == expected_size / 4 - 1,
            r.min_size == expected_size / 4,
            r.max_size == expected_size * 4,
            r.hash.alpha == RABIN_ALPHA,
            r.hash.seed == seed,
            r.hash.mask == rabin_mask(expected_size as nat),
            r.hash.pow_table@.len() == 256,
            r.wf(),
    {
        RabinChunker::with_capacity(expected_size, seed, 4096)
    }
}

} // verus!
