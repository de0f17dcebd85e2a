//! The fixed-size reference chunker: boundaries fall every `chunk_size`
//! bytes regardless of content.  It exists as the trivial baseline against
//! which the content-defined chunkers are compared.

use vstd::prelude::*;

use crate::chunker::ChunkerStatus;

verus! {

/// Where the chunk that starts at `cs` ends in an input of length `len`:
/// `chunk_size` bytes later, or at the end of the input.
pub open spec fn fixed_next(len: int, cs: int, chunk_size: int) -> int {
    if cs + chunk_size <= len {
        cs + chunk_size
    } else {
        len
    }
}

/// Whether a full chunk fits, which is what makes `next_chunk` report
/// `Working` rather than `Finished`.
pub open spec fn fixed_finds(len: int, cs: int, chunk_size: int) -> bool {
    1 <= chunk_size && cs + chunk_size <= len
}

/// Fixed-size chunker: a working buffer and the constant chunk length.
pub struct FixedChunker {
    /// Working buffer; its length is the fixed capacity.
    pub buffer: Vec<u8>,
    /// The constant chunk length.
    pub chunk_size: usize,
}

impl FixedChunker {
    /// Well-formedness: the working buffer exists.
    pub open spec fn wf(&self) -> bool {
        1 <= self.buffer@.len()
    }

    /// A chunker cutting every `chunk_size` bytes, with the given working
    /// buffer capacity.
    pub fn with_capacity(chunk_size: usize, capacity: usize) -> (r: FixedChunker)
        requires
            capacity >= 1,
        ensures
            r.chunk_size == chunk_size,
            r.buffer@.len() == capacity,
            r.wf(),
    {
        let mut buffer: Vec<u8> = Vec::new();
        let mut k: usize = 0;
        while k < capacity
            invariant
                k <= capacity,
                buffer@.len() == k,
            decreases capacity - k,
        {
            buffer.push(0);
            k += 1;
        }
        FixedChunker { buffer, chunk_size }
    }

    /// A chunker cutting every `expected_size` bytes, with a 4096-byte
    /// working buffer.
    pub fn new(expected_size: usize) -> (r: FixedChunker)
        ensures
            r.chunk_size == expected_size,
            r.buffer@.len() == 4096,
            r.wf(),
    {
        FixedChunker::with_capacity(expected_size, 4096)
    }

    /// Reads the next chunk of `input` (a cursor at `*pos` stands for the
    /// byte stream) and appends its bytes to `output`: exactly `chunk_size`
    /// bytes, or whatever remains of the input.  `Working` reports a full
    /// chunk; `Finished` reports that the input ran out first.
    pub fn next_chunk(&mut self, input: &Vec<u8>, pos: &mut usize, output: &mut Vec<u8>) -> (status:
        ChunkerStatus)
        requires
            old(self).wf(),
            *old(pos) <= input@.len(),
        ensures
            final(self).chunk_size == old(self).chunk_size,
            final(self).buffer@.len() == old(self).buffer@.len(),
            final(self).wf(),
            *final(pos) == fixed_next(
                input@.len() as int,
                *old(pos) as int,
                old(self).chunk_size as int,
            ),
            final(output)@ == old(output)@ + input@.subrange(*old(pos) as int, *final(pos) as int),
            status == (if fixed_finds(
                input@.len() as int,
                *old(pos) as int,
                old(self).chunk_size as int,
            ) {
                ChunkerStatus::Working
            } else {
                ChunkerStatus::Finished
            }),
    {
        let n = input.len();
        let cap = self.buffer.len();
        let ghost e0 = *old(pos) as int;
        let ghost c = old(self).chunk_size as int;
        let ghost out0 = output@;
        let mut remainder = self.chunk_size;
        loop
            invariant
                self.chunk_size == old(self).chunk_size,
                self.buffer@.len() == old(self).buffer@.len(),
                self.wf(),
                cap == self.buffer@.len(),
                n == input@.len(),
                e0 == *old(pos) as int,
                c == old(self).chunk_size as int,
                remainder <= c,
                remainder == 0 ==> c == 0,
                *pos == e0 + (c - remainder),
                e0 <= *pos <= n,
                out0 == old(output)@,
                output@ == out0 + input@.subrange(e0, *pos as int),
            decreases remainder,
        {
            let to_read = if remainder < cap {
                remainder
            } else {
                cap
            };
            let left = n - *pos;
            let k = if to_read < left {
                to_read
            } else {
                left
            };
            // read the next `k` bytes into the buffer front
            let ghost pos0 = *pos as int;
            let ghost selfsnap = *self;
            let mut j: usize = 0;
            while j < k
                invariant
                    j <= k,
                    k as int <= self.buffer@.len(),
                    n == input@.len(),
                    *pos == pos0,
                    pos0 + k <= n,
                    self.buffer@.len() == selfsnap.buffer@.len(),
                    selfsnap.buffer@.len() == old(self).buffer@.len(),
                    self.chunk_size == old(self).chunk_size,
                    self.buffer@.subrange(0, j as int) == input@.subrange(pos0, pos0 + j),
                decreases k - j,
            {
                let v = input[*pos + j];
                self.buffer[j] = v;
                j += 1;
                proof {
                    assert(self.buffer@.subrange(0, j as int) =~= input@.subrange(
                        pos0,
                        pos0 + j,
                    ));
                }
            }
            *pos = *pos + k;
            if k == 0 {
                return ChunkerStatus::Finished;
            }
            // write the bytes just read
            let ghost bufsnap = self.buffer@;
            let mut t: usize = 0;
            while t < k
                invariant
                    t <= k,
                    k as int <= self.buffer@.len(),
                    self.buffer@ == bufsnap,
                    n == input@.len(),
                    *pos == pos0 + k,
                    pos0 + k <= n,
                    0 <= e0 <= pos0,
                    self.buffer@.subrange(0, k as int) == input@.subrange(pos0, pos0 + k),
                    out0 == old(output)@,
                    output@ == out0 + input@.subrange(e0, pos0 + t),
                decreases k - t,
            {
                let v = self.buffer[t];
                output.push(v);
                proof {
                    assert(self.buffer@.subrange(0, k as int)[t as int] == input@.subrange(
                        pos0,
                        pos0 + k,
                    )[t as int]);
                    assert((out0 + input@.subrange(e0, pos0 + t)).push(v) =~= out0
                        + input@.subrange(e0, pos0 + t + 1));
                }
                t += 1;
            }
            remainder = remainder - k;
            if remainder == 0 {
                return ChunkerStatus::Working;
            }
        }
    }
}

} // verus!
