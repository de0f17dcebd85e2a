//! The streaming asymmetric-extremum chunker.
//!
//! A chunk ends one byte past the first position that lies exactly
//! `window_size` bytes to the right of a strict maximum of the chunk so far;
//! the rolling maximum starts at zero and resets at every emission.  The
//! chunker reads through a bounded working buffer whose size never influences
//! the boundaries.

use vstd::prelude::*;

use crate::chunker::ChunkerStatus;
use crate::extremum::ae_window;
use crate::extremum::derived_window;

verus! {

/// One scan step of the streaming extremum detector: from position `i` with
/// running maximum `mv` seen at absolute position `mp`, the result is the
/// end (exclusive) of the current chunk and whether a boundary fired before
/// the data ran out.
pub open spec fn ae_scan(data: Seq<u8>, i: int, mp: int, mv: u8, w: int) -> (int, bool)
    decreases data.len() - i,
{
    if i < 0 || i >= data.len() {
        (data.len() as int, false)
    } else if data[i] > mv {
        ae_scan(data, i + 1, i, data[i], w)
    } else if i == mp + w {
        (i + 1, true)
    } else {
        ae_scan(data, i + 1, mp, mv, w)
    }
}

/// Where the chunk that starts at `cs` ends: the scan starts at `cs` with a
/// zero maximum pinned to `cs`.
pub open spec fn ae_next(data: Seq<u8>, cs: int, w: int) -> int {
    ae_scan(data, cs, cs, 0, w).0
}

/// Whether a boundary fires for the chunk that starts at `cs`, as opposed to
/// the chunk being cut short by the end of the data.
pub open spec fn ae_finds(data: Seq<u8>, cs: int, w: int) -> bool {
    ae_scan(data, cs, cs, 0, w).1
}

pub proof fn lemma_ae_scan_range(data: Seq<u8>, i: int, mp: int, mv: u8, w: int)
    requires
        0 <= i <= data.len(),
    ensures
        i <= ae_scan(data, i, mp, mv, w).0 <= data.len(),
    decreases data.len() - i,
{
    if i < data.len() {
        if data[i] > mv {
            lemma_ae_scan_range(data, i + 1, i, data[i], w);
        } else if i == mp + w {
        } else {
            lemma_ae_scan_range(data, i + 1, mp, mv, w);
        }
    }
}

/// When no boundary fires, the scan runs to the end of the data.
pub proof fn lemma_ae_scan_nofind(data: Seq<u8>, i: int, mp: int, mv: u8, w: int)
    requires
        0 <= i <= data.len(),
        !ae_scan(data, i, mp, mv, w).1,
    ensures
        ae_scan(data, i, mp, mv, w).0 == data.len(),
    decreases data.len() - i,
{
    if i < data.len() {
        if data[i] > mv {
            lemma_ae_scan_nofind(data, i + 1, i, data[i], w);
        } else if i == mp + w {
        } else {
            lemma_ae_scan_nofind(data, i + 1, mp, mv, w);
        }
    }
}

/// A chunk is never empty: its end lies strictly beyond its start.
pub proof fn lemma_ae_next_range(data: Seq<u8>, cs: int, w: int)
    requires
        0 <= cs < data.len(),
    ensures
        cs < ae_next(data, cs, w) <= data.len(),
{
    if data[cs] > 0 {
        lemma_ae_scan_range(data, cs + 1, cs, data[cs], w);
    } else if cs == cs + w {
    } else {
        lemma_ae_scan_range(data, cs + 1, cs, 0u8, w);
    }
}

/// The boundary list from chunk start `cs` on, each boundary exclusive of
/// the chunk it ends; the data length closes the list whenever a last
/// partial chunk remains.
pub open spec fn ae_bounds_from(data: Seq<u8>, cs: int, w: int) -> Seq<int>
    decreases data.len() - cs,
    via ae_bounds_from_decreases
{
    if cs < 0 || cs >= data.len() {
        Seq::empty()
    } else if ae_finds(data, cs, w) {
        seq![ae_next(data, cs, w)] + ae_bounds_from(data, ae_next(data, cs, w), w)
    } else {
        seq![data.len() as int]
    }
}

#[via_fn]
proof fn ae_bounds_from_decreases(data: Seq<u8>, cs: int, w: int) {
    if 0 <= cs < data.len() {
        lemma_ae_next_range(data, cs, w);
    }
}

/// The boundary list of the whole input: strictly increasing end-exclusive
/// offsets whose last entry is the input length.
pub open spec fn ae_bounds(data: Seq<u8>, w: int) -> Seq<int> {
    ae_bounds_from(data, 0, w)
}

/// Streaming asymmetric-extremum chunker: a bounded working buffer holding
/// the bytes read but not yet emitted, and the extremum window.
pub struct AeChunker {
    /// Working buffer; its length is the fixed capacity.
    pub buffer: Vec<u8>,
    /// How many bytes at the front of the buffer are read but not emitted.
    pub buffered: usize,
    /// The extremum window.
    pub window_size: usize,
}

/// The scan of `[start, right)` used by the parallel overlap strategy: the
/// rolling maximum is seeded with the byte at `start` and, at a boundary,
/// re-seeded with the byte one past it; boundary positions are recorded
/// inclusively.
pub open spec fn ae_gb_scan(data: Seq<u8>, i: int, right: int, mp: int, mv: u8, w: int) -> Seq<
    int,
>
    decreases right - i,
{
    if i < 0 || i >= right {
        Seq::empty()
    } else if data[i] > mv {
        ae_gb_scan(data, i + 1, right, i, data[i], w)
    } else if i == mp + w {
        if i + 1 != right {
            seq![i] + ae_gb_scan(data, i + 1, right, i + 1, data[i + 1], w)
        } else {
            seq![i]
        }
    } else {
        ae_gb_scan(data, i + 1, right, mp, mv, w)
    }
}

/// What `get_bounds` returns for the slab `[left, right)`: the scan starts
/// `w` bytes early to prime the rolling maximum, and the last position of
/// the data closes the list when the slab touches the end.
pub open spec fn ae_get_bounds_spec(data: Seq<u8>, left: int, right: int, w: int) -> Seq<int> {
    let start = if left >= w {
        left - w
    } else {
        0
    };
    ae_gb_scan(data, start, right, start, data[start], w) + (if right == data.len() {
        seq![data.len() - 1]
    } else {
        Seq::empty()
    })
}

impl AeChunker {
    /// Well-formedness: the buffer exists and the unemitted prefix leaves
    /// room to read.
    pub open spec fn wf(&self) -> bool {
        &&& 1 <= self.buffer@.len()
        &&& self.buffered < self.buffer@.len()
    }

    /// The chunker state is consistent with having read `pos` bytes of
    /// `input`: the buffer front holds exactly the bytes read but not yet
    /// emitted.
    pub open spec fn stream_inv(&self, input: Seq<u8>, pos: int) -> bool {
        &&& self.wf()
        &&& self.buffered <= pos <= input.len()
        &&& self.buffer@.subrange(0, self.buffered as int) == input.subrange(
            pos - self.buffered,
            pos,
        )
    }

    /// How many bytes have been emitted once `pos` bytes were read: the
    /// buffered tail is still pending.
    pub open spec fn emitted(&self, pos: int) -> int {
        pos - self.buffered
    }

    /// A chunker with the given window and working-buffer capacity.
    pub fn with_window_and_capacity(window_size: usize, capacity: usize) -> (r: AeChunker)
        requires
            capacity >= 1,
        ensures
            r.window_size == window_size,
            r.buffered == 0,
            r.buffer@.len() == capacity,
            r.wf(),
    {
        let mut buffer: Vec<u8> = Vec::new();
        let mut k: usize = 0;
        while k < capacity
            invariant
                k <= capacity,
                buffer@.len() == k,
            decreases capacity - k,
        {
            buffer.push(0);
            k += 1;
        }
        AeChunker { buffer, buffered: 0, window_size }
    }

    /// The default construction: the window is the nearest integer to
    /// `expected_size / (e - 1)`, which makes `expected_size` the expected
    /// chunk length; the working buffer is 4096 bytes.
    pub fn new(expected_size: usize) -> (r: AeChunker)
        ensures
            r.window_size == ae_window(expected_size as int),
            r.buffered == 0,
            r.buffer@.len() == 4096,
            r.wf(),
    {
        let w = derived_window(expected_size);
        AeChunker::with_window_and_capacity(w, 4096)
    }

    /// The alternative window derivation kept for output compatibility: a
    /// fixed offset below the expected size rather than the derivation from
    /// Euler's number.
    pub fn new_offset(expected_size: usize) -> (r: AeChunker)
        requires
            expected_size >= 256,
        ensures
            r.window_size == expected_size - 256,
            r.buffered == 0,
            r.buffer@.len() == 4096,
            r.wf(),
    {
        AeChunker::with_window_and_capacity(expected_size - 256, 4096)
    }

    /// The boundaries that fall in `[left, right)`, scanned with the rolling
    /// maximum primed from `window_size` bytes before `left`; used by the
    /// parallel overlap strategy.
    pub fn get_bounds(&self, vec: &Vec<u8>, left: usize, right: usize) -> (r: Vec<usize>)
        requires
            left < vec@.len(),
            right <= vec@.len(),
        ensures
            r@.map_values(|x: usize| x as int) == ae_get_bounds_spec(
                vec@,
                left as int,
                right as int,
                self.window_size as int,
            ),
    {
        let w = self.window_size;
        let mut result: Vec<usize> = Vec::new();
        let start = if left >= w {
            left - w
        } else {
            0
        };
        let mut max_val: u8 = vec[start];
        let mut max_pos: usize = start;
        let mut i: usize = start;
        while i < right
            invariant
                w == self.window_size,
                left < vec@.len(),
                right <= vec@.len(),
                start <= i,
                max_pos <= i,
                i <= right || i == start,
                result@.map_values(|x: usize| x as int) + ae_gb_scan(
                    vec@,
                    i as int,
                    right as int,
                    max_pos as int,
                    max_val,
                    w as int,
                ) == ae_gb_scan(vec@, start as int, right as int, start as int, vec@[start as int], w as int),
            decreases right - i,
        {
            let ghost before = result@.map_values(|x: usize| x as int);
            let b = vec[i];
            if b > max_val {
                max_val = b;
                max_pos = i;
            } else if i - max_pos == w {
                result.push(i);
                proof {
                    assert(result@.map_values(|x: usize| x as int) =~= before.push(i as int));
                }
                if i + 1 != right {
                    max_val = vec[i + 1];
                    max_pos = i + 1;
                    proof {
                        assert(before.push(i as int) + ae_gb_scan(
                            vec@,
                            i + 1,
                            right as int,
                            i + 1,
                            vec@[i + 1],
                            w as int,
                        ) =~= before + (seq![i as int] + ae_gb_scan(
                            vec@,
                            i + 1,
                            right as int,
                            i + 1,
                            vec@[i + 1],
                            w as int,
                        )));
                    }
                } else {
                    proof {
                        assert(before.push(i as int) + ae_gb_scan(
                            vec@,
                            i + 1,
                            right as int,
                            max_pos as int,
                            max_val,
                            w as int,
                        ) =~= before + seq![i as int]);
                    }
                }
            }
            i += 1;
        }
        proof {
            assert(result@.map_values(|x: usize| x as int) + ae_gb_scan(
                vec@,
                i as int,
                right as int,
                max_pos as int,
                max_val,
                w as int,
            ) =~= result@.map_values(|x: usize| x as int));
        }
        if right == vec.len() {
            let ghost before = result@.map_values(|x: usize| x as int);
            result.push(vec.len() - 1);
            proof {
                assert(result@.map_values(|x: usize| x as int) =~= before + seq![
                    vec@.len() - 1,
                ]);
            }
        } else {
            proof {
                assert(result@.map_values(|x: usize| x as int) + Seq::<int>::empty()
                    =~= result@.map_values(|x: usize| x as int));
            }
        }
        result
    }

    /// Reads the next chunk of `input` (a cursor at `*pos` stands for the
    /// byte stream) and appends its bytes to `output`.  Exactly the chunk
    /// starting at the emission watermark is written, its end a pure
    /// function of the input and the window — never of the buffer capacity.
    /// `Working` reports a detected boundary; `Finished` reports that the
    /// input ran out, after writing the trailing partial chunk, if any.
    pub fn next_chunk(&mut self, input: &Vec<u8>, pos: &mut usize, output: &mut Vec<u8>) -> (status:
        ChunkerStatus)
        requires
            old(self).stream_inv(input@, *old(pos) as int),
        ensures
            final(self).stream_inv(input@, *final(pos) as int),
            final(self).window_size == old(self).window_size,
            final(self).buffer@.len() == old(self).buffer@.len(),
            *old(pos) <= *final(pos) <= input@.len(),
            final(self).emitted(*final(pos) as int) == ae_next(
                input@,
                old(self).emitted(*old(pos) as int),
                old(self).window_size as int,
            ),
            final(output)@ == old(output)@ + input@.subrange(
                old(self).emitted(*old(pos) as int),
                ae_next(input@, old(self).emitted(*old(pos) as int), old(self).window_size as int),
            ),
            status == (if ae_finds(
                input@,
                old(self).emitted(*old(pos) as int),
                old(self).window_size as int,
            ) {
                ChunkerStatus::Working
            } else {
                ChunkerStatus::Finished
            }),
    {
        let w = self.window_size;
        let n = input.len();
        let ghost e0 = old(self).emitted(*old(pos) as int);
        let ghost out0 = output@;
        let mut local_pos: usize = 0;
        let mut max_pos: usize = 0;
        let mut max_val: u8 = 0;
        loop
            invariant
                self.window_size == w,
                w == old(self).window_size,
                self.buffer@.len() == old(self).buffer@.len(),
                n == input@.len(),
                self.stream_inv(input@, *pos as int),
                *old(pos) <= *pos,
                e0 == old(self).emitted(*old(pos) as int),
                0 <= e0,
                e0 <= *pos - self.buffered,
                local_pos == (*pos - self.buffered) - e0,
                max_pos <= local_pos,
                out0 == old(output)@,
                output@ == out0 + input@.subrange(e0, *pos - self.buffered),
                ae_scan(input@, *pos - self.buffered, e0 + max_pos, max_val, w as int) == ae_scan(
                    input@,
                    e0,
                    e0,
                    0u8,
                    w as int,
                ),
            decreases n - *pos + self.buffered,
        {
            // refill the working buffer from the input
            let cap = self.buffer.len();
            let space = cap - self.buffered;
            let remaining = n - *pos;
            let k = if space < remaining {
                space
            } else {
                remaining
            };
            let ghost pos0 = *pos as int;
            let ghost b0 = self.buffered as int;
            let mut j: usize = 0;
            while j < k
                invariant
                    j <= k,
                    self.buffered == b0,
                    self.window_size == w,
                    self.buffer@.len() == cap as int,
                    self.buffer@.len() == old(self).buffer@.len(),
                    b0 + k <= cap as int,
                    n == input@.len(),
                    *pos == pos0,
                    0 <= pos0 - b0,
                    pos0 + k <= n as int,
                    self.buffer@.subrange(0, b0 + j) == input@.subrange(pos0 - b0, pos0 + j),
                decreases k - j,
            {
                let v = input[*pos + j];
                self.buffer[self.buffered + j] = v;
                j += 1;
                proof {
                    assert(self.buffer@.subrange(0, b0 + j) =~= input@.subrange(
                        pos0 - b0,
                        pos0 + j,
                    ));
                }
            }
            let avail = self.buffered + k;
            *pos = *pos + k;
            if avail == 0 {
                // nothing buffered and the input is exhausted
                proof {
                    assert(*pos == n);
                    assert(ae_scan(input@, *pos - self.buffered, e0 + max_pos, max_val, w as int)
                        == ((n as int), false));
                }
                return ChunkerStatus::Finished;
            }
            // scan the buffered bytes for a boundary
            let ghost a0 = *pos as int - avail as int;
            let ghost bufsnap0 = self.buffer@;
            let mut i: usize = 0;
            while i < avail
                invariant
                    i <= avail,
                    avail as int <= self.buffer@.len(),
                    self.buffer@ == bufsnap0,
                    self.window_size == w,
                    w == old(self).window_size,
                    self.buffered + k == avail,
                    self.buffer@.len() == old(self).buffer@.len(),
                    1 <= self.buffer@.len(),
                    n == input@.len(),
                    *pos <= n,
                    *old(pos) <= *pos,
                    0 <= e0 <= a0,
                    e0 == old(self).emitted(*old(pos) as int),
                    a0 == *pos as int - avail as int,
                    self.buffer@.subrange(0, avail as int) == input@.subrange(a0, *pos as int),
                    local_pos == a0 + i - e0,
                    max_pos <= local_pos,
                    out0 == old(output)@,
                    output@ == out0 + input@.subrange(e0, a0),
                    ae_scan(input@, a0 + i, e0 + max_pos, max_val, w as int) == ae_scan(
                        input@,
                        e0,
                        e0,
                        0u8,
                        w as int,
                    ),
                decreases avail - i,
            {
                let cur_val = self.buffer[i];
                proof {
                    assert(self.buffer@.subrange(0, avail as int)[i as int] == input@.subrange(
                        a0,
                        *pos as int,
                    )[i as int]);
                    assert(cur_val == input@[a0 + i]);
                }
                if cur_val > max_val {
                    max_val = cur_val;
                    max_pos = local_pos;
                } else if local_pos - max_pos == w {
                    // boundary found: emit the chunk bytes up to and
                    // including this one
                    let ghost bnd = a0 + i + 1;
                    proof {
                        assert(ae_scan(input@, e0, e0, 0u8, w as int) == (bnd, true));
                    }
                    let mut t: usize = 0;
                    while t < i + 1
                        invariant
                            t <= i + 1,
                            i < avail,
                            avail as int <= self.buffer@.len(),
                            self.buffer@ == bufsnap0,
                            n == input@.len(),
                            *pos <= n,
                            0 <= e0 <= a0,
                            a0 == *pos as int - avail as int,
                            self.buffer@.subrange(0, avail as int) == input@.subrange(
                                a0,
                                *pos as int,
                            ),
                            out0 == old(output)@,
                            output@ == out0 + input@.subrange(e0, a0 + t),
                        decreases i + 1 - t,
                    {
                        let v = self.buffer[t];
                        output.push(v);
                        proof {
                            assert(self.buffer@.subrange(0, avail as int)[t as int]
                                == input@.subrange(a0, *pos as int)[t as int]);
                            assert(v == input@[a0 + t]);
                            assert((out0 + input@.subrange(e0, a0 + t)).push(v) =~= out0
                                + input@.subrange(e0, a0 + t + 1));
                        }
                        t += 1;
                    }
                    // move the unscanned tail to the front of the buffer
                    let m = avail - i - 1;
                    let ghost bufsnap = self.buffer@;
                    let mut t2: usize = 0;
                    while t2 < m
                        invariant
                            t2 <= m,
                            m == avail - i - 1,
                            i < avail,
                            avail as int <= self.buffer@.len(),
                            self.window_size == old(self).window_size,
                            self.buffer@.len() == bufsnap.len(),
                            forall|u: int|
                                t2 <= u < bufsnap.len() ==> self.buffer@[u] == bufsnap[u],
                            forall|u: int| 0 <= u < t2 ==> self.buffer@[u] == bufsnap[i + 1 + u],
                        decreases m - t2,
                    {
                        let v = self.buffer[i + 1 + t2];
                        self.buffer[t2] = v;
                        t2 += 1;
                    }
                    self.buffered = m;
                    proof {
                        assert forall|u: int| 0 <= u < m as int implies self.buffer@[u]
                            == input@[*pos - m + u] by {
                            assert(self.buffer@[u] == bufsnap[i + 1 + u]);
                            assert(bufsnap.subrange(0, avail as int)[i + 1 + u] == input@.subrange(
                                a0,
                                *pos as int,
                            )[i + 1 + u]);
                        }
                        assert(self.buffer@.subrange(0, m as int) =~= input@.subrange(
                            *pos as int - m,
                            *pos as int,
                        ));
                    }
                    return ChunkerStatus::Working;
                }
                local_pos += 1;
                i += 1;
            }
            // no boundary in the buffer: emit all buffered bytes and refill
            let mut t: usize = 0;
            while t < avail
                invariant
                    t <= avail,
                    avail as int <= self.buffer@.len(),
                    self.buffer@ == bufsnap0,
                    n == input@.len(),
                    *pos <= n,
                    0 <= e0 <= a0,
                    a0 == *pos as int - avail as int,
                    self.buffer@.subrange(0, avail as int) == input@.subrange(a0, *pos as int),
                    out0 == old(output)@,
                    output@ == out0 + input@.subrange(e0, a0 + t),
                decreases avail - t,
            {
                let v = self.buffer[t];
                output.push(v);
                proof {
                    assert(self.buffer@.subrange(0, avail as int)[t as int] == input@.subrange(
                        a0,
                        *pos as int,
                    )[t as int]);
                    assert(v == input@[a0 + t]);
                    assert((out0 + input@.subrange(e0, a0 + t)).push(v) =~= out0 + input@.subrange(
                        e0,
                        a0 + t + 1,
                    ));
                }
                t += 1;
            }
            self.buffered = 0;
            proof {
                assert(self.buffer@.subrange(0, 0int) =~= input@.subrange(
                    *pos as int,
                    *pos as int,
                ));
            }
        }
    }

    /// Chunks the whole of `data` by driving `next_chunk` to completion and
    /// returns the boundary list: the end-exclusive offsets where chunks
    /// end, the data length closing the list whenever any bytes exist.
    pub fn chunk(&mut self, data: &Vec<u8>) -> (bounds: Vec<usize>)
        requires
            old(self).wf(),
            old(self).buffered == 0,
        ensures
            bounds@.map_values(|x: usize| x as int) == ae_bounds(
                data@,
                old(self).window_size as int,
            ),
            final(self).window_size == old(self).window_size,
            final(self).buffer@.len() == old(self).buffer@.len(),
    {
        let ghost w = old(self).window_size as int;
        let mut pos: usize = 0;
        let mut out: Vec<u8> = Vec::new();
        let mut bounds: Vec<usize> = Vec::new();
        proof {
            assert(self.buffer@.subrange(0, 0int) =~= data@.subrange(0int, 0int));
        }
        loop
            invariant
                self.stream_inv(data@, pos as int),
                self.window_size == old(self).window_size,
                self.buffer@.len() == old(self).buffer@.len(),
                w == old(self).window_size as int,
                bounds@.map_values(|x: usize| x as int) + ae_bounds_from(
                    data@,
                    pos - self.buffered,
                    w,
                ) == ae_bounds(data@, w),
            decreases data@.len() - (pos - self.buffered),
        {
            let ghost e = pos - self.buffered as int;
            let ghost before = bounds@.map_values(|x: usize| x as int);
            let e_before = pos - self.buffered;
            let status = self.next_chunk(data, &mut pos, &mut out);
            match status {
                ChunkerStatus::Working => {
                    let b = pos - self.buffered;
                    bounds.push(b);
                    proof {
                        lemma_ae_next_range(data@, e, w);
                        assert(bounds@.map_values(|x: usize| x as int) =~= before.push(b as int));
                        assert(before.push(b as int) + ae_bounds_from(data@, b as int, w) =~= before
                            + (seq![b as int] + ae_bounds_from(data@, b as int, w)));
                    }
                },
                ChunkerStatus::Finished => {
                    if e_before < data.len() {
                        let b = data.len();
                        bounds.push(b);
                        proof {
                            assert(bounds@.map_values(|x: usize| x as int) =~= before.push(
                                b as int,
                            ));
                            assert(before.push(b as int) =~= before + seq![b as int]);
                            assert(before + seq![b as int] + Seq::<int>::empty() =~= before + seq![
                                b as int,
                            ]);
                        }
                    } else {
                        proof {
                            assert(bounds@.map_values(|x: usize| x as int) + Seq::<int>::empty()
                                =~= bounds@.map_values(|x: usize| x as int));
                        }
                    }
                    return bounds;
                },
            }
        }
    }
}

/// The chunk contents that a driver collecting one chunk per `next_chunk`
/// call gathers, in order; the final `Finished` call contributes the
/// trailing partial chunk — empty when the input ends exactly at a boundary
/// or is itself empty.
pub open spec fn ae_pieces_from(data: Seq<u8>, cs: int, w: int) -> Seq<Seq<u8>>
    decreases data.len() - cs,
    via ae_pieces_from_decreases
{
    if cs < 0 || cs >= data.len() {
        seq![Seq::empty()]
    } else if ae_finds(data, cs, w) {
        seq![data.subrange(cs, ae_next(data, cs, w))] + ae_pieces_from(
            data,
            ae_next(data, cs, w),
            w,
        )
    } else {
        seq![data.subrange(cs, data.len() as int)]
    }
}

#[via_fn]
proof fn ae_pieces_from_decreases(data: Seq<u8>, cs: int, w: int) {
    if 0 <= cs < data.len() {
        lemma_ae_next_range(data, cs, w);
    }
}

/// All chunk contents of `data`, in emission order.
pub open spec fn ae_pieces(data: Seq<u8>, w: int) -> Seq<Seq<u8>> {
    ae_pieces_from(data, 0, w)
}

impl AeChunker {
    /// Collects every chunk of `data` as its own byte vector by driving
    /// `next_chunk` until it reports `Finished`; the final call's chunk is
    /// kept even when empty, mirroring a driver that cannot know beforehand
    /// that the stream ended at a boundary.
    pub fn collect_pieces(&mut self, data: &Vec<u8>) -> (pieces: Vec<Vec<u8>>)
        requires
            old(self).wf(),
            old(self).buffered == 0,
        ensures
            pieces@.map_values(|p: Vec<u8>| p@) == ae_pieces(data@, old(self).window_size as int),
            pieces@.len() >= 1,
            final(self).window_size == old(self).window_size,
            final(self).buffer@.len() == old(self).buffer@.len(),
    {
        let ghost w = old(self).window_size as int;
        let mut pos: usize = 0;
        let mut pieces: Vec<Vec<u8>> = Vec::new();
        let mut cur: Vec<u8> = Vec::new();
        proof {
            assert(self.buffer@.subrange(0, 0int) =~= data@.subrange(0int, 0int));
        }
        loop
            invariant
                self.stream_inv(data@, pos as int),
                self.window_size == old(self).window_size,
                self.buffer@.len() == old(self).buffer@.len(),
                w == old(self).window_size as int,
                cur@ == Seq::<u8>::empty(),
                pieces@.map_values(|p: Vec<u8>| p@) + ae_pieces_from(
                    data@,
                    pos - self.buffered,
                    w,
                ) == ae_pieces(data@, w),
            decreases data@.len() - (pos - self.buffered),
        {
            let ghost e = pos - self.buffered as int;
            let ghost before = pieces@.map_values(|p: Vec<u8>| p@);
            let status = self.next_chunk(data, &mut pos, &mut cur);
            proof {
                if e < data@.len() {
                    lemma_ae_next_range(data@, e, w);
                }
                if !ae_finds(data@, e, w) {
                    lemma_ae_scan_nofind(data@, e, e, 0u8, w);
                }
                assert(cur@ =~= data@.subrange(e, ae_next(data@, e, w)));
            }
            match status {
                ChunkerStatus::Working => {
                    pieces.push(cur);
                    cur = Vec::new();
                    proof {
                        lemma_ae_next_range(data@, e, w);
                        let b = ae_next(data@, e, w);
                        assert(pieces@.map_values(|p: Vec<u8>| p@) =~= before.push(
                            data@.subrange(e, b),
                        ));
                        assert(before.push(data@.subrange(e, b)) + ae_pieces_from(data@, b, w)
                            =~= before + (seq![data@.subrange(e, b)] + ae_pieces_from(
                            data@,
                            b,
                            w,
                        )));
                    }
                },
                ChunkerStatus::Finished => {
                    pieces.push(cur);
                    proof {
                        let fin = pieces@.map_values(|p: Vec<u8>| p@);
                        if e < data@.len() {
                            assert(fin =~= before + seq![data@.subrange(e, data@.len() as int)]);
                        } else {
                            assert(fin =~= before + seq![Seq::<u8>::empty()]);
                        }
                    }
                    return pieces;
                },
            }
        }
    }
}

} // verus!
