//! The asymmetric-extremum boundary detector over in-memory data.
//!
//! A chunk ends at the first position that lies exactly `window_size` bytes to
//! the right of a strict maximum of the chunk read so far; the comparison is
//! strict, so ties never move the maximum.  The boundary position itself
//! starts the next chunk.

use vstd::prelude::*;

use crate::chunker::Chunker;

verus! {

/// Numerator of a fixed-point rational approximation of Euler's number minus
/// one, scaled by `EULER_DEN`.
pub const EULER_NUM: u128 = 1718281828459045235;

/// Denominator (scale) of the rational approximation of `e - 1`.
pub const EULER_DEN: u128 = 1000000000000000000;

/// The extremum window derived from the expected chunk size: the nearest
/// integer to `avg / (e - 1)`, computed over the rational approximation.
pub open spec fn ae_window(avg: int) -> int {
    (2 * avg * (EULER_DEN as int) + (EULER_NUM as int)) / (2 * (EULER_NUM as int))
}

/// One scan step of the extremum detector: starting at position `i` with the
/// running maximum `mv` seen at position `mp`, the result is the boundary
/// position (which starts the next chunk), or the data length if the scan
/// runs out of bytes first.
pub open spec fn extremum_scan(data: Seq<u8>, i: int, mp: int, mv: u8, w: int) -> int
    decreases data.len() - i,
{
    if i < 0 || i >= data.len() {
        data.len() as int
    } else if data[i] > mv {
        extremum_scan(data, i + 1, i, data[i], w)
    } else if i == mp + w {
        i
    } else {
        extremum_scan(data, i + 1, mp, mv, w)
    }
}

/// Where the chunk starting at `start` ends: the scan begins one past
/// `start`, with the byte at `start` as the initial maximum.
pub open spec fn extremum_next(data: Seq<u8>, start: int, w: int) -> int {
    extremum_scan(data, start + 1, start, data[start], w)
}

pub proof fn lemma_extremum_scan_range(data: Seq<u8>, i: int, mp: int, mv: u8, w: int)
    requires
        0 <= i <= data.len(),
    ensures
        i <= extremum_scan(data, i, mp, mv, w) <= data.len(),
    decreases data.len() - i,
{
    if i < data.len() {
        if data[i] > mv {
            lemma_extremum_scan_range(data, i + 1, i, data[i], w);
        } else if i == mp + w {
        } else {
            lemma_extremum_scan_range(data, i + 1, mp, mv, w);
        }
    }
}

/// The boundary of the chunk starting at `start` lies strictly beyond
/// `start` and never beyond the end of the data.
pub proof fn lemma_extremum_next_range(data: Seq<u8>, start: int, w: int)
    requires
        0 <= start < data.len(),
    ensures
        start < extremum_next(data, start, w) <= data.len(),
{
    lemma_extremum_scan_range(data, start + 1, start, data[start], w);
}

/// The full boundary list from `start` on: each boundary starts the next
/// chunk, and the data length closes the list.
pub open spec fn extremum_bounds_from(data: Seq<u8>, start: int, w: int) -> Seq<int>
    decreases data.len() - start,
    via extremum_bounds_from_decreases
{
    if start < 0 || start >= data.len() {
        Seq::empty()
    } else {
        seq![extremum_next(data, start, w)] + extremum_bounds_from(
            data,
            extremum_next(data, start, w),
            w,
        )
    }
}

#[via_fn]
proof fn extremum_bounds_from_decreases(data: Seq<u8>, start: int, w: int) {
    if 0 <= start < data.len() {
        lemma_extremum_next_range(data, start, w);
    }
}

/// The boundary list of the whole input.
pub open spec fn extremum_bounds(data: Seq<u8>, w: int) -> Seq<int> {
    extremum_bounds_from(data, 0, w)
}

/// In-memory asymmetric-extremum chunker, parameterized by the extremum
/// window derived from the expected chunk size.
pub struct ChunkerAE {
    pub window_size: usize,
}

/// The nearest integer to `avg_size / (e - 1)`, over the rational
/// approximation of `e - 1`: the window that gives expected chunk length
/// `avg_size`.
pub fn derived_window(avg_size: usize) -> (w: usize)
    ensures
        w == ae_window(avg_size as int),
        w <= avg_size,
{
    let n: u128 = avg_size as u128;
    let num: u128 = 2 * n * EULER_DEN + EULER_NUM;
    let w: u128 = num / (2 * EULER_NUM);
    proof {
        let nn = n as int;
        let d = 2 * (EULER_NUM as int);
        vstd::arithmetic::div_mod::lemma_div_is_ordered(
            2 * nn * (EULER_DEN as int) + (EULER_NUM as int),
            d * nn + (EULER_NUM as int),
            d,
        );
        vstd::arithmetic::div_mod::lemma_div_multiples_vanish_fancy(nn, EULER_NUM as int, d);
        assert(w <= n);
    }
    w as usize
}

impl ChunkerAE {
    /// Derives the window as the nearest integer to `avg_size / (e - 1)`,
    /// which makes `avg_size` the expected chunk length.
    pub fn new(avg_size: usize) -> (r: ChunkerAE)
        ensures
            r.window_size == ae_window(avg_size as int),
    {
        ChunkerAE { window_size: derived_window(avg_size) }
    }
}

impl Chunker for ChunkerAE {
    open spec fn wf(&self) -> bool {
        true
    }

    open spec fn next_bound_spec(&self, data: Seq<u8>, start: int) -> int {
        extremum_next(data, start, self.window_size as int)
    }

    open spec fn bounds_spec(&self, data: Seq<u8>) -> Seq<int> {
        extremum_bounds(data, self.window_size as int)
    }

    fn next_chunk(&mut self, data: &Vec<u8>, start: usize) -> (r: usize) {
        let w = self.window_size;
        let n = data.len();
        let mut max_value: u8 = data[start];
        let mut max_position: usize = start;
        let mut i: usize = start + 1;
        proof {
            lemma_extremum_next_range(data@, start as int, w as int);
        }
        while i < n
            invariant
                w == self.window_size,
                n == data@.len(),
                start < data@.len(),
                start + 1 <= i <= data@.len(),
                max_position < i,
                extremum_scan(data@, i as int, max_position as int, max_value, w as int)
                    == extremum_next(data@, start as int, w as int),
                start < extremum_next(data@, start as int, w as int) <= data@.len(),
            decreases data@.len() - i,
        {
            let b = data[i];
            if b > max_value {
                max_value = b;
                max_position = i;
            } else if i - max_position == w {
                return i;
            }
            i += 1;
        }
        n
    }

    fn chunk(&mut self, data: &Vec<u8>) -> (r: Vec<usize>) {
        let ghost wi = self.window_size as int;
        let mut result: Vec<usize> = Vec::new();
        let mut next: usize = 0;
        while next < data.len()
            invariant
                *self == *old(self),
                wi == self.window_size as int,
                next <= data@.len(),
                result@.map_values(|x: usize| x as int)
                    + extremum_bounds_from(data@, next as int, wi)
                    == extremum_bounds(data@, wi),
            decreases data@.len() - next,
        {
            let ghost prev = next as int;
            let ghost before = result@.map_values(|x: usize| x as int);
            next = self.next_chunk(data, next);
            result.push(next);
            proof {
                assert(result@.map_values(|x: usize| x as int)
                    =~= before.push(next as int));
                assert(before.push(next as int)
                    + extremum_bounds_from(data@, next as int, wi)
                    =~= before
                    + (seq![next as int] + extremum_bounds_from(data@, next as int, wi)));
                assert(seq![next as int] + extremum_bounds_from(data@, next as int, wi)
                    == extremum_bounds_from(data@, prev, wi));
            }
        }
        proof {
            assert(result@.map_values(|x: usize| x as int)
                + extremum_bounds_from(data@, next as int, wi)
                =~= result@.map_values(|x: usize| x as int));
        }
        result
    }
}

/// The extremum window used by the standalone scan below.
pub const FIXED_WINDOW: usize = 15;

/// Standalone extremum scan with a fixed window of `FIXED_WINDOW` bytes:
/// returns the end of the chunk that starts at `start`.
pub fn chunking(data: Vec<u8>, start: usize) -> (r: usize)
    requires
        start < data@.len(),
    ensures
        r == extremum_next(data@, start as int, FIXED_WINDOW as int),
        start < r <= data@.len(),
{
    let n = data.len();
    let mut max_value: u8 = data[start];
    let mut max_position: usize = start;
    let mut i: usize = start + 1;
    proof {
        lemma_extremum_next_range(data@, start as int, FIXED_WINDOW as int);
    }
    while i < n
        invariant
            n == data@.len(),
            start < data@.len(),
            start + 1 <= i <= data@.len(),
            max_position < i,
            extremum_scan(data@, i as int, max_position as int, max_value, FIXED_WINDOW as int)
                == extremum_next(data@, start as int, FIXED_WINDOW as int),
            start < extremum_next(data@, start as int, FIXED_WINDOW as int) <= data@.len(),
        decreases data@.len() - i,
    {
        if data[i] > max_value {
            max_value = data[i];
            max_position = i;
        } else if i - max_position == FIXED_WINDOW {
            return i;
        }
        i += 1;
    }
    n
}

} // verus!
