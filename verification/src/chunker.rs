//! The common chunker contract: a pull interface over in-memory data, and the
//! status a streaming chunker reports to its driver.

use vstd::prelude::*;

verus! {

/// What a streaming `next_chunk` call reports: `Working` after emitting a
/// complete chunk ended by a detected boundary, `Finished` once the input is
/// exhausted (the trailing partial chunk, if any, is written by that call).
#[derive(PartialEq, Eq, Structural, Clone, Copy, Debug)]
pub enum ChunkerStatus {
    Working,
    Finished,
}

/// The in-memory pull interface: `next_chunk(data, start)` returns the offset
/// where the chunk beginning at `start` ends, and `chunk` folds that into the
/// full boundary list of `data`.
pub trait Chunker: Sized {
    /// The type's internal invariant.
    spec fn wf(&self) -> bool;

    /// Where the chunk starting at `start` ends, as a pure function of the
    /// data and the chunker's parameters.
    spec fn next_bound_spec(&self, data: Seq<u8>, start: int) -> int;

    /// The full boundary list of `data`, as a pure function of the data and
    /// the chunker's parameters.
    spec fn bounds_spec(&self, data: Seq<u8>) -> Seq<int>;

    fn next_chunk(&mut self, data: &Vec<u8>, start: usize) -> (r: usize)
        requires
            old(self).wf(),
            start < data@.len(),
        ensures
            *final(self) == *old(self),
            r == old(self).next_bound_spec(data@, start as int),
            start < r <= data@.len(),
    ;

    fn chunk(&mut self, data: &Vec<u8>) -> (r: Vec<usize>)
        requires
            old(self).wf(),
        ensures
            *final(self) == *old(self),
            r@.map_values(|x: usize| x as int) == old(self).bounds_spec(data@),
    ;
}

} // verus!
