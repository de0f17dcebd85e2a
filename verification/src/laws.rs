//! The properties the chunkers are held to, stated once and proved from
//! the contracts: coverage, determinism, behaviour on empty input,
//! buffer-size independence, chunk-size bounds, the extremum window
//! property, and shift realignment.

use vstd::prelude::*;

use crate::ae::ae_bounds;
use crate::ae::ae_bounds_from;
use crate::ae::ae_finds;
use crate::ae::ae_next;
use crate::ae::ae_scan;
use crate::extremum::extremum_bounds;
use crate::extremum::extremum_bounds_from;
use crate::extremum::extremum_next;
use crate::fastcdc::fc_bounds;
use crate::fastcdc::fc_bounds_from;
use crate::fastcdc::fc_finds;
use crate::fastcdc::fc_next;
use crate::fastcdc::fc_scan;
use crate::fastcdc::FcParams;
use crate::rabin::rb_bounds;
use crate::rabin::rb_bounds_from;
use crate::rabin::rb_finds;
use crate::rabin::rb_next;
use crate::rabin::rb_scan;
use crate::rabin::RbParams;

verus! {

/// A boundary list is a chain from `start` to `end`: each entry lies
/// between its predecessor and `end`, and the last entry is `end`.
pub open spec fn bounds_chain(bounds: Seq<int>, start: int, end: int) -> bool
    decreases bounds.len(),
{
    if bounds.len() == 0 {
        start == end
    } else {
        start <= bounds.first() <= end && bounds_chain(bounds.drop_first(), bounds.first(), end)
    }
}

/// The concatenation of the chunks that a boundary list cuts out of
/// `data`, starting at `start`.
pub open spec fn chunks_concat(data: Seq<u8>, bounds: Seq<int>, start: int) -> Seq<u8>
    decreases bounds.len(),
{
    if bounds.len() == 0 {
        Seq::empty()
    } else {
        data.subrange(start, bounds.first()) + chunks_concat(
            data,
            bounds.drop_first(),
            bounds.first(),
        )
    }
}

/// Chunks cut along a chain reproduce the bytes between its ends.
pub proof fn lemma_chain_concat(data: Seq<u8>, bounds: Seq<int>, start: int)
    requires
        0 <= start <= data.len(),
        bounds_chain(bounds, start, data.len() as int),
    ensures
        chunks_concat(data, bounds, start) == data.subrange(start, data.len() as int),
    decreases bounds.len(),
{
    if bounds.len() == 0 {
        assert(chunks_concat(data, bounds, start) =~= data.subrange(
            start,
            data.len() as int,
        ));
    } else {
        let b = bounds.first();
        lemma_chain_concat(data, bounds.drop_first(), b);
        assert(data.subrange(start, b) + data.subrange(b, data.len() as int) =~= data.subrange(
            start,
            data.len() as int,
        ));
    }
}

proof fn lemma_ae_bounds_chain(data: Seq<u8>, cs: int, w: int)
    requires
        0 <= cs <= data.len(),
    ensures
        bounds_chain(ae_bounds_from(data, cs, w), cs, data.len() as int),
    decreases data.len() - cs,
{
    if cs < data.len() {
        crate::ae::lemma_ae_next_range(data, cs, w);
        let bs = ae_bounds_from(data, cs, w);
        if ae_finds(data, cs, w) {
            let b = ae_next(data, cs, w);
            lemma_ae_bounds_chain(data, b, w);
            assert(bs.first() == b);
            assert(bs.drop_first() =~= ae_bounds_from(data, b, w));
        } else {
            crate::ae::lemma_ae_scan_nofind(data, cs, cs, 0, w);
            assert(bs.first() == data.len() as int);
            assert(bs.drop_first() =~= Seq::<int>::empty());
            assert(bounds_chain(Seq::<int>::empty(), data.len() as int, data.len() as int));
        }
    }
}

proof fn lemma_extremum_bounds_chain(data: Seq<u8>, cs: int, w: int)
    requires
        0 <= cs <= data.len(),
    ensures
        bounds_chain(extremum_bounds_from(data, cs, w), cs, data.len() as int),
    decreases data.len() - cs,
{
    if cs < data.len() {
        crate::extremum::lemma_extremum_next_range(data, cs, w);
        let bs = extremum_bounds_from(data, cs, w);
        let b = extremum_next(data, cs, w);
        lemma_extremum_bounds_chain(data, b, w);
        assert(bs.drop_first() =~= extremum_bounds_from(data, b, w));
    }
}

proof fn lemma_rb_bounds_chain(data: Seq<u8>, cs: int, ps: RbParams)
    requires
        0 <= cs <= data.len(),
    ensures
        bounds_chain(rb_bounds_from(data, cs, ps), cs, data.len() as int),
    decreases data.len() - cs,
{
    if cs < data.len() {
        crate::rabin::lemma_rb_next_range(data, cs, ps);
        let bs = rb_bounds_from(data, cs, ps);
        if rb_finds(data, cs, ps) {
            let b = rb_next(data, cs, ps);
            lemma_rb_bounds_chain(data, b, ps);
            assert(bs.first() == b);
            assert(bs.drop_first() =~= rb_bounds_from(data, b, ps));
        } else {
            crate::rabin::lemma_rb_scan_nofind(data, cs, cs, 0, ps);
            assert(bs.first() == data.len() as int);
            assert(bs.drop_first() =~= Seq::<int>::empty());
            assert(bounds_chain(Seq::<int>::empty(), data.len() as int, data.len() as int));
        }
    }
}

proof fn lemma_fc_bounds_chain(data: Seq<u8>, cs: int, ps: FcParams)
    requires
        0 <= cs <= data.len(),
    ensures
        bounds_chain(fc_bounds_from(data, cs, ps), cs, data.len() as int),
    decreases data.len() - cs,
{
    if cs < data.len() {
        crate::fastcdc::lemma_fc_next_range(data, cs, ps);
        let bs = fc_bounds_from(data, cs, ps);
        if fc_finds(data, cs, ps) {
            let b = fc_next(data, cs, ps);
            lemma_fc_bounds_chain(data, b, ps);
            assert(bs.first() == b);
            assert(bs.drop_first() =~= fc_bounds_from(data, b, ps));
        } else {
            crate::fastcdc::lemma_fc_scan_nofind(data, cs, cs, 0, ps);
            assert(bs.first() == data.len() as int);
            assert(bs.drop_first() =~= Seq::<int>::empty());
            assert(bounds_chain(Seq::<int>::empty(), data.len() as int, data.len() as int));
        }
    }
}

/// Coverage: the chunks cut along the streaming extremum boundary list,
/// concatenated in order, are exactly the input — for every input.
pub proof fn lemma_ae_coverage(data: Seq<u8>, w: int)
    ensures
        chunks_concat(data, ae_bounds(data, w), 0) == data,
{
    lemma_ae_bounds_chain(data, 0, w);
    lemma_chain_concat(data, ae_bounds(data, w), 0);
    assert(data.subrange(0, data.len() as int) =~= data);
}

/// Coverage for the in-memory extremum chunker's boundary list.
pub proof fn lemma_extremum_coverage(data: Seq<u8>, w: int)
    ensures
        chunks_concat(data, extremum_bounds(data, w), 0) == data,
{
    lemma_extremum_bounds_chain(data, 0, w);
    lemma_chain_concat(data, extremum_bounds(data, w), 0);
    assert(data.subrange(0, data.len() as int) =~= data);
}

/// Coverage for the Rabin boundary list.
pub proof fn lemma_rb_coverage(data: Seq<u8>, ps: RbParams)
    ensures
        chunks_concat(data, rb_bounds(data, ps), 0) == data,
{
    lemma_rb_bounds_chain(data, 0, ps);
    lemma_chain_concat(data, rb_bounds(data, ps), 0);
    assert(data.subrange(0, data.len() as int) =~= data);
}

/// Coverage for the FastCDC boundary list.
pub proof fn lemma_fc_coverage(data: Seq<u8>, ps: FcParams)
    ensures
        chunks_concat(data, fc_bounds(data, ps), 0) == data,
{
    lemma_fc_bounds_chain(data, 0, ps);
    lemma_chain_concat(data, fc_bounds(data, ps), 0);
    assert(data.subrange(0, data.len() as int) =~= data);
}

/// Empty input produces zero chunks, whatever the algorithm.
pub proof fn lemma_empty_input(w: int, rps: RbParams, fps: FcParams)
    ensures
        ae_bounds(Seq::empty(), w) == Seq::<int>::empty(),
        extremum_bounds(Seq::empty(), w) == Seq::<int>::empty(),
        rb_bounds(Seq::empty(), rps) == Seq::<int>::empty(),
        fc_bounds(Seq::empty(), fps) == Seq::<int>::empty(),
{
}

/// Determinism: the boundary list is a pure function of the input and the
/// construction parameters, so two runs with the same of each agree —
/// whatever buffer sizes or call patterns produced the two lists.
pub proof fn lemma_determinism(
    data: Seq<u8>,
    w: int,
    rps: RbParams,
    fps: FcParams,
    a1: Seq<int>,
    a2: Seq<int>,
    r1: Seq<int>,
    r2: Seq<int>,
    f1: Seq<int>,
    f2: Seq<int>,
)
    requires
        a1 == ae_bounds(data, w),
        a2 == ae_bounds(data, w),
        r1 == rb_bounds(data, rps),
        r2 == rb_bounds(data, rps),
        f1 == fc_bounds(data, fps),
        f2 == fc_bounds(data, fps),
    ensures
        a1 == a2,
        r1 == r2,
        f1 == f2,
{
}

/// Buffer-size independence: two streaming extremum chunkers with the same
/// window produce the same boundary list whatever their working-buffer
/// capacities, since the list depends on the window alone.
pub proof fn lemma_ae_buffer_independence(
    data: Seq<u8>,
    c1: crate::ae::AeChunker,
    c2: crate::ae::AeChunker,
    b1: Seq<int>,
    b2: Seq<int>,
)
    requires
        c1.window_size == c2.window_size,
        b1 == ae_bounds(data, c1.window_size as int),
        b2 == ae_bounds(data, c2.window_size as int),
    ensures
        b1 == b2,
{
}

/// Buffer-size independence for the Rabin and FastCDC chunkers: the
/// boundary list depends on the scan parameters alone, which say nothing
/// of the buffer.
pub proof fn lemma_hash_buffer_independence(
    data: Seq<u8>,
    rc1: crate::rabin::RabinChunker,
    rc2: crate::rabin::RabinChunker,
    fc1: crate::fastcdc::FastCdcChunker,
    fc2: crate::fastcdc::FastCdcChunker,
    r1: Seq<int>,
    r2: Seq<int>,
    f1: Seq<int>,
    f2: Seq<int>,
)
    requires
        rc1.params() == rc2.params(),
        fc1.params() == fc2.params(),
        r1 == rb_bounds(data, rc1.params()),
        r2 == rb_bounds(data, rc2.params()),
        f1 == fc_bounds(data, fc1.params()),
        f2 == fc_bounds(data, fc2.params()),
    ensures
        r1 == r2,
        f1 == f2,
{
}

/// Where the chunk beginning at `bs[k-1]` — or at `cs` for the first
/// chunk — starts.
pub open spec fn bound_start(bs: Seq<int>, k: int, cs: int) -> int {
    if k == 0 {
        cs
    } else {
        bs[k - 1]
    }
}

proof fn lemma_rb_scan_upper(data: Seq<u8>, i: int, cs: int, h: u32, ps: RbParams)
    requires
        0 <= cs <= i <= data.len(),
        i - cs <= ps.max,
        0 <= ps.max,
    ensures
        rb_scan(data, i, cs, h, ps).0 - cs <= ps.max + 1,
    decreases data.len() - i,
{
    if i < data.len() {
        let p = i - cs;
        if p >= ps.max {
        } else {
            let h1 = vstd::wrapping::u32_specs::wrapping_add(
                vstd::wrapping::u32_specs::wrapping_mul(h, ps.alpha),
                data[i] as u32,
            );
            if p >= ps.w {
                let h2 = vstd::wrapping::u32_specs::wrapping_sub(
                    h1,
                    ps.pow[data[i - ps.w] as int],
                );
                if p >= ps.min && ((h2 ^ ps.seed) & ps.mask) == 0 {
                } else {
                    lemma_rb_scan_upper(data, i + 1, cs, h2, ps);
                }
            } else {
                lemma_rb_scan_upper(data, i + 1, cs, h1, ps);
            }
        }
    }
}

proof fn lemma_rb_scan_lower(data: Seq<u8>, i: int, cs: int, h: u32, ps: RbParams)
    requires
        cs <= i <= data.len(),
        0 <= ps.min <= ps.max,
    ensures
        rb_scan(data, i, cs, h, ps).1 ==> rb_scan(data, i, cs, h, ps).0 - cs >= ps.min + 1,
    decreases data.len() - i,
{
    if i < data.len() {
        let p = i - cs;
        if p >= ps.max {
        } else {
            let h1 = vstd::wrapping::u32_specs::wrapping_add(
                vstd::wrapping::u32_specs::wrapping_mul(h, ps.alpha),
                data[i] as u32,
            );
            if p >= ps.w {
                let h2 = vstd::wrapping::u32_specs::wrapping_sub(
                    h1,
                    ps.pow[data[i - ps.w] as int],
                );
                if p >= ps.min && ((h2 ^ ps.seed) & ps.mask) == 0 {
                } else {
                    lemma_rb_scan_lower(data, i + 1, cs, h2, ps);
                }
            } else {
                lemma_rb_scan_lower(data, i + 1, cs, h1, ps);
            }
        }
    }
}

/// Rabin chunk sizes: every chunk spans 1 to `max + 1` bytes, and every
/// internal chunk — all but possibly the last — spans at least `min + 1`.
pub proof fn lemma_rb_chunk_sizes(data: Seq<u8>, cs: int, ps: RbParams)
    requires
        0 <= cs <= data.len(),
        0 <= ps.min <= ps.max,
    ensures
        ({
            let bs = rb_bounds_from(data, cs, ps);
            &&& forall|k: int|
                0 <= k < bs.len() ==> 1 <= #[trigger] bs[k] - bound_start(bs, k, cs) <= ps.max + 1
            &&& forall|k: int|
                0 <= k < bs.len() - 1 ==> #[trigger] bs[k] - bound_start(bs, k, cs) >= ps.min + 1
        }),
    decreases data.len() - cs,
{
    if cs < data.len() {
        crate::rabin::lemma_rb_next_range(data, cs, ps);
        lemma_rb_scan_upper(data, cs, cs, 0, ps);
        lemma_rb_scan_lower(data, cs, cs, 0, ps);
        let bs = rb_bounds_from(data, cs, ps);
        if rb_finds(data, cs, ps) {
            let b = rb_next(data, cs, ps);
            lemma_rb_chunk_sizes(data, b, ps);
            let rest = rb_bounds_from(data, b, ps);
            assert forall|k: int|
                0 <= k < bs.len() implies 1 <= #[trigger] bs[k] - bound_start(bs, k, cs)
                <= ps.max + 1 by {
                if k == 0 {
                    assert(bs[0] == b);
                } else {
                    assert(bs[k] == rest[k - 1]);
                    if k == 1 {
                        assert(bound_start(bs, k, cs) == b);
                    } else {
                        assert(bs[k - 1] == rest[k - 2]);
                    }
                    assert(rest[k - 1] - bound_start(rest, k - 1, b) >= 1);
                }
            }
            assert forall|k: int|
                0 <= k < bs.len() - 1 implies #[trigger] bs[k] - bound_start(bs, k, cs)
                >= ps.min + 1 by {
                if k == 0 {
                    assert(bs[0] == b);
                } else {
                    assert(bs[k] == rest[k - 1]);
                    if k == 1 {
                        assert(bound_start(bs, k, cs) == b);
                    } else {
                        assert(bs[k - 1] == rest[k - 2]);
                    }
                    assert(rest[k - 1] - bound_start(rest, k - 1, b) >= ps.min + 1);
                }
            }
        } else {
            crate::rabin::lemma_rb_scan_nofind(data, cs, cs, 0, ps);
            assert(bs[0] == data.len() as int);
        }
    }
}

proof fn lemma_fc_scan_upper(data: Seq<u8>, i: int, cs: int, h: u64, ps: FcParams)
    requires
        0 <= cs <= i <= data.len(),
        i - cs <= ps.max,
        0 <= ps.min <= ps.max,
    ensures
        fc_scan(data, i, cs, h, ps).0 - cs <= ps.max + 1,
    decreases data.len() - i,
{
    if i < data.len() {
        let p = i - cs;
        if p >= ps.min {
            let h2 = vstd::wrapping::u64_specs::wrapping_add(h << 1u64, ps.gear[data[i] as int]);
            if (p < ps.expected && (h2 & ps.short_mask) == 0) || (p >= ps.expected && (h2
                & ps.long_mask) == 0) || p >= ps.max {
            } else {
                lemma_fc_scan_upper(data, i + 1, cs, h2, ps);
            }
        } else {
            lemma_fc_scan_upper(data, i + 1, cs, h, ps);
        }
    }
}

proof fn lemma_fc_scan_lower(data: Seq<u8>, i: int, cs: int, h: u64, ps: FcParams)
    requires
        cs <= i <= data.len(),
        0 <= ps.min,
    ensures
        fc_scan(data, i, cs, h, ps).1 ==> fc_scan(data, i, cs, h, ps).0 - cs >= ps.min + 1,
    decreases data.len() - i,
{
    if i < data.len() {
        let p = i - cs;
        if p >= ps.min {
            let h2 = vstd::wrapping::u64_specs::wrapping_add(h << 1u64, ps.gear[data[i] as int]);
            if (p < ps.expected && (h2 & ps.short_mask) == 0) || (p >= ps.expected && (h2
                & ps.long_mask) == 0) || p >= ps.max {
            } else {
                lemma_fc_scan_lower(data, i + 1, cs, h2, ps);
            }
        } else {
            lemma_fc_scan_lower(data, i + 1, cs, h, ps);
        }
    }
}

/// FastCDC chunk sizes: every chunk spans 1 to `max + 1` bytes, and every
/// internal chunk — all but possibly the last — spans at least `min + 1`.
pub proof fn lemma_fc_chunk_sizes(data: Seq<u8>, cs: int, ps: FcParams)
    requires
        0 <= cs <= data.len(),
        0 <= ps.min <= ps.max,
    ensures
        ({
            let bs = fc_bounds_from(data, cs, ps);
            &&& forall|k: int|
                0 <= k < bs.len() ==> 1 <= #[trigger] bs[k] - bound_start(bs, k, cs) <= ps.max + 1
            &&& forall|k: int|
                0 <= k < bs.len() - 1 ==> #[trigger] bs[k] - bound_start(bs, k, cs) >= ps.min + 1
        }),
    decreases data.len() - cs,
{
    if cs < data.len() {
        crate::fastcdc::lemma_fc_next_range(data, cs, ps);
        lemma_fc_scan_upper(data, cs, cs, 0, ps);
        lemma_fc_scan_lower(data, cs, cs, 0, ps);
        let bs = fc_bounds_from(data, cs, ps);
        if fc_finds(data, cs, ps) {
            let b = fc_next(data, cs, ps);
            lemma_fc_chunk_sizes(data, b, ps);
            let rest = fc_bounds_from(data, b, ps);
            assert forall|k: int|
                0 <= k < bs.len() implies 1 <= #[trigger] bs[k] - bound_start(bs, k, cs)
                <= ps.max + 1 by {
                if k == 0 {
                    assert(bs[0] == b);
                } else {
                    assert(bs[k] == rest[k - 1]);
                    if k == 1 {
                        assert(bound_start(bs, k, cs) == b);
                    } else {
                        assert(bs[k - 1] == rest[k - 2]);
                    }
                    assert(rest[k - 1] - bound_start(rest, k - 1, b) >= 1);
                }
            }
            assert forall|k: int|
                0 <= k < bs.len() - 1 implies #[trigger] bs[k] - bound_start(bs, k, cs)
                >= ps.min + 1 by {
                if k == 0 {
                    assert(bs[0] == b);
                } else {
                    assert(bs[k] == rest[k - 1]);
                    if k == 1 {
                        assert(bound_start(bs, k, cs) == b);
                    } else {
                        assert(bs[k - 1] == rest[k - 2]);
                    }
                    assert(rest[k - 1] - bound_start(rest, k - 1, b) >= ps.min + 1);
                }
            }
        } else {
            crate::fastcdc::lemma_fc_scan_nofind(data, cs, cs, 0, ps);
            assert(bs[0] == data.len() as int);
        }
    }
}

/// The position of the rolling maximum at the moment a boundary fires, for
/// the scan state `(i, mp, mv)`; meaningful only when a boundary fires.
pub open spec fn ae_scan_maxpos(data: Seq<u8>, i: int, mp: int, mv: u8, w: int) -> int
    decreases data.len() - i,
{
    if i < 0 || i >= data.len() {
        -1
    } else if data[i] > mv {
        ae_scan_maxpos(data, i + 1, i, data[i], w)
    } else if i == mp + w {
        mp
    } else {
        ae_scan_maxpos(data, i + 1, mp, mv, w)
    }
}

/// The position of the extremum that ends the chunk starting at `cs`.
pub open spec fn ae_cut_max(data: Seq<u8>, cs: int, w: int) -> int {
    ae_scan_maxpos(data, cs, cs, 0, w)
}

proof fn lemma_ae_scan_maxpos(data: Seq<u8>, cs: int, i: int, mp: int, mv: u8, w: int)
    requires
        0 <= cs <= mp <= i <= data.len(),
        forall|j: int| cs <= j < i ==> #[trigger] data[j] <= mv,
        mv == data[mp] || (mv == 0 && mp == cs),
        forall|j: int| cs <= j < mp ==> #[trigger] data[j] < mv,
        ae_scan(data, i, mp, mv, w).1,
    ensures
        ({
            let b = ae_scan(data, i, mp, mv, w).0;
            let m = ae_scan_maxpos(data, i, mp, mv, w);
            &&& cs <= m
            &&& m + w + 1 == b
            &&& forall|j: int| cs <= j < m ==> #[trigger] data[j] < data[m]
            &&& forall|j: int| m < j < b ==> #[trigger] data[j] <= data[m]
        }),
    decreases data.len() - i,
{
    if i < data.len() {
        if data[i] > mv {
            lemma_ae_scan_maxpos(data, cs, i + 1, i, data[i], w);
        } else if i == mp + w {
            let m = mp;
            let b = i + 1;
            assert forall|j: int| m < j < b implies #[trigger] data[j] <= data[m] by {
                assert(data[j] <= mv);
                if mv == data[mp] {
                } else {
                    assert(mv == 0 && mp == cs);
                }
            }
        } else {
            lemma_ae_scan_maxpos(data, cs, i + 1, mp, mv, w);
        }
    }
}

/// The extremum window property: when a boundary ends the chunk starting
/// at `cs`, the chunk holds a position `m`, exactly `w + 1` bytes before
/// its end, whose byte strictly exceeds every earlier byte of the chunk
/// and is matched by no later byte of it other than as a tie.
pub proof fn lemma_ae_window_property(data: Seq<u8>, cs: int, w: int)
    requires
        0 <= cs <= data.len(),
        ae_finds(data, cs, w),
    ensures
        ({
            let b = ae_next(data, cs, w);
            let m = ae_cut_max(data, cs, w);
            &&& cs <= m
            &&& m + w + 1 == b
            &&& forall|j: int| cs <= j < m ==> #[trigger] data[j] < data[m]
            &&& forall|j: int| m < j < b ==> #[trigger] data[j] <= data[m]
        }),
{
    lemma_ae_scan_maxpos(data, cs, cs, cs, 0, w);
}

proof fn lemma_ae_scan_translate(prefix: Seq<u8>, data: Seq<u8>, i: int, mp: int, mv: u8, w: int)
    requires
        0 <= i <= data.len(),
    ensures
        ae_scan(prefix + data, prefix.len() + i, prefix.len() + mp, mv, w) == ((prefix.len()
            + ae_scan(data, i, mp, mv, w).0) as int, ae_scan(data, i, mp, mv, w).1),
    decreases data.len() - i,
{
    if i < data.len() {
        assert((prefix + data)[prefix.len() + i] == data[i]);
        if data[i] > mv {
            lemma_ae_scan_translate(prefix, data, i + 1, i, data[i], w);
        } else if i == mp + w {
        } else {
            lemma_ae_scan_translate(prefix, data, i + 1, mp, mv, w);
        }
    }
}

/// Shift realignment: the boundaries that the extremum chunker finds after
/// a chunk start aligned with one of the unshifted input are the unshifted
/// boundaries, each moved by the length of the inserted prefix.  Once a
/// shifted run reaches such a chunk start, all later boundaries align.
pub proof fn lemma_ae_shift_realign(prefix: Seq<u8>, data: Seq<u8>, cs: int, w: int)
    requires
        0 <= cs <= data.len(),
    ensures
        ae_bounds_from(prefix + data, prefix.len() + cs, w) == ae_bounds_from(
            data,
            cs,
            w,
        ).map_values(|b: int| prefix.len() + b),
    decreases data.len() - cs,
{
    let pl = prefix.len() as int;
    let whole = prefix + data;
    if cs >= data.len() {
        assert(ae_bounds_from(whole, pl + cs, w) =~= ae_bounds_from(data, cs, w).map_values(
            |b: int| pl + b,
        ));
    } else {
        lemma_ae_scan_translate(prefix, data, cs, cs, 0, w);
        crate::ae::lemma_ae_next_range(data, cs, w);
        let b = ae_next(data, cs, w);
        if ae_finds(data, cs, w) {
            lemma_ae_shift_realign(prefix, data, b, w);
            assert(ae_bounds_from(whole, pl + cs, w) =~= ae_bounds_from(data, cs, w).map_values(
                |x: int| pl + x,
            ));
        } else {
            crate::ae::lemma_ae_scan_nofind(data, cs, cs, 0, w);
            assert(ae_bounds_from(whole, pl + cs, w) =~= ae_bounds_from(data, cs, w).map_values(
                |x: int| pl + x,
            ));
        }
    }
}

/// The chunk contents that a boundary list cuts out of `data`, in order.
pub open spec fn chunk_slices(data: Seq<u8>, bounds: Seq<int>, start: int) -> Seq<Seq<u8>>
    decreases bounds.len(),
{
    if bounds.len() == 0 {
        Seq::empty()
    } else {
        seq![data.subrange(start, bounds.first())] + chunk_slices(
            data,
            bounds.drop_first(),
            bounds.first(),
        )
    }
}

/// Streaming equivalence: the chunk contents a streaming driver collects
/// are exactly the slices between consecutive in-memory boundaries; when
/// the stream ends exactly at a detected boundary the driver also records
/// one empty trailing chunk, since it cannot know beforehand that no bytes
/// remain.
pub proof fn lemma_ae_pieces_match_bounds(data: Seq<u8>, cs: int, w: int)
    requires
        0 <= cs <= data.len(),
    ensures
        crate::ae::ae_pieces_from(data, cs, w) == chunk_slices(
            data,
            ae_bounds_from(data, cs, w),
            cs,
        ) || crate::ae::ae_pieces_from(data, cs, w) == chunk_slices(
            data,
            ae_bounds_from(data, cs, w),
            cs,
        ).push(Seq::empty()),
    decreases data.len() - cs,
{
    let pieces = crate::ae::ae_pieces_from(data, cs, w);
    let bs = ae_bounds_from(data, cs, w);
    if cs >= data.len() {
        assert(pieces =~= chunk_slices(data, bs, cs).push(Seq::empty()));
    } else if ae_finds(data, cs, w) {
        let b = ae_next(data, cs, w);
        crate::ae::lemma_ae_next_range(data, cs, w);
        lemma_ae_pieces_match_bounds(data, b, w);
        assert(bs.first() == b);
        assert(bs.drop_first() =~= ae_bounds_from(data, b, w));
        let rest_pieces = crate::ae::ae_pieces_from(data, b, w);
        let rest_slices = chunk_slices(data, ae_bounds_from(data, b, w), b);
        let head = data.subrange(cs, b);
        assert(pieces == seq![head] + rest_pieces);
        assert(chunk_slices(data, bs, cs) == seq![head] + rest_slices);
        if rest_pieces == rest_slices {
            assert(pieces == chunk_slices(data, bs, cs));
        } else {
            assert(rest_pieces == rest_slices.push(Seq::<u8>::empty()));
            assert((seq![head] + rest_slices).push(Seq::<u8>::empty()) =~= seq![head]
                + rest_slices.push(Seq::<u8>::empty()));
            assert(pieces == chunk_slices(data, bs, cs).push(Seq::empty()));
        }
    } else {
        assert(bs.first() == data.len() as int);
        assert(bs.drop_first() =~= Seq::<int>::empty());
        assert(chunk_slices(data, bs.drop_first(), bs.first()) =~= Seq::<Seq<u8>>::empty());
        assert(pieces =~= chunk_slices(data, bs, cs));
    }
}

/// The reconciliation guarantee of the overlap strategy: every accepted
/// boundary lies at least a window past the previously accepted one (or
/// past the position one before the initial chunk start), so the
/// duplicates produced by overlapping slab scans are rejected.
pub proof fn lemma_accepted_bounds_spacing(es: Seq<int>, k: int, next_start: int, w: int)
    ensures
        ({
            let acc = crate::parallel::accepted_bounds(es, k, next_start, w);
            forall|j: int|
                0 <= j < acc.len() ==> #[trigger] acc[j] - (if j == 0 {
                    next_start - 1
                } else {
                    acc[j - 1]
                }) >= w
        }),
    decreases es.len() - k,
{
    let acc = crate::parallel::accepted_bounds(es, k, next_start, w);
    if 0 <= k < es.len() {
        if es[k] + 1 - next_start >= w {
            let e = es[k];
            lemma_accepted_bounds_spacing(es, k + 1, e + 1, w);
            let rest = crate::parallel::accepted_bounds(es, k + 1, e + 1, w);
            assert forall|j: int|
                0 <= j < acc.len() implies #[trigger] acc[j] - (if j == 0 {
                next_start - 1
            } else {
                acc[j - 1]
            }) >= w by {
                if j == 0 {
                    assert(acc[0] == e);
                } else {
                    assert(acc[j] == rest[j - 1]);
                    if j == 1 {
                        assert(acc[0] == e);
                        assert(rest[0] - (e + 1 - 1) >= w);
                    } else {
                        assert(acc[j - 1] == rest[j - 2]);
                        assert(rest[j - 1] - rest[j - 2] >= w);
                    }
                }
            }
        } else {
            lemma_accepted_bounds_spacing(es, k + 1, next_start, w);
            assert(acc == crate::parallel::accepted_bounds(es, k + 1, next_start, w));
        }
    } else {
        assert(acc.len() == 0);
    }
}

} // verus!

