//! Parallel chunking drivers and the deduplication accounting they share.
//!
//! Two strategies cover the three algorithms.  The overlap scan partitions
//! the input into slabs and scans each with its rolling state primed from
//! one window before the slab, then reconciles the collected boundaries in
//! one serial pass.  The seam stitch chunks each slab independently, keeps
//! every chunk except the one touching the seam, and re-chunks the joined
//! seam regions afterwards.  Both count duplicate chunks by a 64-bit
//! content hash over a set.

use rayon::iter::IndexedParallelIterator;
use rayon::iter::IntoParallelIterator;
use rayon::iter::IntoParallelRefIterator;
use rayon::iter::ParallelIterator;
use vstd::prelude::*;

use crate::ae::ae_get_bounds_spec;
use crate::ae::ae_pieces;
use crate::ae::AeChunker;
use crate::extremum::ae_window;

verus! {

broadcast use vstd::set::group_set_axioms;

/// Offset basis of the 64-bit Fowler–Noll–Vo hash.
pub const FNV_OFFSET: u64 = 0xcbf29ce484222325;

/// Prime of the 64-bit Fowler–Noll–Vo hash.
pub const FNV_PRIME: u64 = 0x100000001b3;

/// The 64-bit Fowler–Noll–Vo hash of a byte sequence: each byte is folded
/// in by exclusive-or, then a wrapping multiply by the prime.
pub open spec fn fnv1a(s: Seq<u8>) -> u64
    decreases s.len(),
{
    if s.len() == 0 {
        FNV_OFFSET
    } else {
        vstd::wrapping::u64_specs::wrapping_mul(
            fnv1a(s.drop_last()) ^ (s.last() as u64),
            FNV_PRIME,
        )
    }
}

/// The content hash used to tell duplicate chunks apart.
pub fn hash_vec(v: &Vec<u8>) -> (r: u64)
    ensures
        r == fnv1a(v@),
{
    let mut h: u64 = FNV_OFFSET;
    let mut i: usize = 0;
    while i < v.len()
        invariant
            i <= v@.len(),
            h == fnv1a(v@.subrange(0, i as int)),
        decreases v@.len() - i,
    {
        let b = v[i];
        h = (h ^ (b as u64)).wrapping_mul(FNV_PRIME);
        i += 1;
        proof {
            assert(v@.subrange(0, i as int).drop_last() =~= v@.subrange(0, i - 1));
            assert(v@.subrange(0, i as int).last() == v@[i - 1]);
        }
    }
    proof {
        assert(v@.subrange(0, v@.len() as int) =~= v@);
    }
    h
}

/// A set of chunk hashes, kept as a duplicate-free vector.
pub struct DedupSet {
    /// The members, each exactly once.
    pub items: Vec<u64>,
}

impl DedupSet {
    /// The mathematical set of members.
    pub open spec fn set(&self) -> Set<u64> {
        self.items@.to_set()
    }

    /// The members are pairwise distinct.
    pub open spec fn wf(&self) -> bool {
        self.items@.no_duplicates()
    }

    /// The empty set.
    pub fn new() -> (r: DedupSet)
        ensures
            r.set() == Set::<u64>::empty(),
            r.wf(),
    {
        let r = DedupSet { items: Vec::new() };
        proof {
            assert(r.set() =~= Set::<u64>::empty());
        }
        r
    }

    /// Membership.
    pub fn contains(&self, x: u64) -> (r: bool)
        ensures
            r == self.set().contains(x),
    {
        let mut i: usize = 0;
        while i < self.items.len()
            invariant
                i <= self.items@.len(),
                forall|t: int| 0 <= t < i ==> self.items@[t] != x,
            decreases self.items@.len() - i,
        {
            if self.items[i] == x {
                return true;
            }
            i += 1;
        }
        false
    }

    /// Adds a member; doing nothing if it is already present.
    pub fn insert(&mut self, x: u64)
        requires
            old(self).wf(),
        ensures
            final(self).wf(),
            final(self).set() == old(self).set().insert(x),
    {
        if !self.contains(x) {
            self.items.push(x);
            proof {
                let s_old = old(self).items@;
                let s_new = self.items@;
                assert(s_new.drop_last() =~= s_old);
                assert(s_new.no_duplicates());
                assert forall|a: u64| #[trigger] s_new.contains(a) implies s_old.contains(a) || a
                    == x by {
                    let j = choose|j: int| 0 <= j < s_new.len() && s_new[j] == a;
                    if j < s_old.len() {
                        assert(s_old[j] == a);
                    }
                }
                assert forall|a: u64| s_old.contains(a) implies s_new.contains(a) by {
                    let j = choose|j: int| 0 <= j < s_old.len() && s_old[j] == a;
                    assert(s_new[j] == a);
                }
                assert(s_new[s_new.len() - 1] == x);
                assert(self.set() =~= old(self).set().insert(x));
            }
        } else {
            proof {
                assert(self.set() =~= old(self).set().insert(x));
            }
        }
    }

    /// Adds every member of `other`.
    pub fn extend_from(&mut self, other: &DedupSet)
        requires
            old(self).wf(),
        ensures
            final(self).wf(),
            final(self).set() == old(self).set().union(other.set()),
    {
        let mut i: usize = 0;
        while i < other.items.len()
            invariant
                self.wf(),
                i <= other.items@.len(),
                self.set() == old(self).set().union(
                    other.items@.subrange(0, i as int).to_set(),
                ),
            decreases other.items@.len() - i,
        {
            let x = other.items[i];
            self.insert(x);
            i += 1;
            proof {
                let s = other.items@;
                let a1 = s.subrange(0, i as int);
                let a0 = s.subrange(0, i - 1);
                assert forall|a: u64| #[trigger] a1.contains(a) implies a0.contains(a) || a == s[i
                    - 1] by {
                    let j = choose|j: int| 0 <= j < a1.len() && a1[j] == a;
                    if j < a0.len() {
                        assert(a0[j] == a);
                    }
                }
                assert forall|a: u64| a0.contains(a) implies a1.contains(a) by {
                    let j = choose|j: int| 0 <= j < a0.len() && a0[j] == a;
                    assert(a1[j] == a);
                }
                assert(a1[a1.len() - 1] == s[i - 1]);
                assert(a1.to_set() =~= a0.to_set().insert(s[i - 1]));
                assert(self.set() =~= old(self).set().union(a1.to_set()));
            }
        }
        proof {
            assert(other.items@.subrange(0, other.items@.len() as int) =~= other.items@);
            assert(self.set() =~= old(self).set().union(other.set()));
        }
    }

    /// How many members the set has.
    pub fn len(&self) -> (r: usize)
        requires
            self.wf(),
        ensures
            r == self.set().len(),
    {
        proof {
            self.items@.unique_seq_to_set();
        }
        self.items.len()
    }
}

/// Folding one chunk into the deduplication account: a chunk whose hash was
/// already seen adds nothing; a new one adds its hash and its length.
pub open spec fn dedup_add(seen: Set<u64>, acc: int, piece: Seq<u8>) -> (Set<u64>, int) {
    if seen.contains(fnv1a(piece)) {
        (seen, acc)
    } else {
        (seen.insert(fnv1a(piece)), acc + piece.len())
    }
}

/// The deduplication account over the chunks `lo..hi` of `pieces`.
pub open spec fn dedup_fold(pieces: Seq<Seq<u8>>, lo: int, hi: int, seen: Set<u64>, acc: int) -> (
    Set<u64>,
    int,
)
    decreases hi - lo,
{
    if lo >= hi {
        (seen, acc)
    } else {
        let st = dedup_add(seen, acc, pieces[lo]);
        dedup_fold(pieces, lo + 1, hi, st.0, st.1)
    }
}

/// The total length of the sequences `lo..hi` of `pieces`.
pub open spec fn len_sum(pieces: Seq<Seq<u8>>, lo: int, hi: int) -> int
    decreases hi - lo,
{
    if lo >= hi {
        0
    } else {
        pieces[lo].len() + len_sum(pieces, lo + 1, hi)
    }
}

pub proof fn lemma_len_sum_split(pieces: Seq<Seq<u8>>, lo: int, mid: int, hi: int)
    requires
        lo <= mid <= hi,
    ensures
        len_sum(pieces, lo, hi) == len_sum(pieces, lo, mid) + len_sum(pieces, mid, hi),
    decreases mid - lo,
{
    if lo < mid {
        lemma_len_sum_split(pieces, lo + 1, mid, hi);
    }
}

pub proof fn lemma_len_sum_nonneg(pieces: Seq<Seq<u8>>, lo: int, hi: int)
    ensures
        len_sum(pieces, lo, hi) >= 0,
    decreases hi - lo,
{
    if lo < hi {
        lemma_len_sum_nonneg(pieces, lo + 1, hi);
    }
}

/// The account's count grows by at most the bytes folded in.
pub proof fn lemma_dedup_fold_acc(pieces: Seq<Seq<u8>>, lo: int, hi: int, seen: Set<u64>, acc: int)
    ensures
        acc <= dedup_fold(pieces, lo, hi, seen, acc).1 <= acc + len_sum(pieces, lo, hi),
    decreases hi - lo,
{
    if lo < hi {
        let st = dedup_add(seen, acc, pieces[lo]);
        lemma_dedup_fold_acc(pieces, lo + 1, hi, st.0, st.1);
    } else {
        lemma_len_sum_nonneg(pieces, lo, hi);
    }
}

/// Folds the chunks `lo..hi` of `pieces` into the running deduplication
/// account `(seen, ans)` and returns the grown byte count.
pub fn dedup_accumulate(
    seen: &mut DedupSet,
    ans: usize,
    pieces: &Vec<Vec<u8>>,
    lo: usize,
    hi: usize,
) -> (r: usize)
    requires
        old(seen).wf(),
        lo <= hi <= pieces@.len(),
        ans + len_sum(pieces@.map_values(|p: Vec<u8>| p@), lo as int, hi as int) <= usize::MAX,
    ensures
        final(seen).wf(),
        (final(seen).set(), r as int) == dedup_fold(
            pieces@.map_values(|p: Vec<u8>| p@),
            lo as int,
            hi as int,
            old(seen).set(),
            ans as int,
        ),
{
    let ghost ps = pieces@.map_values(|p: Vec<u8>| p@);
    let mut result: usize = ans;
    let mut k: usize = lo;
    while k < hi
        invariant
            seen.wf(),
            lo <= k <= hi <= pieces@.len(),
            ps == pieces@.map_values(|p: Vec<u8>| p@),
            dedup_fold(ps, k as int, hi as int, seen.set(), result as int) == dedup_fold(
                ps,
                lo as int,
                hi as int,
                old(seen).set(),
                ans as int,
            ),
            result + len_sum(ps, k as int, hi as int) <= usize::MAX,
        decreases hi - k,
    {
        let h = hash_vec(&pieces[k]);
        proof {
            assert(ps[k as int] == pieces@[k as int]@);
            lemma_len_sum_nonneg(ps, k + 1, hi as int);
        }
        if !seen.contains(h) {
            seen.insert(h);
            result = result + pieces[k].len();
        }
        k += 1;
    }
    result
}

/// A fresh copy of a byte vector.
pub fn copy_bytes(v: &Vec<u8>) -> (r: Vec<u8>)
    ensures
        r@ == v@,
{
    let mut r: Vec<u8> = Vec::new();
    let mut i: usize = 0;
    while i < v.len()
        invariant
            i <= v@.len(),
            r@ == v@.subrange(0, i as int),
        decreases v@.len() - i,
    {
        let b = v[i];
        r.push(b);
        i += 1;
        proof {
            assert(r@ =~= v@.subrange(0, i as int));
        }
    }
    proof {
        assert(v@.subrange(0, v@.len() as int) =~= v@);
    }
    r
}

/// The two vectors, one after the other.
pub fn concat_bytes(a: &Vec<u8>, b: &Vec<u8>) -> (r: Vec<u8>)
    ensures
        r@ == a@ + b@,
{
    let mut r = copy_bytes(a);
    let mut i: usize = 0;
    while i < b.len()
        invariant
            i <= b@.len(),
            r@ == a@ + b@.subrange(0, i as int),
        decreases b@.len() - i,
    {
        let v = b[i];
        r.push(v);
        i += 1;
        proof {
            assert(r@ =~= a@ + b@.subrange(0, i as int));
        }
    }
    proof {
        assert(a@ + b@.subrange(0, b@.len() as int) =~= a@ + b@);
    }
    r
}

proof fn lemma_len_sum_cons(x: Seq<u8>, r: Seq<Seq<u8>>, lo: int, hi: int)
    requires
        1 <= lo <= hi <= r.len() + 1,
    ensures
        len_sum(seq![x] + r, lo, hi) == len_sum(r, lo - 1, hi - 1),
    decreases hi - lo,
{
    if lo < hi {
        assert((seq![x] + r)[lo] == r[lo - 1]);
        lemma_len_sum_cons(x, r, lo + 1, hi);
    }
}

/// One chunk is never longer than all chunks in a range together.
pub proof fn lemma_len_sum_elem(pieces: Seq<Seq<u8>>, lo: int, hi: int, k: int)
    requires
        lo <= k < hi,
    ensures
        pieces[k].len() <= len_sum(pieces, lo, hi),
    decreases k - lo,
{
    lemma_len_sum_nonneg(pieces, lo + 1, hi);
    if lo < k {
        lemma_len_sum_elem(pieces, lo + 1, hi, k);
    }
}

/// The chunks of a suffix together hold exactly the bytes of that suffix.
pub proof fn lemma_ae_pieces_sum(data: Seq<u8>, cs: int, w: int)
    requires
        0 <= cs <= data.len(),
    ensures
        len_sum(
            crate::ae::ae_pieces_from(data, cs, w),
            0,
            crate::ae::ae_pieces_from(data, cs, w).len() as int,
        ) == data.len() - cs,
    decreases data.len() - cs,
{
    let pieces = crate::ae::ae_pieces_from(data, cs, w);
    if cs >= data.len() {
        assert(len_sum(pieces, 0, 1) == pieces[0].len() + len_sum(pieces, 1, 1));
    } else if crate::ae::ae_finds(data, cs, w) {
        let b = crate::ae::ae_next(data, cs, w);
        crate::ae::lemma_ae_next_range(data, cs, w);
        lemma_ae_pieces_sum(data, b, w);
        let rest = crate::ae::ae_pieces_from(data, b, w);
        lemma_len_sum_cons(data.subrange(cs, b), rest, 1, pieces.len() as int);
        assert(pieces[0].len() == b - cs);
    } else {
        assert(len_sum(pieces, 0, 1) == pieces[0].len() + len_sum(pieces, 1, 1));
    }
}

/// Which chunks of its slab a worker keeps: an even worker gives up its
/// last chunk, an odd one its first; the chunk given up is its remainder,
/// re-chunked across the seam later.
pub open spec fn wft_lo(i: int) -> int {
    if i % 2 == 0 {
        0
    } else {
        1
    }
}

/// The end of the kept range; see `wft_lo`.
pub open spec fn wft_hi(i: int, npieces: int) -> int {
    if i % 2 == 0 {
        npieces - 1
    } else {
        npieces
    }
}

/// What a seam-stitch worker hands back for slab `i`: the hash set and the
/// deduplicated byte count of its kept chunks, and its remainder chunk.
pub open spec fn wft_post(i: int, n: int, data: Seq<u8>, st: Set<u64>, cnt: int, rem: Seq<u8>) -> bool {
    let pieces = ae_pieces(data, ae_window(1024 * n));
    let f = dedup_fold(pieces, wft_lo(i), wft_hi(i, pieces.len() as int), Set::empty(), 0);
    &&& st == f.0
    &&& cnt == f.1
    &&& rem == (if i % 2 == 0 {
        pieces.last()
    } else {
        pieces.first()
    })
    &&& 0 <= cnt <= data.len()
    &&& rem.len() <= data.len()
}

/// The work of one seam-stitch worker: chunk the slab, deduplicate the kept
/// chunks, and hand back the remainder chunk at the seam.
pub fn work_for_thread(i: usize, n: usize, cur: &Vec<u8>) -> (r: (DedupSet, usize, Vec<u8>))
    requires
        n <= usize::MAX / 1024,
    ensures
        r.0.wf(),
        wft_post(i as int, n as int, cur@, r.0.set(), r.1 as int, r.2@),
{
    let ghost w = ae_window((1024 * n) as int);
    let data_len = cur.len();
    proof {
        assert(cur@.len() == data_len as int);
    }
    let mut chunker = AeChunker::new(1024 * n);
    let vecs = chunker.collect_pieces(cur);
    let ghost pieces = ae_pieces(cur@, w);
    let mut set = DedupSet::new();
    let left: usize = if i % 2 == 0 {
        0
    } else {
        1
    };
    let right: usize = if i % 2 == 0 {
        vecs.len() - 1
    } else {
        vecs.len()
    };
    proof {
        lemma_ae_pieces_sum(cur@, 0, w);
        lemma_len_sum_split(pieces, 0, left as int, pieces.len() as int);
        lemma_len_sum_split(pieces, left as int, right as int, pieces.len() as int);
        lemma_len_sum_nonneg(pieces, 0, left as int);
        lemma_len_sum_nonneg(pieces, right as int, pieces.len() as int);
    }
    let result = dedup_accumulate(&mut set, 0, &vecs, left, right);
    let rem_idx: usize = if i % 2 == 0 {
        vecs.len() - 1
    } else {
        0
    };
    let remainder = copy_bytes(&vecs[rem_idx]);
    proof {
        assert(pieces[rem_idx as int] == vecs@[rem_idx as int]@);
        lemma_dedup_fold_acc(pieces, left as int, right as int, Set::empty(), 0);
        lemma_len_sum_elem(pieces, 0, pieces.len() as int, rem_idx as int);
    }
    (set, result, remainder)
}

/// Relies on rayon: `par_iter` with `enumerate` and `map` applies the
/// closure — here one `work_for_thread` call — to every slab with its
/// index, and `collect` gathers the results in index order.
#[verifier::external_body]
fn par_work_for_thread(slabs: &Vec<Vec<u8>>, n: usize) -> (r: Vec<(DedupSet, usize, Vec<u8>)>)
    requires
        n <= usize::MAX / 1024,
    ensures
        r@.len() == slabs@.len(),
        forall|i: int|
            0 <= i < slabs@.len() ==> {
                &&& (#[trigger] r@[i]).0.wf()
                &&& wft_post(i, n as int, slabs@[i]@, r@[i].0.set(), r@[i].1 as int, r@[i].2@)
            },
{
    slabs.par_iter().enumerate().map(|(i, cur)| work_for_thread(i, n, cur)).collect()
}

/// The account after re-chunking the seam regions: remainders are joined in
/// adjacent pairs, chunked again, and folded into the running account.
pub open spec fn collect_fold(rems: Seq<Seq<u8>>, i: int, seen: Set<u64>, acc: int, w: int) -> (
    Set<u64>,
    int,
)
    decreases rems.len() - i,
{
    if i < 0 || i >= rems.len() - 1 {
        (seen, acc)
    } else {
        let joined = rems[i] + rems[i + 1];
        let pieces = crate::ae::ae_pieces_from(joined, 0, w);
        let f = dedup_fold(pieces, 0, pieces.len() as int, seen, acc);
        collect_fold(rems, i + 2, f.0, f.1, w)
    }
}

/// Joins adjacent remainder pairs, chunks each joined region with a fresh
/// chunker, and folds the chunks into the running account.  Returns the
/// deduplicated byte count and the number of distinct chunks seen.
pub fn collect_results(
    result_set: &mut DedupSet,
    ans: usize,
    remainders: &mut Vec<Vec<u8>>,
    n: usize,
) -> (r: (usize, usize))
    requires
        old(result_set).wf(),
        old(remainders)@.len() >= 1,
        n <= usize::MAX / 1024,
        ans + len_sum(
            old(remainders)@.map_values(|p: Vec<u8>| p@),
            0,
            old(remainders)@.len() as int,
        ) <= usize::MAX,
    ensures
        final(result_set).wf(),
        ({
            let c = collect_fold(
                old(remainders)@.map_values(|p: Vec<u8>| p@),
                0,
                old(result_set).set(),
                ans as int,
                ae_window(1024 * (n as int)),
            );
            &&& final(result_set).set() == c.0
            &&& r.0 == c.1
            &&& r.1 == c.0.len()
        }),
        final(remainders)@ == old(remainders)@,
{
    let ghost w = ae_window(1024 * (n as int));
    let ghost rems0 = old(remainders)@.map_values(|p: Vec<u8>| p@);
    let mut ans_cur: usize = ans;
    let mut i: usize = 0;
    while i < remainders.len() - 1
        invariant
            result_set.wf(),
            remainders@ == old(remainders)@,
            remainders@.len() >= 1,
            w == ae_window(1024 * (n as int)),
            n <= usize::MAX / 1024,
            rems0 == old(remainders)@.map_values(|p: Vec<u8>| p@),
            collect_fold(rems0, i as int, result_set.set(), ans_cur as int, w) == collect_fold(
                rems0,
                0,
                old(result_set).set(),
                ans as int,
                w,
            ),
            ans_cur + len_sum(rems0, i as int, rems0.len() as int) <= usize::MAX,
        decreases remainders@.len() - i,
    {
        let ghost seen_pre = result_set.set();
        let joined = concat_bytes(&remainders[i], &remainders[i + 1]);
        let mut chunker = AeChunker::new(1024 * n);
        let vecs = chunker.collect_pieces(&joined);
        let ghost jpieces = crate::ae::ae_pieces_from(joined@, 0, w);
        proof {
            lemma_ae_pieces_sum(joined@, 0, w);
            lemma_len_sum_split(rems0, i as int, i + 2, rems0.len() as int);
            lemma_len_sum_nonneg(rems0, i + 2, rems0.len() as int);
            assert(rems0[i as int] == remainders@[i as int]@);
            assert(rems0[i + 1] == remainders@[i + 1]@);
            assert(len_sum(rems0, i + 2, i + 2) == 0);
            assert(len_sum(rems0, i + 1, i + 2) == rems0[i + 1].len() + len_sum(
                rems0,
                i + 2,
                i + 2,
            ));
            assert(len_sum(rems0, i as int, i + 2) == rems0[i as int].len() + len_sum(
                rems0,
                i + 1,
                i + 2,
            ));
            assert(joined@.len() == len_sum(rems0, i as int, i + 2));
        }
        let new_ans = dedup_accumulate(result_set, ans_cur, &vecs, 0, vecs.len());
        proof {
            lemma_dedup_fold_acc(jpieces, 0, jpieces.len() as int, seen_pre, ans_cur as int);
        }
        ans_cur = new_ans;
        i += 2;
    }
    let count = result_set.len();
    (ans_cur, count)
}
/// `[i*len/T, (i+1)*len/T)`.
pub fn preprocess_vec(buffer: &Vec<u8>, threads_cnt: usize) -> (r: Vec<Vec<u8>>)
    requires
        1 <= threads_cnt,
        threads_cnt * buffer@.len() <= usize::MAX,
    ensures
        r@.len() == threads_cnt,
        forall|i: int|
            0 <= i < threads_cnt ==> r@[i]@ == buffer@.subrange(
                i * buffer@.len() / (threads_cnt as int),
                (i + 1) * buffer@.len() / (threads_cnt as int),
            ),
{
    let n = buffer.len();
    let mut vecs: Vec<Vec<u8>> = Vec::new();
    let mut i: usize = 0;
    while i < threads_cnt
        invariant
            i <= threads_cnt,
            1 <= threads_cnt,
            n == buffer@.len(),
            threads_cnt * n <= usize::MAX,
            vecs@.len() == i,
            forall|t: int|
                0 <= t < i ==> vecs@[t]@ == buffer@.subrange(
                    t * n / (threads_cnt as int),
                    (t + 1) * n / (threads_cnt as int),
                ),
        decreases threads_cnt - i,
    {
        proof {
            vstd::arithmetic::mul::lemma_mul_inequality(i as int, threads_cnt as int, n as int);
            vstd::arithmetic::mul::lemma_mul_inequality(
                i + 1,
                threads_cnt as int,
                n as int,
            );
            vstd::arithmetic::mul::lemma_mul_is_distributive_add_other_way(
                n as int,
                i as int,
                1,
            );
            vstd::arithmetic::div_mod::lemma_div_is_ordered(
                i * n,
                (i + 1) * n,
                threads_cnt as int,
            );
            vstd::arithmetic::div_mod::lemma_div_is_ordered(
                (i + 1) * n,
                threads_cnt * n,
                threads_cnt as int,
            );
            vstd::arithmetic::div_mod::lemma_div_multiples_vanish(
                n as int,
                threads_cnt as int,
            );
            vstd::arithmetic::div_mod::lemma_div_pos_is_pos(i * n, threads_cnt as int);
        }
        let left = i * n / threads_cnt;
        let right = (i + 1) * n / threads_cnt;
        let mut slab: Vec<u8> = Vec::new();
        let mut t: usize = 0;
        while t < right - left
            invariant
                left + t <= right,
                right <= n,
                n == buffer@.len(),
                slab@.len() == t,
                slab@ == buffer@.subrange(left as int, left + t),
            decreases right - left - t,
        {
            let v = buffer[left + t];
            slab.push(v);
            t += 1;
            proof {
                assert(slab@ =~= buffer@.subrange(left as int, left + t));
            }
        }
        vecs.push(slab);
        i += 1;
    }
    vecs
}

/// Slab `i` of an input cut into `t` contiguous slabs.
pub open spec fn slab_of(data: Seq<u8>, t: int, i: int) -> Seq<u8> {
    data.subrange(i * data.len() / t, (i + 1) * data.len() / t)
}

/// What the seam-stitch workers for the first `i` slabs produce together:
/// the union of their hash sets, the sum of their deduplicated byte counts,
/// and their remainder chunks in slab order.
pub open spec fn stitch_workers(data: Seq<u8>, n: int, t: int, i: int) -> (Set<u64>, int, Seq<
    Seq<u8>,
>)
    decreases i,
{
    if i <= 0 {
        (Set::empty(), 0, Seq::empty())
    } else {
        let prev = stitch_workers(data, n, t, i - 1);
        let slab = slab_of(data, t, i - 1);
        let pieces = ae_pieces(slab, ae_window(1024 * n));
        let f = dedup_fold(
            pieces,
            wft_lo(i - 1),
            wft_hi(i - 1, pieces.len() as int),
            Set::empty(),
            0,
        );
        let rem = if (i - 1) % 2 == 0 {
            pieces.last()
        } else {
            pieces.first()
        };
        (prev.0.union(f.0), prev.1 + f.1, prev.2.push(rem))
    }
}

/// The whole seam-stitch result: the deduplicated byte count and the
/// number of distinct chunks, after the workers ran and the seam regions
/// were re-chunked.
pub open spec fn stitch_spec(data: Seq<u8>, n: int, t: int) -> (int, int) {
    let wk = stitch_workers(data, n, t, t);
    let c = collect_fold(wk.2, 0, wk.0, wk.1, ae_window(1024 * n));
    (c.1, c.0.len() as int)
}

/// Two range folds agree where the underlying entries agree.
proof fn lemma_len_sum_push(s: Seq<Seq<u8>>, x: Seq<u8>, lo: int, hi: int)
    requires
        0 <= lo,
        hi <= s.len(),
    ensures
        len_sum(s.push(x), lo, hi) == len_sum(s, lo, hi),
    decreases hi - lo,
{
    if lo < hi {
        assert(s.push(x)[lo] == s[lo]);
        lemma_len_sum_push(s, x, lo + 1, hi);
    }
}

/// Seam-stitch parallel chunking: cuts the input into `threads_cnt` slabs,
/// chunks them in parallel with extremum chunkers of expected size
/// `1024 * n`, re-chunks the seam regions, and returns the deduplicated
/// byte count and the number of distinct chunks.
pub fn stitch_chunking(buffer: &Vec<u8>, n: usize, threads_cnt: usize) -> (r: (usize, usize))
    requires
        1 <= threads_cnt,
        n <= usize::MAX / 1024,
        threads_cnt * buffer@.len() <= usize::MAX,
        buffer@.len() <= usize::MAX / 2,
    ensures
        r.0 == stitch_spec(buffer@, n as int, threads_cnt as int).0,
        r.1 == stitch_spec(buffer@, n as int, threads_cnt as int).1,
{
    let ghost t = threads_cnt as int;
    let ghost ln = buffer@.len() as int;
    let slabs = preprocess_vec(buffer, threads_cnt);
    let results = par_work_for_thread(&slabs, n);
    let mut result_set = DedupSet::new();
    let mut ans: usize = 0;
    let mut remainders: Vec<Vec<u8>> = Vec::new();
    let mut k: usize = 0;
    while k < threads_cnt
        invariant
            result_set.wf(),
            k <= threads_cnt,
            1 <= threads_cnt,
            t == threads_cnt as int,
            ln == buffer@.len() as int,
            ln <= usize::MAX / 2,
            threads_cnt * buffer@.len() <= usize::MAX,
            n <= usize::MAX / 1024,
            slabs@.len() == threads_cnt,
            results@.len() == threads_cnt,
            forall|i: int|
                0 <= i < threads_cnt ==> slabs@[i]@ == buffer@.subrange(
                    i * ln / t,
                    (i + 1) * ln / t,
                ),
            forall|i: int|
                0 <= i < threads_cnt ==> {
                    &&& (#[trigger] results@[i]).0.wf()
                    &&& wft_post(
                        i,
                        n as int,
                        slabs@[i]@,
                        results@[i].0.set(),
                        results@[i].1 as int,
                        results@[i].2@,
                    )
                },
            result_set.set() == stitch_workers(buffer@, n as int, t, k as int).0,
            ans as int == stitch_workers(buffer@, n as int, t, k as int).1,
            remainders@.map_values(|p: Vec<u8>| p@) == stitch_workers(
                buffer@,
                n as int,
                t,
                k as int,
            ).2,
            ans as int <= (k as int) * ln / t,
            len_sum(remainders@.map_values(|p: Vec<u8>| p@), 0, k as int) <= (k as int) * ln
                / t,
            remainders@.len() == k,
        decreases threads_cnt - k,
    {
        let item = &results[k];
        proof {
            let l = (k as int) * ln / t;
            let rgt = (k + 1) * ln / t;
            vstd::arithmetic::mul::lemma_mul_inequality(k as int, t, ln);
            vstd::arithmetic::mul::lemma_mul_inequality(k + 1, t, ln);
            vstd::arithmetic::mul::lemma_mul_is_distributive_add_other_way(ln, k as int, 1);
            vstd::arithmetic::div_mod::lemma_div_is_ordered((k as int) * ln, (k + 1) * ln, t);
            vstd::arithmetic::div_mod::lemma_div_is_ordered((k + 1) * ln, t * ln, t);
            vstd::arithmetic::div_mod::lemma_div_multiples_vanish(ln, t);
            vstd::arithmetic::div_mod::lemma_div_pos_is_pos((k as int) * ln, t);
            assert(slabs@[k as int]@.len() == rgt - l);
        }
        let ghost pre_rem = remainders@.map_values(|p: Vec<u8>| p@);
        result_set.extend_from(&item.0);
        ans = ans + item.1;
        let rem = copy_bytes(&item.2);
        remainders.push(rem);
        k += 1;
        proof {
            let cur_rem = remainders@.map_values(|p: Vec<u8>| p@);
            assert(cur_rem =~= pre_rem.push(item.2@));
            lemma_len_sum_split(cur_rem, 0, k - 1, k as int);
            lemma_len_sum_push(pre_rem, item.2@, 0, k - 1);
            assert(len_sum(cur_rem, k as int, k as int) == 0);
            assert(len_sum(cur_rem, k - 1, k as int) == cur_rem[k - 1].len() + len_sum(
                cur_rem,
                k as int,
                k as int,
            ));
        }
    }
    proof {
        vstd::arithmetic::div_mod::lemma_div_multiples_vanish(ln, t);
        lemma_len_sum_nonneg(remainders@.map_values(|p: Vec<u8>| p@), 0, t);
        assert(t * ln == (threads_cnt as int) * (buffer@.len() as int))
            by (nonlinear_arith)
            requires
                t == threads_cnt as int,
                ln == buffer@.len() as int,
        ;
    }
    let stats = collect_results(&mut result_set, ans, &mut remainders, n);
    stats
}

/// Deduplication statistics of one parallel run: the bytes of the first
/// occurrence of each distinct chunk, all chunk bytes, and the number of
/// distinct chunks.
#[derive(PartialEq, Eq, Structural, Clone, Copy, Debug)]
pub struct DedupStats {
    /// Bytes counted once per distinct chunk.
    pub unique_bytes: usize,
    /// Bytes over all accepted chunks.
    pub total_bytes: usize,
    /// How many distinct chunks were seen.
    pub unique_chunks: usize,
}

/// Every entry lies in `[0, b)`.
pub open spec fn all_below(es: Seq<int>, b: int) -> bool {
    forall|k: int| 0 <= k < es.len() ==> 0 <= #[trigger] es[k] < b
}

/// The boundary lists of all slabs, one after another.
pub open spec fn flat_lists(ls: Seq<Seq<int>>) -> Seq<int>
    decreases ls.len(),
{
    if ls.len() == 0 {
        Seq::empty()
    } else {
        ls.first() + flat_lists(ls.drop_first())
    }
}

proof fn lemma_flat_push(ls: Seq<Seq<int>>, x: Seq<int>)
    ensures
        flat_lists(ls.push(x)) == flat_lists(ls) + x,
    decreases ls.len(),
{
    if ls.len() == 0 {
        assert(ls.push(x).drop_first() =~= Seq::<Seq<int>>::empty());
        assert(ls.push(x).first() == x);
        assert(flat_lists(ls) == Seq::<int>::empty());
        assert(flat_lists(ls.push(x).drop_first()) == Seq::<int>::empty());
        assert(flat_lists(ls.push(x)) == x + flat_lists(ls.push(x).drop_first()));
        assert(x + Seq::<int>::empty() =~= x);
        assert(Seq::<int>::empty() + x =~= x);
    } else {
        assert(ls.push(x).first() == ls.first());
        assert(ls.push(x).drop_first() =~= ls.drop_first().push(x));
        lemma_flat_push(ls.drop_first(), x);
        assert((ls.first() + flat_lists(ls.drop_first())) + x =~= ls.first() + (flat_lists(
            ls.drop_first(),
        ) + x));
    }
}

proof fn lemma_flat_bound(ls: Seq<Seq<int>>, b: int)
    requires
        forall|j: int| 0 <= j < ls.len() ==> all_below(#[trigger] ls[j], b),
    ensures
        all_below(flat_lists(ls), b),
    decreases ls.len(),
{
    if ls.len() > 0 {
        let a = ls.first();
        let rest = ls.drop_first();
        assert(all_below(a, b));
        assert forall|j: int| 0 <= j < rest.len() implies all_below(#[trigger] rest[j], b) by {
            assert(rest[j] == ls[j + 1]);
        }
        lemma_flat_bound(rest, b);
        let c = flat_lists(rest);
        assert forall|k: int|
            0 <= k < (a + c).len() implies 0 <= #[trigger] (a + c)[k] < b by {
            if k < a.len() {
                assert((a + c)[k] == a[k]);
            } else {
                assert((a + c)[k] == c[k - a.len()]);
            }
        }
    }
}

/// The boundary lists of all slabs joined into one vector.
pub fn concat_all(lists: &Vec<Vec<usize>>) -> (r: Vec<usize>)
    ensures
        r@.map_values(|x: usize| x as int) == flat_lists(
            lists@.map_values(|l: Vec<usize>| l@.map_values(|x: usize| x as int)),
        ),
{
    let ghost nv = lists@.map_values(|l: Vec<usize>| l@.map_values(|x: usize| x as int));
    let mut out: Vec<usize> = Vec::new();
    let mut j: usize = 0;
    proof {
        assert(nv.subrange(0, 0) =~= Seq::<Seq<int>>::empty());
    }
    while j < lists.len()
        invariant
            j <= lists@.len(),
            nv == lists@.map_values(|l: Vec<usize>| l@.map_values(|x: usize| x as int)),
            out@.map_values(|x: usize| x as int) == flat_lists(nv.subrange(0, j as int)),
        decreases lists@.len() - j,
    {
        let ghost before = out@.map_values(|x: usize| x as int);
        let inner = &lists[j];
        let mut k: usize = 0;
        while k < inner.len()
            invariant
                k <= inner@.len(),
                inner@ == lists@[j as int]@,
                j < lists@.len(),
                nv == lists@.map_values(|l: Vec<usize>| l@.map_values(|x: usize| x as int)),
                before == flat_lists(nv.subrange(0, j as int)),
                out@.map_values(|x: usize| x as int) == before + inner@.map_values(
                    |x: usize| x as int,
                ).subrange(0, k as int),
            decreases inner@.len() - k,
        {
            let v = inner[k];
            let ghost out_pre = out@;
            out.push(v);
            k += 1;
            proof {
                let iv = inner@.map_values(|x: usize| x as int);
                assert(iv[k - 1] == (inner@[k - 1]) as int);
                assert(out@.map_values(|x: usize| x as int) =~= out_pre.map_values(
                    |x: usize| x as int,
                ).push(v as int));
                assert((before + iv.subrange(0, k - 1)).push(iv[k - 1]) =~= before + iv.subrange(
                    0,
                    k as int,
                ));
            }
        }
        j += 1;
        proof {
            let iv = inner@.map_values(|x: usize| x as int);
            assert(iv.subrange(0, iv.len() as int) =~= iv);
            assert(nv[j - 1] == iv);
            assert(nv.subrange(0, j as int) =~= nv.subrange(0, j - 1).push(iv));
            lemma_flat_push(nv.subrange(0, j - 1), iv);
        }
    }
    proof {
        assert(nv.subrange(0, nv.len() as int) =~= nv);
    }
    out
}

/// Which collected boundaries the reconciliation accepts: one is kept only
/// when it lies at least a window past the previously accepted one, which
/// rejects the duplicates that the overlapping scans produce.
pub open spec fn accepted_bounds(es: Seq<int>, k: int, next_start: int, w: int) -> Seq<int>
    decreases es.len() - k,
{
    if k < 0 || k >= es.len() {
        Seq::empty()
    } else if es[k] + 1 - next_start >= w {
        seq![es[k]] + accepted_bounds(es, k + 1, es[k] + 1, w)
    } else {
        accepted_bounds(es, k + 1, next_start, w)
    }
}

/// The deduplication account of the reconciliation walk: each accepted
/// boundary closes the chunk since the previous accepted one; its hash
/// joins the set, and its length counts once per distinct hash.  The
/// result is the hash set, the next chunk start, the deduplicated byte
/// count and the total byte count.
pub open spec fn reconcile_fold(
    data: Seq<u8>,
    es: Seq<int>,
    k: int,
    next_start: int,
    seen: Set<u64>,
    uniq: int,
    tot: int,
    w: int,
) -> (Set<u64>, int, int, int)
    decreases es.len() - k,
{
    if k < 0 || k >= es.len() {
        (seen, next_start, uniq, tot)
    } else if es[k] + 1 - next_start >= w {
        let piece = data.subrange(next_start, es[k] + 1);
        let h = fnv1a(piece);
        if seen.contains(h) {
            reconcile_fold(data, es, k + 1, es[k] + 1, seen, uniq, tot + piece.len(), w)
        } else {
            reconcile_fold(
                data,
                es,
                k + 1,
                es[k] + 1,
                seen.insert(h),
                uniq + piece.len(),
                tot + piece.len(),
                w,
            )
        }
    } else {
        reconcile_fold(data, es, k + 1, next_start, seen, uniq, tot, w)
    }
}

/// A fresh copy of the byte range `[a, b)` of `data`.
pub fn copy_range(data: &Vec<u8>, a: usize, b: usize) -> (r: Vec<u8>)
    requires
        a <= b <= data@.len(),
    ensures
        r@ == data@.subrange(a as int, b as int),
{
    let mut r: Vec<u8> = Vec::new();
    let mut i: usize = a;
    proof {
        assert(r@ =~= data@.subrange(a as int, a as int));
    }
    while i < b
        invariant
            a <= i <= b <= data@.len(),
            r@ == data@.subrange(a as int, i as int),
        decreases b - i,
    {
        let v = data[i];
        r.push(v);
        i += 1;
        proof {
            assert(r@ =~= data@.subrange(a as int, i as int));
        }
    }
    r
}

/// Walks the collected boundaries in order, accepts those a window or more
/// past the previous accepted one, and accounts each accepted chunk by its
/// content hash.  Returns the accepted boundaries and the statistics.
pub fn reconcile(data: &Vec<u8>, bounds: &Vec<usize>, window: usize) -> (r: (
    Vec<usize>,
    DedupStats,
))
    requires
        all_below(bounds@.map_values(|x: usize| x as int), data@.len() as int),
    ensures
        r.0@.map_values(|x: usize| x as int) == accepted_bounds(
            bounds@.map_values(|x: usize| x as int),
            0,
            0,
            window as int,
        ),
        ({
            let f = reconcile_fold(
                data@,
                bounds@.map_values(|x: usize| x as int),
                0,
                0,
                Set::empty(),
                0,
                0,
                window as int,
            );
            &&& r.1.unique_bytes == f.2
            &&& r.1.total_bytes == f.3
            &&& r.1.unique_chunks == f.0.len()
        }),
{
    let ghost bv = bounds@.map_values(|x: usize| x as int);
    let n = data.len();
    let mut accepted: Vec<usize> = Vec::new();
    let mut seen = DedupSet::new();
    let mut uniq: usize = 0;
    let mut tot: usize = 0;
    let mut next_start: usize = 0;
    let mut k: usize = 0;
    while k < bounds.len()
        invariant
            seen.wf(),
            k <= bounds@.len(),
            n == data@.len(),
            bv == bounds@.map_values(|x: usize| x as int),
            all_below(bv, n as int),
            next_start <= n,
            uniq <= tot,
            tot == next_start,
            accepted@.map_values(|x: usize| x as int) + accepted_bounds(
                bv,
                k as int,
                next_start as int,
                window as int,
            ) == accepted_bounds(bv, 0, 0, window as int),
            reconcile_fold(
                data@,
                bv,
                k as int,
                next_start as int,
                seen.set(),
                uniq as int,
                tot as int,
                window as int,
            ) == reconcile_fold(data@, bv, 0, 0, Set::empty(), 0, 0, window as int),
        decreases bounds@.len() - k,
    {
        let ghost acc_before = accepted@.map_values(|x: usize| x as int);
        let e = bounds[k];
        proof {
            assert(bv[k as int] == e as int);
        }
        if e + 1 >= next_start && e + 1 - next_start >= window {
            let piece = copy_range(data, next_start, e + 1);
            let h = hash_vec(&piece);
            if !seen.contains(h) {
                seen.insert(h);
                uniq = uniq + (e + 1 - next_start);
            }
            tot = tot + (e + 1 - next_start);
            accepted.push(e);
            next_start = e + 1;
            proof {
                assert(accepted@.map_values(|x: usize| x as int) =~= acc_before.push(e as int));
                assert(acc_before.push(e as int) + accepted_bounds(
                    bv,
                    k + 1,
                    e + 1,
                    window as int,
                ) =~= acc_before + (seq![e as int] + accepted_bounds(
                    bv,
                    k + 1,
                    e + 1,
                    window as int,
                )));
            }
        } else {
            proof {
                assert(!(bv[k as int] + 1 - next_start >= window));
            }
        }
        k += 1;
    }
    proof {
        assert(accepted@.map_values(|x: usize| x as int) + Seq::<int>::empty()
            =~= accepted@.map_values(|x: usize| x as int));
    }
    let count = seen.len();
    (accepted, DedupStats { unique_bytes: uniq, total_bytes: tot, unique_chunks: count })
}

/// The extremum overlap scan records positions inside `[i, right)` only.
pub proof fn lemma_ae_gb_scan_elems(data: Seq<u8>, i: int, right: int, mp: int, mv: u8, w: int)
    requires
        0 <= i,
    ensures
        all_below(crate::ae::ae_gb_scan(data, i, right, mp, mv, w), right),
        forall|k: int|
            0 <= k < crate::ae::ae_gb_scan(data, i, right, mp, mv, w).len()
                ==> #[trigger] crate::ae::ae_gb_scan(data, i, right, mp, mv, w)[k] >= i,
    decreases right - i,
{
    let s = crate::ae::ae_gb_scan(data, i, right, mp, mv, w);
    if i < right {
        if data[i] > mv {
            lemma_ae_gb_scan_elems(data, i + 1, right, i, data[i], w);
        } else if i == mp + w {
            if i + 1 != right {
                lemma_ae_gb_scan_elems(data, i + 1, right, i + 1, data[i + 1], w);
                let rest = crate::ae::ae_gb_scan(data, i + 1, right, i + 1, data[i + 1], w);
                assert forall|k: int| 0 <= k < s.len() implies i <= #[trigger] s[k] < right by {
                    if k > 0 {
                        assert(s[k] == rest[k - 1]);
                    }
                }
            }
        } else {
            lemma_ae_gb_scan_elems(data, i + 1, right, mp, mv, w);
        }
    }
}

/// The Rabin overlap scan records positions inside `[i, right)` only.
pub proof fn lemma_rb_gb_scan_elems(
    data: Seq<u8>,
    i: int,
    right: int,
    last_pos: int,
    h: u32,
    win: Seq<u8>,
    ps: crate::rabin::RbParams,
)
    requires
        0 <= i,
    ensures
        all_below(crate::rabin::rb_gb_scan(data, i, right, last_pos, h, win, ps), right),
    decreases right - i,
{
    let s = crate::rabin::rb_gb_scan(data, i, right, last_pos, h, win, ps);
    if i < right {
        let h1 = vstd::wrapping::u32_specs::wrapping_add(
            vstd::wrapping::u32_specs::wrapping_mul(h, ps.alpha),
            data[i] as u32,
        );
        if i >= last_pos + ps.w {
            let h2 = vstd::wrapping::u32_specs::wrapping_sub(h1, ps.pow[win[0] as int]);
            if i >= last_pos + ps.min && ((h2 ^ ps.seed) & ps.mask) == 0 {
                lemma_rb_gb_scan_elems(data, i + 1, right, i - 1, 0, Seq::empty(), ps);
                let rest = crate::rabin::rb_gb_scan(data, i + 1, right, i - 1, 0, Seq::empty(), ps);
                assert forall|k: int| 0 <= k < s.len() implies 0 <= #[trigger] s[k] < right by {
                    if k > 0 {
                        assert(s[k] == rest[k - 1]);
                    }
                }
            } else {
                lemma_rb_gb_scan_elems(
                    data,
                    i + 1,
                    right,
                    last_pos,
                    h2,
                    win.subrange(1, win.len() as int).push(data[i]),
                    ps,
                );
            }
        } else {
            lemma_rb_gb_scan_elems(data, i + 1, right, last_pos, h1, win.push(data[i]), ps);
        }
    }
}

/// The boundaries the extremum overlap scan yields for slab `idx` of
/// `parts`.
pub open spec fn ae_slab_spec(data: Seq<u8>, w: int, parts: int, idx: int) -> Seq<int> {
    ae_get_bounds_spec(data, idx * data.len() / parts, (idx + 1) * data.len() / parts, w)
}

/// The boundaries the Rabin overlap scan yields for slab `idx` of `parts`.
pub open spec fn rabin_slab_spec(
    data: Seq<u8>,
    ps: crate::rabin::RbParams,
    parts: int,
    idx: int,
) -> Seq<int> {
    crate::rabin::rb_get_bounds_spec(
        data,
        idx * data.len() / parts,
        (idx + 1) * data.len() / parts,
        ps,
    )
}

proof fn lemma_slab_edges(ln: int, parts: int, idx: int)
    requires
        1 <= ln,
        1 <= parts,
        0 <= idx < parts,
    ensures
        0 <= idx * ln / parts <= ln - 1,
        idx * ln / parts <= (idx + 1) * ln / parts <= ln,
{
    vstd::arithmetic::mul::lemma_mul_inequality(idx, parts - 1, ln);
    vstd::arithmetic::mul::lemma_mul_inequality(idx + 1, parts, ln);
    vstd::arithmetic::mul::lemma_mul_is_distributive_add_other_way(ln, idx, 1);
    vstd::arithmetic::mul::lemma_mul_is_distributive_sub_other_way(ln, parts, 1);
    vstd::arithmetic::div_mod::lemma_div_is_ordered(idx * ln, (parts - 1) * ln, parts);
    vstd::arithmetic::div_mod::lemma_div_is_ordered(idx * ln, (idx + 1) * ln, parts);
    vstd::arithmetic::div_mod::lemma_div_is_ordered((idx + 1) * ln, parts * ln, parts);
    vstd::arithmetic::div_mod::lemma_div_multiples_vanish(ln, parts);
    vstd::arithmetic::div_mod::lemma_div_pos_is_pos(idx * ln, parts);
    assert((parts - 1) * ln == parts * (ln - 1) + (parts - ln)) by (nonlinear_arith);
    if parts >= ln {
        vstd::arithmetic::div_mod::lemma_div_multiples_vanish_fancy(ln - 1, parts - ln, parts);
    } else {
        vstd::arithmetic::div_mod::lemma_div_is_ordered(
            (parts - 1) * ln,
            parts * (ln - 1) + (parts - 1),
            parts,
        );
        vstd::arithmetic::div_mod::lemma_div_multiples_vanish_fancy(ln - 1, parts - 1, parts);
    }
}

impl AeChunker {
    /// The boundaries of slab `idx` of `parts`, scanned with the rolling
    /// maximum primed from the overlap before the slab.
    pub fn slab_bounds(&self, data: &Vec<u8>, parts: usize, idx: usize) -> (r: Vec<usize>)
        requires
            1 <= parts,
            idx < parts,
            1 <= data@.len(),
            parts * data@.len() <= usize::MAX,
        ensures
            r@.map_values(|x: usize| x as int) == ae_slab_spec(
                data@,
                self.window_size as int,
                parts as int,
                idx as int,
            ),
    {
        let n = data.len();
        proof {
            lemma_slab_edges(n as int, parts as int, idx as int);
            vstd::arithmetic::mul::lemma_mul_inequality(idx as int, parts as int, n as int);
            vstd::arithmetic::mul::lemma_mul_inequality(idx + 1, parts as int, n as int);
        }
        let left = idx * n / parts;
        let right = (idx + 1) * n / parts;
        self.get_bounds(data, left, right)
    }
}

impl crate::rabin::RabinChunker {
    /// The boundaries of slab `idx` of `parts`, scanned with the rolling
    /// hash primed from the overlap before the slab.
    pub fn slab_bounds(&self, data: &Vec<u8>, parts: usize, idx: usize) -> (r: Vec<usize>)
        requires
            self.wf(),
            1 <= parts,
            idx < parts,
            1 <= data@.len(),
            parts * data@.len() <= usize::MAX,
        ensures
            r@.map_values(|x: usize| x as int) == rabin_slab_spec(
                data@,
                self.params(),
                parts as int,
                idx as int,
            ),
    {
        let n = data.len();
        proof {
            lemma_slab_edges(n as int, parts as int, idx as int);
            vstd::arithmetic::mul::lemma_mul_inequality(idx as int, parts as int, n as int);
            vstd::arithmetic::mul::lemma_mul_inequality(idx + 1, parts as int, n as int);
        }
        let left = idx * n / parts;
        let right = (idx + 1) * n / parts;
        self.get_bounds(data, left, right)
    }
}

/// Relies on rayon: `into_par_iter` over an index range with `map` applies
/// the closure — here one `slab_bounds` call per slab — to every index,
/// and `collect` gathers the results in index order.
#[verifier::external_body]
fn par_ae_slab_bounds(ch: &AeChunker, data: &Vec<u8>, parts: usize) -> (r: Vec<Vec<usize>>)
    requires
        1 <= parts,
        1 <= data@.len(),
        parts * data@.len() <= usize::MAX,
    ensures
        r@.len() == parts,
        forall|i: int|
            0 <= i < parts ==> (#[trigger] r@[i])@.map_values(|x: usize| x as int)
                == ae_slab_spec(data@, ch.window_size as int, parts as int, i),
{
    (0..parts).into_par_iter().map(|idx| ch.slab_bounds(data, parts, idx)).collect()
}

/// Relies on rayon: `into_par_iter` over an index range with `map` applies
/// the closure — here one `slab_bounds` call per slab — to every index,
/// and `collect` gathers the results in index order.
#[verifier::external_body]
fn par_rabin_slab_bounds(
    ch: &crate::rabin::RabinChunker,
    data: &Vec<u8>,
    parts: usize,
) -> (r: Vec<Vec<usize>>)
    requires
        ch.wf(),
        1 <= parts,
        1 <= data@.len(),
        parts * data@.len() <= usize::MAX,
    ensures
        r@.len() == parts,
        forall|i: int|
            0 <= i < parts ==> (#[trigger] r@[i])@.map_values(|x: usize| x as int)
                == rabin_slab_spec(data@, ch.params(), parts as int, i),
{
    (0..parts).into_par_iter().map(|idx| ch.slab_bounds(data, parts, idx)).collect()
}

/// The slab boundary lists of the extremum overlap strategy, one after
/// another.
pub open spec fn ae_parallel_flat(data: Seq<u8>, w: int, parts: int) -> Seq<int> {
    flat_lists(Seq::new(parts as nat, |i: int| ae_slab_spec(data, w, parts, i)))
}

/// The slab boundary lists of the Rabin overlap strategy, one after
/// another.
pub open spec fn rabin_parallel_flat(
    data: Seq<u8>,
    ps: crate::rabin::RbParams,
    parts: int,
) -> Seq<int> {
    flat_lists(Seq::new(parts as nat, |i: int| rabin_slab_spec(data, ps, parts, i)))
}

impl AeChunker {
    /// Overlap-scan parallel chunking: scans every slab in parallel with
    /// the rolling maximum primed from before the slab, then reconciles the
    /// boundaries serially.  Returns the accepted boundaries and the
    /// deduplication statistics.
    pub fn parallel_chunking(&self, data: &Vec<u8>, threads_cnt: usize) -> (r: (
        Vec<usize>,
        DedupStats,
    ))
        requires
            1 <= threads_cnt,
            1 <= data@.len(),
            threads_cnt * data@.len() <= usize::MAX,
        ensures
            r.0@.map_values(|x: usize| x as int) == accepted_bounds(
                ae_parallel_flat(data@, self.window_size as int, threads_cnt as int),
                0,
                0,
                self.window_size as int,
            ),
            ({
                let f = reconcile_fold(
                    data@,
                    ae_parallel_flat(data@, self.window_size as int, threads_cnt as int),
                    0,
                    0,
                    Set::empty(),
                    0,
                    0,
                    self.window_size as int,
                );
                &&& r.1.unique_bytes == f.2
                &&& r.1.total_bytes == f.3
                &&& r.1.unique_chunks == f.0.len()
            }),
    {
        let ghost w = self.window_size as int;
        let ghost t = threads_cnt as int;
        let lists = par_ae_slab_bounds(self, data, threads_cnt);
        let flat = concat_all(&lists);
        proof {
            let specs = Seq::new(t as nat, |i: int| ae_slab_spec(data@, w, t, i));
            let nv = lists@.map_values(|l: Vec<usize>| l@.map_values(|x: usize| x as int));
            assert(nv =~= specs);
            assert forall|j: int| 0 <= j < specs.len() implies all_below(
                #[trigger] specs[j],
                data@.len() as int,
            ) by {
                lemma_slab_edges(data@.len() as int, t, j);
                let start = if j * data@.len() / t >= w {
                    j * data@.len() / t - w
                } else {
                    0int
                };
                lemma_ae_gb_scan_elems(
                    data@,
                    start,
                    (j + 1) * data@.len() / t,
                    start,
                    data@[start],
                    w,
                );
                let scanned = crate::ae::ae_gb_scan(
                    data@,
                    start,
                    (j + 1) * data@.len() / t,
                    start,
                    data@[start],
                    w,
                );
                assert forall|k: int|
                    0 <= k < specs[j].len() implies 0 <= #[trigger] specs[j][k]
                    < data@.len() as int by {
                    if k < scanned.len() {
                        assert(specs[j][k] == scanned[k]);
                    } else {
                        assert(specs[j][k] == data@.len() - 1);
                    }
                }
            }
            lemma_flat_bound(specs, data@.len() as int);
        }
        let stats = reconcile(data, &flat, self.window_size);
        stats
    }
}

impl crate::rabin::RabinChunker {
    /// Overlap-scan parallel chunking: scans every slab in parallel with
    /// the rolling hash primed from before the slab, then reconciles the
    /// boundaries serially.  Returns the accepted boundaries and the
    /// deduplication statistics.
    pub fn parallel_chunking(&self, data: &Vec<u8>, threads_cnt: usize) -> (r: (
        Vec<usize>,
        DedupStats,
    ))
        requires
            self.wf(),
            1 <= threads_cnt,
            1 <= data@.len(),
            threads_cnt * data@.len() <= usize::MAX,
        ensures
            r.0@.map_values(|x: usize| x as int) == accepted_bounds(
                rabin_parallel_flat(data@, self.params(), threads_cnt as int),
                0,
                0,
                self.window_size as int,
            ),
            ({
                let f = reconcile_fold(
                    data@,
                    rabin_parallel_flat(data@, self.params(), threads_cnt as int),
                    0,
                    0,
                    Set::empty(),
                    0,
                    0,
                    self.window_size as int,
                );
                &&& r.1.unique_bytes == f.2
                &&& r.1.total_bytes == f.3
                &&& r.1.unique_chunks == f.0.len()
            }),
    {
        let ghost ps = self.params();
        let ghost t = threads_cnt as int;
        let lists = par_rabin_slab_bounds(self, data, threads_cnt);
        let flat = concat_all(&lists);
        proof {
            let specs = Seq::new(t as nat, |i: int| rabin_slab_spec(data@, ps, t, i));
            let nv = lists@.map_values(|l: Vec<usize>| l@.map_values(|x: usize| x as int));
            assert(nv =~= specs);
            assert forall|j: int| 0 <= j < specs.len() implies all_below(
                #[trigger] specs[j],
                data@.len() as int,
            ) by {
                lemma_slab_edges(data@.len() as int, t, j);
                let start = if j * data@.len() / t >= ps.w {
                    j * data@.len() / t - ps.w
                } else {
                    0int
                };
                lemma_rb_gb_scan_elems(
                    data@,
                    start,
                    (j + 1) * data@.len() / t,
                    start,
                    0,
                    Seq::empty(),
                    ps,
                );
                assert forall|k: int|
                    0 <= k < specs[j].len() implies 0 <= #[trigger] specs[j][k]
                    < data@.len() as int by {
                    let scanned = crate::rabin::rb_gb_scan(
                        data@,
                        start,
                        (j + 1) * data@.len() / t,
                        start,
                        0,
                        Seq::empty(),
                        ps,
                    );
                    assert(specs[j][k] == scanned[k]);
                    assert(all_below(scanned, (j + 1) * data@.len() / t));
                }
            }
            lemma_flat_bound(specs, data@.len() as int);
        }
        let stats = reconcile(data, &flat, self.window_size);
        stats
    }
}

} // verus!
