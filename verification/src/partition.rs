//! Cutting a run of indices into neighbouring pieces of one length, the
//! last piece possibly shorter.

use vstd::prelude::*;

verus! {

/// The pieces of the indices from `lo` up to, but not including, `hi`, cut
/// every `chunk` indices: each piece is a pair of its first index and the
/// index after its last.
pub open spec fn chunks(lo: int, hi: int, chunk: int) -> Seq<(int, int)>
    decreases hi - lo,
{
    if lo >= hi || chunk <= 0 {
        Seq::empty()
    } else if lo + chunk >= hi {
        seq![(lo, hi)]
    } else {
        seq![(lo, lo + chunk)] + chunks(lo + chunk, hi, chunk)
    }
}

/// `pieces` are non-empty, none longer than `chunk`, each begins where the
/// one before it ends, the first begins at `lo` and the last ends at `hi`.
pub open spec fn is_partition(pieces: Seq<(int, int)>, lo: int, hi: int, chunk: int) -> bool {
    &&& lo >= hi ==> pieces.len() == 0
    &&& lo < hi ==> pieces.len() > 0 && pieces[0].0 == lo && pieces[pieces.len() - 1].1 == hi
    &&& forall|k: int|
        0 <= k < pieces.len() ==> (#[trigger] pieces[k]).0 < pieces[k].1 && pieces[k].1
            - pieces[k].0 <= chunk
    &&& forall|k: int| 0 <= k < pieces.len() - 1 ==> (#[trigger] pieces[k]).1 == pieces[k + 1].0
}

/// The pieces that `chunks` cuts form a partition.
pub proof fn lemma_chunks_partition(lo: int, hi: int, chunk: int)
    requires
        chunk > 0,
    ensures
        is_partition(chunks(lo, hi, chunk), lo, hi, chunk),
    decreases hi - lo,
{
    if lo >= hi {
    } else if lo + chunk >= hi {
    } else {
        lemma_chunks_partition(lo + chunk, hi, chunk);
        let rest = chunks(lo + chunk, hi, chunk);
        let all = chunks(lo, hi, chunk);
        assert(all =~= seq![(lo, lo + chunk)] + rest);
        assert forall|k: int| 0 <= k < all.len() implies (#[trigger] all[k]).0 < all[k].1
            && all[k].1 - all[k].0 <= chunk by {
            if k > 0 {
                assert(all[k] == rest[k - 1]);
            }
        }
        assert forall|k: int| 0 <= k < all.len() - 1 implies (#[trigger] all[k]).1 == all[k
            + 1].0 by {
            assert(all[k + 1] == rest[k]);
            if k > 0 {
                assert(all[k] == rest[k - 1]);
            }
        }
        assert(all[all.len() - 1] == rest[rest.len() - 1]);
    }
}

/// The pieces of a partition lie one after the other in rising order.
pub proof fn lemma_partition_ordered(pieces: Seq<(int, int)>, lo: int, hi: int, chunk: int, k: int, l: int)
    requires
        is_partition(pieces, lo, hi, chunk),
        0 <= k <= l < pieces.len(),
    ensures
        lo <= pieces[k].0,
        pieces[k].0 <= pieces[l].0,
        pieces[k].1 <= pieces[l].1,
        pieces[l].1 <= hi,
        k < l ==> pieces[k].1 <= pieces[l].0,
    decreases l - k,
{
    lemma_partition_from_lo(pieces, lo, hi, chunk, k);
    lemma_partition_to_hi(pieces, lo, hi, chunk, l);
    if k < l {
        lemma_partition_ordered(pieces, lo, hi, chunk, k + 1, l);
        assert(pieces[k].1 == pieces[k + 1].0);
    }
}

proof fn lemma_partition_from_lo(pieces: Seq<(int, int)>, lo: int, hi: int, chunk: int, k: int)
    requires
        is_partition(pieces, lo, hi, chunk),
        0 <= k < pieces.len(),
    ensures
        lo <= pieces[k].0,
    decreases k,
{
    if k > 0 {
        lemma_partition_from_lo(pieces, lo, hi, chunk, k - 1);
        assert(pieces[k - 1].1 == pieces[k].0);
    }
}

proof fn lemma_partition_to_hi(pieces: Seq<(int, int)>, lo: int, hi: int, chunk: int, l: int)
    requires
        is_partition(pieces, lo, hi, chunk),
        0 <= l < pieces.len(),
    ensures
        pieces[l].1 <= hi,
    decreases pieces.len() - l,
{
    if l < pieces.len() - 1 {
        lemma_partition_to_hi(pieces, lo, hi, chunk, l + 1);
        assert(pieces[l].1 == pieces[l + 1].0);
    }
}

/// The pieces of a partition do not overlap: an index lies in at most one
/// of them.
pub proof fn lemma_partition_disjoint(
    pieces: Seq<(int, int)>,
    lo: int,
    hi: int,
    chunk: int,
    k: int,
    l: int,
    j: int,
)
    requires
        is_partition(pieces, lo, hi, chunk),
        0 <= k < pieces.len(),
        0 <= l < pieces.len(),
        pieces[k].0 <= j < pieces[k].1,
        pieces[l].0 <= j < pieces[l].1,
    ensures
        k == l,
{
    if k < l {
        lemma_partition_ordered(pieces, lo, hi, chunk, k, l);
    } else if l < k {
        lemma_partition_ordered(pieces, lo, hi, chunk, l, k);
    }
}

/// The pieces of a partition cover the whole run: every index from `lo`
/// up to `hi` lies in one of them, and every piece lies within the run.
pub proof fn lemma_partition_covers(pieces: Seq<(int, int)>, lo: int, hi: int, chunk: int, j: int) -> (k:
    int)
    requires
        is_partition(pieces, lo, hi, chunk),
        lo <= j < hi,
    ensures
        0 <= k < pieces.len(),
        pieces[k].0 <= j < pieces[k].1,
{
    lemma_cover_from(pieces, lo, hi, chunk, j, 0)
}

proof fn lemma_cover_from(pieces: Seq<(int, int)>, lo: int, hi: int, chunk: int, j: int, from: int) -> (k:
    int)
    requires
        is_partition(pieces, lo, hi, chunk),
        0 <= from < pieces.len(),
        pieces[from].0 <= j < hi,
    ensures
        0 <= k < pieces.len(),
        pieces[k].0 <= j < pieces[k].1,
    decreases pieces.len() - from,
{
    if j < pieces[from].1 {
        from
    } else {
        assert(from < pieces.len() - 1);
        assert(pieces[from].1 == pieces[from + 1].0);
        lemma_cover_from(pieces, lo, hi, chunk, j, from + 1)
    }
}

/// The index `j` lies in the piece.
pub open spec fn in_piece(piece: (int, int), j: int) -> bool {
    piece.0 <= j < piece.1
}

/// The index `j` lies in one of the pieces.
pub open spec fn covered(pieces: Seq<(int, int)>, j: int) -> bool {
    exists|k: int| 0 <= k < pieces.len() && in_piece(#[trigger] pieces[k], j)
}

/// The pieces of a partition cover exactly the indices from `lo` up to,
/// but not including, `hi`, and no index lies in two of them.
pub proof fn lemma_partition_exact(pieces: Seq<(int, int)>, lo: int, hi: int, chunk: int)
    requires
        is_partition(pieces, lo, hi, chunk),
    ensures
        forall|j: int| #[trigger] covered(pieces, j) <==> lo <= j < hi,
        forall|k: int, l: int, j: int|
            0 <= k < pieces.len() && 0 <= l < pieces.len() && #[trigger] in_piece(pieces[k], j)
                && #[trigger] in_piece(pieces[l], j) ==> k == l,
{
    assert forall|j: int| #[trigger] covered(pieces, j) <==> lo <= j < hi by {
        if lo <= j < hi {
            let k = lemma_partition_covers(pieces, lo, hi, chunk, j);
            assert(in_piece(pieces[k], j));
        }
        if covered(pieces, j) {
            let k = choose|k: int| 0 <= k < pieces.len() && in_piece(#[trigger] pieces[k], j);
            lemma_partition_ordered(pieces, lo, hi, chunk, k, k);
        }
    }
    assert forall|k: int, l: int, j: int|
        0 <= k < pieces.len() && 0 <= l < pieces.len() && #[trigger] in_piece(pieces[k], j)
            && #[trigger] in_piece(pieces[l], j) implies k == l by {
        lemma_partition_disjoint(pieces, lo, hi, chunk, k, l, j);
    }
}

/// Pieces of length `chunk` are at most `count` where `count` such pieces
/// reach from `lo` to `hi`.
pub proof fn lemma_chunks_count(lo: int, hi: int, chunk: int, count: int)
    requires
        chunk > 0,
        count >= 0,
        hi - lo <= count * chunk,
    ensures
        chunks(lo, hi, chunk).len() <= count,
    decreases hi - lo,
{
    if lo >= hi {
    } else {
        assert(count >= 1) by (nonlinear_arith)
            requires
                0 < hi - lo <= count * chunk,
                chunk > 0,
                count >= 0,
        ;
        if lo + chunk >= hi {
        } else {
            assert((count - 1) * chunk == count * chunk - chunk) by (nonlinear_arith);
            lemma_chunks_count(lo + chunk, hi, chunk, count - 1);
        }
    }
}

/// `m` divided by `w`, rounded up.
pub open spec fn ceil_div(m: int, w: int) -> int {
    if m % w == 0 {
        m / w
    } else {
        m / w + 1
    }
}

/// Rounding up reaches the dividend, and by less than one divisor.
pub proof fn lemma_ceil_div(m: int, w: int)
    requires
        m >= 0,
        w > 0,
    ensures
        m <= w * ceil_div(m, w) < m + w,
        m > 0 ==> ceil_div(m, w) > 0,
        ceil_div(m, w) <= m,
{
    vstd::arithmetic::div_mod::lemma_fundamental_div_mod(m, w);
    vstd::arithmetic::div_mod::lemma_mod_bound(m, w);
    let q = m / w;
    assert(w * (q + 1) == w * q + w) by (nonlinear_arith);
    assert(q >= 0 && (m > 0 && m % w == 0 ==> q > 0) && q <= m && (m % w != 0 ==> q + 1 <= m))
        by (nonlinear_arith)
        requires
            m == w * q + m % w,
            0 <= m % w < w,
            m >= 0,
            w > 0,
    ;
}

/// The number of pieces is the length of the run divided by the chunk
/// length, rounded up.
pub proof fn lemma_chunks_len(lo: int, hi: int, chunk: int)
    requires
        lo <= hi,
        chunk > 0,
    ensures
        chunks(lo, hi, chunk).len() == ceil_div(hi - lo, chunk),
    decreases hi - lo,
{
    let m = hi - lo;
    lemma_ceil_div(m, chunk);
    if lo >= hi {
    } else if lo + chunk >= hi {
        let c = ceil_div(m, chunk);
        assert(c == 1) by (nonlinear_arith)
            requires
                0 < m <= chunk,
                m <= chunk * c < m + chunk,
        ;
    } else {
        lemma_chunks_len(lo + chunk, hi, chunk);
        lemma_ceil_div(m - chunk, chunk);
        let c = ceil_div(m, chunk);
        let d = ceil_div(m - chunk, chunk);
        assert(c == d + 1) by (nonlinear_arith)
            requires
                chunk > 0,
                m <= chunk * c < m + chunk,
                m - chunk <= chunk * d < m,
        ;
    }
}

/// A longer chunk length cuts the same pieces once a single piece holds
/// the whole run.
pub proof fn lemma_chunks_whole(lo: int, hi: int, chunk: int, longer: int)
    requires
        chunk >= hi - lo,
        longer >= hi - lo,
        chunk > 0,
        longer > 0,
    ensures
        chunks(lo, hi, chunk) == chunks(lo, hi, longer),
{
}

/// `m` divided by `w`, rounded up.
pub fn div_up(m: usize, w: usize) -> (quotient: usize)
    requires
        w > 0,
    ensures
        quotient == ceil_div(m as int, w as int),
{
    proof {
        lemma_ceil_div(m as int, w as int);
    }
    if m % w == 0 {
        m / w
    } else {
        m / w + 1
    }
}

/// Cuts the indices from `lo` up to `hi` into pieces of `chunk` indices.
pub fn split(lo: usize, hi: usize, chunk: usize) -> (pieces: Vec<(usize, usize)>)
    requires
        chunk > 0,
    ensures
        pieces@.len() == chunks(lo as int, hi as int, chunk as int).len(),
        forall|k: int|
            0 <= k < pieces@.len() ==> (#[trigger] pieces@[k]).0 == chunks(
                lo as int,
                hi as int,
                chunk as int,
            )[k].0 && pieces@[k].1 == chunks(lo as int, hi as int, chunk as int)[k].1,
{
    let mut pieces: Vec<(usize, usize)> = Vec::new();
    let mut from: usize = lo;
    let ghost all = chunks(lo as int, hi as int, chunk as int);
    while from < hi
        invariant
            chunk > 0,
            lo <= from,
            from <= hi || lo >= hi,
            all == chunks(lo as int, hi as int, chunk as int),
            all =~= pieces@.map_values(|p: (usize, usize)| (p.0 as int, p.1 as int)) + chunks(
                from as int,
                hi as int,
                chunk as int,
            ),
        decreases hi - from,
    {
        let to: usize = if hi - from <= chunk {
            hi
        } else {
            from + chunk
        };
        let ghost before = pieces@.map_values(|p: (usize, usize)| (p.0 as int, p.1 as int));
        pieces.push((from, to));
        proof {
            let after = pieces@.map_values(|p: (usize, usize)| (p.0 as int, p.1 as int));
            assert(after =~= before + seq![(from as int, to as int)]);
            assert(chunks(from as int, hi as int, chunk as int) =~= seq![(from as int, to as int)]
                + chunks(to as int, hi as int, chunk as int));
        }
        from = to;
    }
    proof {
        let mapped = pieces@.map_values(|p: (usize, usize)| (p.0 as int, p.1 as int));
        assert(chunks(from as int, hi as int, chunk as int) =~= Seq::empty());
        assert(all =~= mapped);
        assert forall|k: int| 0 <= k < pieces@.len() implies (#[trigger] pieces@[k]).0 == all[k].0
            && pieces@[k].1 == all[k].1 by {
            assert(mapped[k] == (pieces@[k].0 as int, pieces@[k].1 as int));
        }
    }
    pieces
}

} // verus!
