//! How the flags of a sieve are laid out for an algorithm: how many flags
//! the base sieve takes, and how the rest is cut into the workers' pieces.

use crate::algorithm::Algorithm;
use crate::flag_data::{flags_per_word, storage_bytes, width_bytes, Encoding, Width};
use crate::number::{flag_count, int_sqrt, isqrt, lemma_int_sqrt};
use crate::partition::{
    ceil_div, chunks, covered, div_up, in_piece, is_partition, lemma_ceil_div, lemma_chunks_count,
    lemma_chunks_len, lemma_chunks_partition, lemma_chunks_whole, lemma_partition_exact, split,
};
use vstd::prelude::*;

verus! {

/// The parameters of a sieve are usable: a tile holds at least one word,
/// and the algorithms that divide the work have at least one worker.
pub open spec fn valid_parameters(algorithm: Algorithm, width: Width, workers: int) -> bool {
    match algorithm {
        Algorithm::Serial => true,
        Algorithm::Stream => workers >= 1,
        Algorithm::Tile(working_set) => workers >= 1 && working_set >= width_bytes(width),
    }
}

/// Whether the parameters of a sieve are usable.
pub fn usable(algorithm: Algorithm, width: Width, workers: usize) -> (usable: bool)
    ensures
        usable == valid_parameters(algorithm, width, workers as int),
{
    match algorithm {
        Algorithm::Serial => true,
        Algorithm::Stream => workers >= 1,
        Algorithm::Tile(working_set) => workers >= 1 && working_set >= width.bytes(),
    }
}

/// The number of flags that the base sieve takes: all of them for the
/// serial algorithm, else those of the numbers up to the square root of
/// `size`.
pub open spec fn base_len(size: int, algorithm: Algorithm) -> int {
    match algorithm {
        Algorithm::Serial => flag_count(size),
        _ => flag_count(int_sqrt(size)),
    }
}

/// The number of whole words in `working_set` bytes.
pub open spec fn tile_words(working_set: int, width: Width) -> int {
    match width {
        Width::U8 => working_set,
        Width::U32 => working_set / 4,
    }
}

/// The number of flags whose words fill a working set of `working_set`
/// bytes.
pub open spec fn tile_flags(working_set: int, encoding: Encoding, width: Width) -> int {
    tile_words(working_set, width) * flags_per_word(encoding, width)
}

/// The number of flags of each piece but the last.
pub open spec fn chunk_len(
    size: int,
    algorithm: Algorithm,
    encoding: Encoding,
    width: Width,
    workers: int,
) -> int {
    match algorithm {
        Algorithm::Serial => 1,
        Algorithm::Stream => ceil_div(flag_count(size) - base_len(size, algorithm), workers),
        Algorithm::Tile(working_set) => tile_flags(working_set as int, encoding, width),
    }
}

/// The pieces that the flags beyond the base sieve are cut into, each a
/// pair of its first index and the index after its last.
pub open spec fn pieces(
    size: int,
    algorithm: Algorithm,
    encoding: Encoding,
    width: Width,
    workers: int,
) -> Seq<(int, int)> {
    chunks(
        base_len(size, algorithm),
        flag_count(size),
        chunk_len(size, algorithm, encoding, width, workers),
    )
}

/// How `count` pieces are dealt out to at most `workers` workers: each
/// worker takes a block of neighbouring pieces, all blocks but the last of
/// one length. A block is a pair of the place of its first piece and the
/// place after its last.
pub open spec fn blocks(count: int, workers: int) -> Seq<(int, int)> {
    chunks(0, count, ceil_div(count, workers))
}

/// The number of workers that a pass is divided among: one for each block
/// of pieces, and where there is no piece, the one worker of the base
/// sieve.
pub open spec fn threads(
    size: int,
    algorithm: Algorithm,
    encoding: Encoding,
    width: Width,
    workers: int,
) -> int {
    let count = pieces(size, algorithm, encoding, width, workers).len() as int;
    if count == 0 {
        1
    } else {
        blocks(count, workers).len() as int
    }
}

/// The base sieve takes no more flags than there are.
pub proof fn lemma_base_len_bound(size: int, algorithm: Algorithm)
    requires
        size >= 0,
    ensures
        0 <= base_len(size, algorithm) <= flag_count(size),
{
    lemma_int_sqrt(size);
    let root = int_sqrt(size);
    assert(root <= size) by (nonlinear_arith)
        requires
            root >= 0,
            root * root <= size,
    ;
}

/// Where flags are left beyond the base sieve, usable parameters cut them
/// into pieces of at least one flag.
pub proof fn lemma_chunk_len_positive(
    size: int,
    algorithm: Algorithm,
    encoding: Encoding,
    width: Width,
    workers: int,
)
    requires
        valid_parameters(algorithm, width, workers),
        base_len(size, algorithm) < flag_count(size),
    ensures
        chunk_len(size, algorithm, encoding, width, workers) > 0,
{
    match algorithm {
        Algorithm::Serial => {},
        Algorithm::Stream => {
            lemma_ceil_div(flag_count(size) - base_len(size, algorithm), workers);
        },
        Algorithm::Tile(working_set) => {
            let words = tile_words(working_set as int, width);
            let per_word = flags_per_word(encoding, width);
            assert(words * per_word >= 1) by (nonlinear_arith)
                requires
                    words >= 1,
                    per_word >= 1,
            ;
        },
    }
}

/// The pieces of the workers are non-empty, lie one after the other, and
/// together cover exactly the flags beyond the base sieve: every such
/// flag lies in one piece, none in two, and no piece reaches a flag of
/// the base sieve or beyond the last flag.
pub proof fn lemma_pieces_partition(
    size: int,
    algorithm: Algorithm,
    encoding: Encoding,
    width: Width,
    workers: int,
)
    requires
        size >= 0,
        valid_parameters(algorithm, width, workers),
    ensures
        is_partition(
            pieces(size, algorithm, encoding, width, workers),
            base_len(size, algorithm),
            flag_count(size),
            chunk_len(size, algorithm, encoding, width, workers),
        ),
        forall|j: int| #[trigger]
            covered(pieces(size, algorithm, encoding, width, workers), j) <==> base_len(
                size,
                algorithm,
            ) <= j < flag_count(size),
        forall|k: int, l: int, j: int|
            0 <= k < pieces(size, algorithm, encoding, width, workers).len() && 0 <= l < pieces(
                size,
                algorithm,
                encoding,
                width,
                workers,
            ).len() && #[trigger] in_piece(
                pieces(size, algorithm, encoding, width, workers)[k],
                j,
            ) && #[trigger] in_piece(pieces(size, algorithm, encoding, width, workers)[l], j) ==> k
                == l,
{
    let lo = base_len(size, algorithm);
    let hi = flag_count(size);
    let chunk = chunk_len(size, algorithm, encoding, width, workers);
    lemma_base_len_bound(size, algorithm);
    if lo < hi {
        lemma_chunk_len_positive(size, algorithm, encoding, width, workers);
        lemma_chunks_partition(lo, hi, chunk);
    }
    lemma_partition_exact(pieces(size, algorithm, encoding, width, workers), lo, hi, chunk);
}

/// The storage of a tile takes no more bytes than the working set.
pub proof fn lemma_tile_fits(working_set: int, encoding: Encoding, width: Width, len: int)
    requires
        working_set >= width_bytes(width),
        0 <= len <= tile_flags(working_set, encoding, width),
    ensures
        storage_bytes(encoding, width, len) <= working_set,
{
    let words = tile_words(working_set, width);
    match encoding {
        Encoding::Bool => {
            assert(words * 1 == words);
        },
        Encoding::Bit => match width {
            Width::U8 => {
                assert(words * 8 == 8 * words);
            },
            Width::U32 => {
                assert(words * 32 == 32 * words);
            },
        },
    }
}

/// The number of flags for the numbers up to `size`.
pub fn flags_for(size: usize) -> (count: usize)
    ensures
        count == flag_count(size as int),
        count <= usize::MAX / 2 + 1,
{
    if size < 2 {
        0
    } else {
        size / 2 + size % 2
    }
}

/// The number of flags that the base sieve takes.
pub fn base_flags(size: usize, algorithm: Algorithm) -> (count: usize)
    ensures
        count == base_len(size as int, algorithm),
        count <= flag_count(size as int),
{
    match algorithm {
        Algorithm::Serial => flags_for(size),
        _ => {
            let root = isqrt(size);
            proof {
                assert(root <= size) by (nonlinear_arith)
                    requires
                        root * root <= size,
                        root >= 0,
                ;
            }
            flags_for(root)
        },
    }
}

/// The number of flags that one word holds.
pub fn word_flags(encoding: Encoding, width: Width) -> (count: usize)
    ensures
        count == flags_per_word(encoding, width),
{
    match encoding {
        Encoding::Bool => 1,
        Encoding::Bit => width.bits(),
    }
}

/// A chunk length that cuts the flags beyond the base sieve into the
/// pieces of the algorithm. It is never longer than the run that it cuts.
fn piece_len(
    size: usize,
    algorithm: Algorithm,
    encoding: Encoding,
    width: Width,
    workers: usize,
) -> (chunk: usize)
    requires
        valid_parameters(algorithm, width, workers as int),
    ensures
        chunk > 0,
        chunks(base_len(size as int, algorithm), flag_count(size as int), chunk as int) == pieces(
            size as int,
            algorithm,
            encoding,
            width,
            workers as int,
        ),
{
    let count = flags_for(size);
    let base = base_flags(size, algorithm);
    let rest = count - base;
    if rest == 0 {
        return 1;
    }
    match algorithm {
        Algorithm::Serial => 1,
        Algorithm::Stream => {
            proof {
                lemma_ceil_div(rest as int, workers as int);
            }
            div_up(rest, workers)
        },
        Algorithm::Tile(working_set) => {
            let words = match width {
                Width::U8 => working_set,
                Width::U32 => working_set / 4,
            };
            let per_word = word_flags(encoding, width);
            proof {
                vstd::arithmetic::div_mod::lemma_fundamental_div_mod(rest as int, per_word as int);
                let quotient = rest as int / per_word as int;
                assert(words > quotient ==> words * per_word >= rest) by (nonlinear_arith)
                    requires
                        rest == per_word * quotient + rest % per_word,
                        rest % per_word < per_word,
                        per_word > 0,
                ;
                assert(words <= quotient ==> 0 < words * per_word <= rest) by (nonlinear_arith)
                    requires
                        rest == per_word * quotient + rest % per_word,
                        0 <= rest % per_word,
                        per_word > 0,
                        words >= 1,
                ;
            }
            if words > rest / per_word {
                proof {
                    lemma_chunks_whole(
                        base as int,
                        count as int,
                        rest as int,
                        tile_flags(working_set as int, encoding, width),
                    );
                }
                rest
            } else {
                words * per_word
            }
        },
    }
}

/// The pieces that the flags beyond the base sieve are cut into for the
/// workers, in rising order.
pub fn cut(
    size: usize,
    algorithm: Algorithm,
    encoding: Encoding,
    width: Width,
    workers: usize,
) -> (cuts: Vec<(usize, usize)>)
    requires
        valid_parameters(algorithm, width, workers as int),
    ensures
        cuts@.len() == pieces(size as int, algorithm, encoding, width, workers as int).len(),
        forall|k: int|
            0 <= k < cuts@.len() ==> (#[trigger] cuts@[k]).0 == pieces(
                size as int,
                algorithm,
                encoding,
                width,
                workers as int,
            )[k].0 && cuts@[k].1 == pieces(
                size as int,
                algorithm,
                encoding,
                width,
                workers as int,
            )[k].1,
{
    let count = flags_for(size);
    let base = base_flags(size, algorithm);
    let chunk = piece_len(size, algorithm, encoding, width, workers);
    split(base, count, chunk)
}

/// The number of workers that `count` pieces are dealt out to.
pub fn block_count(count: usize, workers: usize) -> (used: usize)
    requires
        workers > 0,
    ensures
        used == blocks(count as int, workers as int).len(),
        used <= workers,
        count > 0 ==> used >= 1,
{
    if count == 0 {
        return 0;
    }
    let each = div_up(count, workers);
    proof {
        lemma_ceil_div(count as int, workers as int);
        lemma_ceil_div(count as int, each as int);
        lemma_chunks_len(0, count as int, each as int);
        assert(workers * each == each * workers) by (nonlinear_arith);
        lemma_chunks_count(0, count as int, each as int, workers as int);
    }
    div_up(count, each)
}

/// A pass is divided among one worker by the serial algorithm, and among
/// at least one and at most `workers` workers by the others.
pub proof fn lemma_threads_bounds(
    size: int,
    algorithm: Algorithm,
    encoding: Encoding,
    width: Width,
    workers: int,
)
    requires
        size >= 0,
        valid_parameters(algorithm, width, workers),
    ensures
        algorithm == Algorithm::Serial ==> threads(size, algorithm, encoding, width, workers) == 1,
        algorithm != Algorithm::Serial ==> 1 <= threads(size, algorithm, encoding, width, workers)
            <= workers,
{
    let count = pieces(size, algorithm, encoding, width, workers).len() as int;
    if count > 0 {
        assert(algorithm != Algorithm::Serial);
        let each = ceil_div(count, workers);
        lemma_ceil_div(count, workers);
        lemma_ceil_div(count, each);
        lemma_chunks_len(0, count, each);
        assert(workers * each == each * workers) by (nonlinear_arith);
        lemma_chunks_count(0, count, each, workers);
    }
}

} // verus!
