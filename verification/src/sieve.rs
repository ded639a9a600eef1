//! The sieve engine: flag storage bound to an algorithm, built once, run
//! once, and then only read.

use crate::algorithm::Algorithm;
use crate::flag_data::{
    all_set, count_set, fits, lemma_storage_bytes_grow, storage_bytes, width_bytes, Encoding,
    Width,
};
use crate::number::{
    flag_count, index_of, int_sqrt, is_prime, is_root, isqrt, lemma_int_sqrt, lemma_lists_one_more,
    lemma_primes_at_all, lemma_primes_at_bound, lemma_primes_at_split, lists_odd_primes, number_at,
    prime_count, primes_at,
};
use crate::partition::{
    ceil_div, div_up, is_partition, lemma_ceil_div, lemma_chunks_partition, lemma_partition_covers,
    lemma_partition_disjoint, lemma_partition_ordered, split,
};
use crate::plan::{
    base_flags, base_len, block_count, blocks, chunk_len, cut, flags_for, lemma_base_len_bound,
    lemma_chunk_len_positive, lemma_threads_bounds, pieces, threads, usable, valid_parameters,
};
use crate::segment::{after_strikes, lemma_count_of_marked, lemma_strikes_mark_primes, Segment};
use crate::worker::{deal, gather, lemma_all_pieces, ready, run_all, Worker};
use vstd::prelude::*;

verus! {

/// Why a sieve could not be built.
#[derive(Clone, Copy, Debug, PartialEq, Eq, Structural)]
pub enum SieveError {
    /// The working set of the tile algorithm is smaller than one storage
    /// word, so that no tile could hold a flag.
    WorkingSetTooSmall,
    /// An algorithm that divides the work was given no worker.
    NoWorkers,
    /// The flags would take more bytes than one allocation can have.
    TooLarge,
}

/// What `Sieve::new` answers to the given parameters.
pub open spec fn rejection(
    size: int,
    algorithm: Algorithm,
    encoding: Encoding,
    width: Width,
    workers: int,
) -> Option<SieveError> {
    if algorithm matches Algorithm::Tile(working_set) && working_set < width_bytes(width) {
        Some(SieveError::WorkingSetTooSmall)
    } else if algorithm != Algorithm::Serial && workers == 0 {
        Some(SieveError::NoWorkers)
    } else if storage_bytes(encoding, width, flag_count(size)) > isize::MAX {
        Some(SieveError::TooLarge)
    } else {
        None
    }
}

/// A sieve over the numbers up to and including `size`. The flag of 2 and
/// of each odd number from 3 on is kept; the flags of the base sieve and
/// the pieces of the workers each have their own storage.
pub struct Sieve {
    size: usize,
    algorithm: Algorithm,
    encoding: Encoding,
    width: Width,
    workers: usize,
    base: Segment,
    segments: Vec<Segment>,
    done: bool,
}

/// A sieve in the middle of its pass: the base sieve has run, and the
/// pieces beyond it are out with the workers.
pub struct Fork {
    size: usize,
    algorithm: Algorithm,
    encoding: Encoding,
    width: Width,
    workers: usize,
    base: Segment,
}

/// The pieces `plan` are dealt out to `workers` in blocks: each worker
/// holds the pieces of its block, in their order, with storage of the
/// given encoding and width, and lists the base primes up to `top`.
pub open spec fn dealt_out(
    plan: Seq<(int, int)>,
    encoding: Encoding,
    width: Width,
    top: int,
    most: int,
    workers: Seq<Worker>,
) -> bool {
    let deal = blocks(plan.len() as int, most);
    &&& workers.len() == deal.len()
    &&& forall|j: int|
        0 <= j < workers.len() ==> (#[trigger] workers[j]).wf() && workers[j].holds_cuts(
            plan,
            deal[j].0,
            deal[j].1 - deal[j].0,
            encoding,
            width,
            top,
        )
}

/// Workers that have run hold the pieces that they held before.
pub proof fn lemma_dealt_out_after_run(
    plan: Seq<(int, int)>,
    encoding: Encoding,
    width: Width,
    top: int,
    most: int,
    before: Seq<Worker>,
    after: Seq<Worker>,
)
    requires
        dealt_out(plan, encoding, width, top, most, before),
        after.len() == before.len(),
        forall|j: int|
            0 <= j < after.len() ==> (#[trigger] after[j]).wf() && after[j].same_pieces(&before[j]),
    ensures
        dealt_out(plan, encoding, width, top, most, after),
{
    let deal = blocks(plan.len() as int, most);
    assert forall|j: int| 0 <= j < after.len() implies (#[trigger] after[j]).wf()
        && after[j].holds_cuts(plan, deal[j].0, deal[j].1 - deal[j].0, encoding, width, top) by {
        assert(before[j].wf());
        assert(after[j].same_pieces(&before[j]));
        assert forall|i: int| 0 <= i < after[j].spec_segments().len() implies {
            &&& (#[trigger] after[j].spec_segments()[i]).spec_start() == plan[deal[j].0 + i].0
            &&& after[j].spec_segments()[i].spec_end() == plan[deal[j].0 + i].1
            &&& after[j].spec_segments()[i].spec_encoding() == encoding
            &&& after[j].spec_segments()[i].spec_width() == width
        } by {
            let segment = before[j].spec_segments()[i];
            assert(segment.spec_start() == plan[deal[j].0 + i].0);
        }
    }
}

impl Fork {
    /// The largest number that the sieve covers.
    pub closed spec fn spec_size(&self) -> usize {
        self.size
    }

    /// The algorithm of the sieve.
    pub closed spec fn spec_algorithm(&self) -> Algorithm {
        self.algorithm
    }

    /// The encoding of the flag storage.
    pub closed spec fn spec_encoding(&self) -> Encoding {
        self.encoding
    }

    /// The word width of the flag storage.
    pub closed spec fn spec_width(&self) -> Width {
        self.width
    }

    /// The number of workers that the sieve was built for.
    pub closed spec fn spec_workers(&self) -> usize {
        self.workers
    }

    /// The pieces that the flags beyond the base sieve are cut into.
    pub open spec fn spec_pieces(&self) -> Seq<(int, int)> {
        pieces(
            self.spec_size() as int,
            self.spec_algorithm(),
            self.spec_encoding(),
            self.spec_width(),
            self.spec_workers() as int,
        )
    }

    /// The largest number that the sieve covers.
    pub fn size(&self) -> (size: usize)
        ensures
            size == self.spec_size(),
    {
        self.size
    }

    /// Whether `workers` hold the pieces of this sieve and have all run:
    /// what `join` asks of them.
    pub fn accepts(&self, workers: &Vec<Worker>) -> (accepts: bool)
        requires
            self.wf(),
            forall|j: int| 0 <= j < workers@.len() ==> (#[trigger] workers@[j]).wf(),
        ensures
            accepts == (self.holds(workers@) && forall|j: int|
                0 <= j < workers@.len() ==> (#[trigger] workers@[j]).spec_is_done()),
    {
        let cuts = cut(self.size, self.algorithm, self.encoding, self.width, self.workers);
        let top = isqrt(self.size);
        let count = cuts.len();
        let ghost plan = self.spec_pieces();
        let ghost deal = blocks(count as int, self.workers as int);
        proof {
            assert(cuts@.map_values(|cut: (usize, usize)| (cut.0 as int, cut.1 as int)) =~= plan);
        }
        if count == 0 {
            return workers.len() == 0;
        }
        let each = div_up(count, self.workers);
        proof {
            lemma_ceil_div(count as int, self.workers as int);
            lemma_chunks_partition(0, count as int, each as int);
        }
        let shares = split(0, count, each);
        if workers.len() != shares.len() {
            return false;
        }
        let mut j: usize = 0;
        while j < workers.len()
            invariant
                j <= workers@.len(),
                workers@.len() == shares@.len(),
                shares@.len() == deal.len(),
                deal == blocks(self.spec_pieces().len() as int, self.workers as int),
                plan == self.spec_pieces(),
                top == int_sqrt(self.size as int),
                count == cuts@.len(),
                is_partition(deal, 0, count as int, each as int),
                forall|i: int|
                    0 <= i < shares@.len() ==> (#[trigger] shares@[i]).0 == deal[i].0
                        && shares@[i].1 == deal[i].1,
                cuts@.map_values(|cut: (usize, usize)| (cut.0 as int, cut.1 as int)) == plan,
                forall|i: int| 0 <= i < workers@.len() ==> (#[trigger] workers@[i]).wf(),
                forall|i: int|
                    0 <= i < j ==> (#[trigger] workers@[i]).spec_is_done() && workers@[i].holds_cuts(
                        plan,
                        deal[i].0,
                        deal[i].1 - deal[i].0,
                        self.encoding,
                        self.width,
                        top as int,
                    ),
            decreases workers@.len() - j,
        {
            let (from, to) = shares[j];
            proof {
                assert(shares@[j as int].0 == deal[j as int].0);
                lemma_partition_ordered(deal, 0, count as int, each as int, j as int, j as int);
            }
            if !workers[j].is_done() || !workers[j].has_cuts(
                &cuts,
                from,
                to,
                self.encoding,
                self.width,
                top,
            ) {
                proof {
                    let worker = workers@[j as int];
                    assert(!(worker.spec_is_done() && worker.holds_cuts(
                        plan,
                        deal[j as int].0,
                        deal[j as int].1 - deal[j as int].0,
                        self.encoding,
                        self.width,
                        top as int,
                    )));
                }
                return false;
            }
            j = j + 1;
        }
        true
    }

    /// The workers `workers` hold the pieces of this sieve.
    pub open spec fn holds(&self, workers: Seq<Worker>) -> bool {
        dealt_out(
            self.spec_pieces(),
            self.spec_encoding(),
            self.spec_width(),
            int_sqrt(self.spec_size() as int),
            self.spec_workers() as int,
            workers,
        )
    }

    /// The base sieve is laid out as the parameters ask and has run.
    pub closed spec fn wf(&self) -> bool {
        &&& valid_parameters(self.algorithm, self.width, self.workers as int)
        &&& self.base.wf()
        &&& self.base.spec_start() == 0
        &&& self.base@.len() == base_len(self.size as int, self.algorithm)
        &&& self.base.spec_encoding() == self.encoding
        &&& self.base.spec_width() == self.width
        &&& self.base.marks_primes()
    }
}

impl View for Sieve {
    type V = Seq<bool>;

    /// The flags of the sieve in the order of their indices, the flag of
    /// 2 first, then those of 3, 5, 7 and so on.
    closed spec fn view(&self) -> Seq<bool> {
        Seq::new(flag_count(self.size as int) as nat, |j: int| self.flag_at(j))
    }
}

impl Sieve {
    /// The largest number that the sieve covers.
    pub closed spec fn spec_size(&self) -> usize {
        self.size
    }

    /// The algorithm of the sieve.
    pub closed spec fn spec_algorithm(&self) -> Algorithm {
        self.algorithm
    }

    /// The encoding of the flag storage.
    pub closed spec fn spec_encoding(&self) -> Encoding {
        self.encoding
    }

    /// The word width of the flag storage.
    pub closed spec fn spec_width(&self) -> Width {
        self.width
    }

    /// The number of workers that the sieve was built for.
    pub closed spec fn spec_workers(&self) -> usize {
        self.workers
    }

    /// Whether the marking pass has run.
    pub closed spec fn spec_is_done(&self) -> bool {
        self.done
    }

    /// The pieces that the flags beyond the base sieve are cut into.
    pub open spec fn spec_pieces(&self) -> Seq<(int, int)> {
        pieces(
            self.spec_size() as int,
            self.spec_algorithm(),
            self.spec_encoding(),
            self.spec_width(),
            self.spec_workers() as int,
        )
    }

    /// The flag at index `j`, looked up in the storage that holds it.
    closed spec fn flag_at(&self, j: int) -> bool {
        if j < self.base@.len() {
            self.base@[j]
        } else {
            exists|k: int|
                0 <= k < self.segments@.len() && (#[trigger] self.segments@[k]).spec_start() <= j
                    < self.segments@[k].spec_end() && self.segments@[k]@[j
                    - self.segments@[k].spec_start()]
        }
    }

    /// The storage is laid out as the parameters ask.
    closed spec fn laid_out(&self) -> bool {
        &&& valid_parameters(self.algorithm, self.width, self.workers as int)
        &&& self.base.wf()
        &&& self.base.spec_start() == 0
        &&& self.base@.len() == base_len(self.size as int, self.algorithm)
        &&& self.base.spec_encoding() == self.encoding
        &&& self.base.spec_width() == self.width
        &&& self.segments@.len() == self.spec_pieces().len()
        &&& forall|k: int|
            0 <= k < self.segments@.len() ==> {
                &&& (#[trigger] self.segments@[k]).wf()
                &&& self.segments@[k].spec_start() == self.spec_pieces()[k].0
                &&& self.segments@[k].spec_end() == self.spec_pieces()[k].1
                &&& self.segments@[k].spec_encoding() == self.encoding
                &&& self.segments@[k].spec_width() == self.width
            }
    }

    /// The storage is laid out as the parameters ask; before the pass
    /// every flag is set, and after it exactly the flags of the primes.
    pub closed spec fn wf(&self) -> bool {
        &&& self.laid_out()
        &&& !self.done ==> {
            &&& self.base@ == all_set(self.base@.len())
            &&& forall|k: int|
                0 <= k < self.segments@.len() ==> (#[trigger] self.segments@[k])@ == all_set(
                    self.segments@[k]@.len(),
                )
        }
        &&& self.done ==> {
            &&& self.base.marks_primes()
            &&& forall|k: int|
                0 <= k < self.segments@.len() ==> (#[trigger] self.segments@[k]).marks_primes()
        }
    }

    /// Where the base sieve and every piece agree with `value` on each of
    /// their flags, the sieve as a whole does.
    proof fn lemma_flags(&self, value: spec_fn(int) -> bool)
        requires
            self.laid_out(),
            forall|i: int| 0 <= i < self.base@.len() ==> #[trigger] self.base@[i] == value(i),
            forall|k: int, i: int|
                0 <= k < self.segments@.len() && 0 <= i < self.segments@[k]@.len()
                    ==> #[trigger] self.segments@[k]@[i] == value(
                    self.segments@[k].spec_start() + i,
                ),
        ensures
            self@.len() == flag_count(self.size as int),
            forall|j: int| 0 <= j < self@.len() ==> #[trigger] self@[j] == value(j),
    {
        let lo = base_len(self.size as int, self.algorithm);
        let hi = flag_count(self.size as int);
        let chunk = chunk_len(
            self.size as int,
            self.algorithm,
            self.encoding,
            self.width,
            self.workers as int,
        );
        assert forall|j: int| 0 <= j < self@.len() implies #[trigger] self@[j] == value(j) by {
            if j >= lo {
                if value(j) {
                    lemma_chunk_len_positive(
                        self.size as int,
                        self.algorithm,
                        self.encoding,
                        self.width,
                        self.workers as int,
                    );
                    lemma_chunks_partition(lo, hi, chunk);
                    let k = lemma_partition_covers(self.spec_pieces(), lo, hi, chunk, j);
                    let i = j - self.segments@[k].spec_start();
                    assert(self.segments@[k]@[i] == value(self.segments@[k].spec_start() + i));
                }
                if self.flag_at(j) {
                    let k = choose|k: int|
                        0 <= k < self.segments@.len() && (#[trigger] self.segments@[k]).spec_start()
                            <= j < self.segments@[k].spec_end() && self.segments@[k]@[j
                            - self.segments@[k].spec_start()];
                    let i = j - self.segments@[k].spec_start();
                    assert(self.segments@[k]@[i] == value(self.segments@[k].spec_start() + i));
                }
            }
        }
    }

    /// A sieve for the numbers up to and including `size`, with all flags
    /// set. The parameters are checked before anything is allocated.
    pub fn new(
        size: usize,
        algorithm: Algorithm,
        encoding: Encoding,
        width: Width,
        workers: usize,
    ) -> (made: Result<Sieve, SieveError>)
        ensures
            match made {
                Ok(sieve) => {
                    &&& rejection(size as int, algorithm, encoding, width, workers as int) is None
                    &&& sieve.wf()
                    &&& sieve.spec_size() == size
                    &&& sieve.spec_algorithm() == algorithm
                    &&& sieve.spec_encoding() == encoding
                    &&& sieve.spec_width() == width
                    &&& sieve.spec_workers() == workers
                    &&& !sieve.spec_is_done()
                    &&& sieve@ == all_set(flag_count(size as int) as nat)
                },
                Err(error) => rejection(size as int, algorithm, encoding, width, workers as int)
                    == Some(error),
            },
    {
        if let Algorithm::Tile(working_set) = algorithm {
            if working_set < width.bytes() {
                return Err(SieveError::WorkingSetTooSmall);
            }
        }
        if !usable(algorithm, width, workers) {
            return Err(SieveError::NoWorkers);
        }
        let count = flags_for(size);
        if !fits(encoding, width, count) {
            return Err(SieveError::TooLarge);
        }
        let base_count = base_flags(size, algorithm);
        proof {
            lemma_storage_bytes_grow(encoding, width, base_count as int, count as int);
        }
        let base = Segment::new(encoding, width, 0, base_count);
        let cuts = cut(size, algorithm, encoding, width, workers);
        let ghost plan = pieces(size as int, algorithm, encoding, width, workers as int);
        let ghost chunk = chunk_len(size as int, algorithm, encoding, width, workers as int);
        let mut segments: Vec<Segment> = Vec::new();
        let mut k: usize = 0;
        while k < cuts.len()
            invariant
                k <= cuts@.len(),
                cuts@.len() == plan.len(),
                plan == pieces(size as int, algorithm, encoding, width, workers as int),
                chunk == chunk_len(size as int, algorithm, encoding, width, workers as int),
                forall|i: int|
                    0 <= i < cuts@.len() ==> (#[trigger] cuts@[i]).0 == plan[i].0 && cuts@[i].1
                        == plan[i].1,
                count == flag_count(size as int),
                count <= usize::MAX / 2 + 1,
                base_count == base_len(size as int, algorithm),
                valid_parameters(algorithm, width, workers as int),
                storage_bytes(encoding, width, count as int) <= isize::MAX,
                segments@.len() == k,
                forall|i: int|
                    0 <= i < k ==> {
                        &&& (#[trigger] segments@[i]).wf()
                        &&& segments@[i].spec_start() == plan[i].0
                        &&& segments@[i].spec_end() == plan[i].1
                        &&& segments@[i].spec_encoding() == encoding
                        &&& segments@[i].spec_width() == width
                        &&& segments@[i]@ == all_set(segments@[i]@.len())
                    },
            decreases cuts@.len() - k,
        {
            let (from, to) = cuts[k];
            proof {
                assert(cuts@[k as int].0 == plan[k as int].0);
                lemma_chunk_len_positive(size as int, algorithm, encoding, width, workers as int);
                lemma_chunks_partition(base_count as int, count as int, chunk);
                lemma_partition_ordered(
                    plan,
                    base_count as int,
                    count as int,
                    chunk,
                    k as int,
                    k as int,
                );
                lemma_storage_bytes_grow(encoding, width, to - from, count as int);
            }
            segments.push(Segment::new(encoding, width, from, to - from));
            k = k + 1;
        }
        let sieve = Sieve { size, algorithm, encoding, width, workers, base, segments, done: false };
        proof {
            sieve.lemma_flags(|j: int| true);
            assert(sieve@ =~= all_set(flag_count(size as int) as nat));
        }
        Ok(sieve)
    }

    /// The one marking pass of the sieve, carried out in the calling
    /// thread. The base sieve runs the classic way; each piece beyond it
    /// then takes one pass with every base prime, and touches no flag but
    /// its own. Afterwards exactly the flags of the primes are set. On a
    /// sieve whose pass has run, nothing is left to do and nothing is
    /// done. To have the pieces marked side by side, use `fork` and
    /// `join`.
    pub fn sieve(&mut self)
        requires
            old(self).wf(),
        ensures
            final(self).wf(),
            final(self).spec_is_done(),
            final(self).spec_size() == old(self).spec_size(),
            final(self).spec_algorithm() == old(self).spec_algorithm(),
            final(self).spec_encoding() == old(self).spec_encoding(),
            final(self).spec_width() == old(self).spec_width(),
            final(self).spec_workers() == old(self).spec_workers(),
            final(self)@.len() == flag_count(old(self).spec_size() as int),
            forall|j: int|
                0 <= j < final(self)@.len() ==> #[trigger] final(self)@[j] == is_prime(number_at(j)),
    {
        if !self.done {
            assert(forall|i: int| 0 <= i < self.base@.len() ==> self.base@[i]);
            self.base.sieve();
            if self.segments.len() > 0 {
                let primes = self.base.primes();
                let ghost root = int_sqrt(self.size as int);
                let ghost count = flag_count(self.size as int);
                proof {
                    assert(self.algorithm != Algorithm::Serial);
                    lemma_int_sqrt(self.size as int);
                    if root < 2 {
                        lemma_lists_one_more(primes@, -1);
                        lemma_lists_one_more(primes@, 0);
                    } else if root % 2 == 0 {
                        lemma_lists_one_more(primes@, root - 1);
                    }
                    assert(lists_odd_primes(primes@, root));
                    assert forall|k: int| 0 <= k < primes@.len() implies 3 <= #[trigger] primes@[k]
                        && primes@[k] % 2 == 1 && primes@[k] * primes@[k] <= usize::MAX by {
                        let q = primes@[k] as int;
                        assert(q * q <= root * root) by (nonlinear_arith)
                            requires
                                0 <= q <= root,
                        ;
                    }
                }
                let mut k: usize = 0;
                while k < self.segments.len()
                    invariant
                        self.laid_out(),
                        !self.done,
                        self.base.marks_primes(),
                        self.size == old(self).size,
                        self.algorithm == old(self).algorithm,
                        self.encoding == old(self).encoding,
                        self.width == old(self).width,
                        self.workers == old(self).workers,
                        k <= self.segments@.len(),
                        root == int_sqrt(self.size as int),
                        is_root(root, self.size as int),
                        count == flag_count(self.size as int),
                        lists_odd_primes(primes@, root),
                        forall|k: int|
                            0 <= k < primes@.len() ==> 3 <= #[trigger] primes@[k] && primes@[k] % 2
                                == 1 && primes@[k] * primes@[k] <= usize::MAX,
                        forall|i: int|
                            0 <= i < k ==> (#[trigger] self.segments@[i]).marks_primes(),
                        forall|i: int|
                            k <= i < self.segments@.len() ==> (#[trigger] self.segments@[i])@
                                == all_set(self.segments@[i]@.len()),
                    decreases self.segments@.len() - k,
                {
                    let ghost before = self.segments@;
                    self.segments[k].sieve_with(&primes);
                    proof {
                        let segment = self.segments@[k as int];
                        let lo = base_len(self.size as int, self.algorithm);
                        let chunk = chunk_len(
                            self.size as int,
                            self.algorithm,
                            self.encoding,
                            self.width,
                            self.workers as int,
                        );
                        assert(before[k as int].wf());
                        lemma_chunk_len_positive(
                            self.size as int,
                            self.algorithm,
                            self.encoding,
                            self.width,
                            self.workers as int,
                        );
                        lemma_chunks_partition(lo, count, chunk);
                        lemma_partition_ordered(
                            self.spec_pieces(),
                            lo,
                            count,
                            chunk,
                            k as int,
                            k as int,
                        );
                        assert(segment@ == after_strikes(
                            all_set(segment@.len()),
                            segment.spec_start() as int,
                            primes@,
                        ));
                        lemma_strikes_mark_primes(
                            segment@,
                            segment.spec_start() as int,
                            primes@,
                            root,
                        );
                        assert forall|i: int| 0 <= i < self.segments@.len() && i != k implies self.segments@[i]
                            == before[i] by {}
                    }
                    k = k + 1;
                }
            }
            self.done = true;
        }
        proof {
            self.lemma_flags(|j: int| is_prime(number_at(j)));
        }
    }

    /// The number of primes up to and including the size of the sieve,
    /// found by one scan of the flags. Before the pass has run, 0.
    pub fn count_primes(&self) -> (count: usize)
        requires
            self.wf(),
        ensures
            self.spec_is_done() ==> count == prime_count(self.spec_size() as int) && count
                == count_set(self@),
            !self.spec_is_done() ==> count == 0,
    {
        if !self.done {
            return 0;
        }
        proof {
            self.lemma_count_is_prime_count();
        }
        let ghost lo = base_len(self.size as int, self.algorithm);
        let ghost hi = flag_count(self.size as int);
        let ghost chunk = chunk_len(
            self.size as int,
            self.algorithm,
            self.encoding,
            self.width,
            self.workers as int,
        );
        let ghost plan = self.spec_pieces();
        let mut count = self.base.count();
        let mut k: usize = 0;
        proof {
            lemma_primes_at_bound(0, lo);
            lemma_base_len_bound(self.size as int, self.algorithm);
            if lo < hi {
                lemma_chunk_len_positive(
                    self.size as int,
                    self.algorithm,
                    self.encoding,
                    self.width,
                    self.workers as int,
                );
                lemma_chunks_partition(lo, hi, chunk);
            }
        }
        while k < self.segments.len()
            invariant
                self.wf(),
                self.done,
                k <= self.segments@.len(),
                lo == base_len(self.size as int, self.algorithm),
                hi == flag_count(self.size as int),
                hi <= usize::MAX,
                plan == self.spec_pieces(),
                self.segments@.len() > 0 ==> is_partition(plan, lo, hi, chunk),
                k < self.segments@.len() ==> count == primes_at(0, plan[k as int].0) && count
                    <= plan[k as int].0,
                k == self.segments@.len() && k > 0 ==> count == primes_at(0, hi),
                k == 0 ==> count == primes_at(0, lo) && count <= lo,
                self.segments@.len() == 0 ==> lo == hi,
            decreases self.segments@.len() - k,
        {
            proof {
                assert(self.segments@[k as int].marks_primes());
                lemma_partition_ordered(plan, lo, hi, chunk, k as int, k as int);
                lemma_primes_at_split(0, plan[k as int].0, plan[k as int].1);
                lemma_primes_at_bound(plan[k as int].0, plan[k as int].1);
            }
            let found = self.segments[k].count();
            count = count + found;
            k = k + 1;
        }
        proof {
            lemma_primes_at_all(self.size as int);
        }
        count
    }

    /// The number of workers that the pass is divided among: one for the
    /// serial algorithm, and for the others as many as `fork` deals the
    /// pieces out to, at least one and no more than the sieve was built
    /// for. Before the pass has run, 0.
    pub fn thread_count(&self) -> (count: usize)
        requires
            self.wf(),
        ensures
            self.spec_is_done() ==> count == threads(
                self.spec_size() as int,
                self.spec_algorithm(),
                self.spec_encoding(),
                self.spec_width(),
                self.spec_workers() as int,
            ),
            self.spec_is_done() ==> 1 <= count,
            self.spec_is_done() && self.spec_algorithm() == Algorithm::Serial ==> count == 1,
            self.spec_is_done() && self.spec_algorithm() != Algorithm::Serial ==> count
                <= self.spec_workers(),
            !self.spec_is_done() ==> count == 0,
    {
        proof {
            lemma_threads_bounds(
                self.size as int,
                self.algorithm,
                self.encoding,
                self.width,
                self.workers as int,
            );
        }
        if !self.done {
            0
        } else if self.segments.len() == 0 {
            1
        } else {
            block_count(self.segments.len(), self.workers)
        }
    }

    /// Whether the flag of `number` is set: no number beyond the size has
    /// a flag, and no number but 2 and the odd numbers from 3 on.
    pub open spec fn flagged(&self, number: int) -> bool {
        match index_of(number) {
            Some(index) => index < self@.len() && self@[index],
            None => false,
        }
    }

    /// The flag of an index beyond the base sieve is the flag that the
    /// piece holding the index has for it.
    proof fn lemma_flag_in_piece(&self, k: int, index: int)
        requires
            self.laid_out(),
            0 <= k < self.segments@.len(),
            self.segments@[k].spec_start() <= index < self.segments@[k].spec_end(),
        ensures
            self.base@.len() <= index < self@.len(),
            self@[index] == self.segments@[k]@[index - self.segments@[k].spec_start()],
    {
        let lo = base_len(self.size as int, self.algorithm);
        let hi = flag_count(self.size as int);
        let chunk = chunk_len(
            self.size as int,
            self.algorithm,
            self.encoding,
            self.width,
            self.workers as int,
        );
        let plan = self.spec_pieces();
        lemma_base_len_bound(self.size as int, self.algorithm);
        lemma_chunk_len_positive(
            self.size as int,
            self.algorithm,
            self.encoding,
            self.width,
            self.workers as int,
        );
        lemma_chunks_partition(lo, hi, chunk);
        lemma_partition_ordered(plan, lo, hi, chunk, k, k);
        assert(self.segments@[k].wf());
        if self.flag_at(index) {
            let other = choose|other: int|
                0 <= other < self.segments@.len() && (
                #[trigger] self.segments@[other]).spec_start() <= index
                    < self.segments@[other].spec_end() && self.segments@[other]@[index
                    - self.segments@[other].spec_start()];
            lemma_partition_disjoint(plan, lo, hi, chunk, k, other, index);
        }
        assert(self@[index] == self.flag_at(index));
    }

    /// Every index beyond the base sieve lies in a piece.
    proof fn lemma_piece_of(&self, index: int) -> (k: int)
        requires
            self.laid_out(),
            self.base@.len() <= index < flag_count(self.size as int),
        ensures
            0 <= k < self.segments@.len(),
            self.segments@[k].spec_start() <= index < self.segments@[k].spec_end(),
    {
        let lo = base_len(self.size as int, self.algorithm);
        let hi = flag_count(self.size as int);
        let chunk = chunk_len(
            self.size as int,
            self.algorithm,
            self.encoding,
            self.width,
            self.workers as int,
        );
        lemma_chunk_len_positive(
            self.size as int,
            self.algorithm,
            self.encoding,
            self.width,
            self.workers as int,
        );
        lemma_chunks_partition(lo, hi, chunk);
        let k = lemma_partition_covers(self.spec_pieces(), lo, hi, chunk, index);
        assert(self.segments@[k].wf());
        k
    }

    /// Whether the flag of `number` is set. After the pass the flags of
    /// exactly the primes up to the size are set.
    pub fn is_prime(&self, number: usize) -> (set: bool)
        requires
            self.wf(),
        ensures
            set == self.flagged(number as int),
            self.spec_is_done() ==> set == (number <= self.spec_size() && is_prime(number as int)),
    {
        proof {
            if self.done {
                self.lemma_done_marks_primes();
            }
            if number >= 4 && number % 2 == 0 {
                assert(number % 2 == 0 && 2 <= 2 < number);
                assert(!is_prime(number as int));
            }
        }
        if number < 2 || number > self.size || (number > 2 && number % 2 == 0) {
            return false;
        }
        let index = if number == 2 {
            0
        } else {
            number / 2
        };
        if index < self.base.len() {
            return self.base.is_prime(index);
        }
        let mut k: usize = 0;
        while k < self.segments.len()
            invariant
                self.laid_out(),
                k <= self.segments@.len(),
                self.base@.len() <= index < flag_count(self.size as int),
                number <= self.size,
                index_of(number as int) == Some(index as int),
                self.done ==> self@[index as int] == is_prime(number as int),
                forall|i: int|
                    0 <= i < k ==> !((#[trigger] self.segments@[i]).spec_start() <= index
                        < self.segments@[i].spec_end()),
            decreases self.segments@.len() - k,
        {
            proof {
                assert(self.segments@[k as int].wf());
                self.segments@[k as int].lemma_end_fits();
            }
            let start = self.segments[k].start();
            let end = start + self.segments[k].len();
            if start <= index && index < end {
                proof {
                    self.lemma_flag_in_piece(k as int, index as int);
                }
                return self.segments[k].is_prime(index);
            }
            k = k + 1;
        }
        proof {
            let found = self.lemma_piece_of(index as int);
        }
        false
    }

    /// The pieces that the flags beyond the base sieve are cut into, each
    /// with its first index and the index after its last, in rising
    /// order.
    pub fn piece_bounds(&self) -> (bounds: Vec<(usize, usize)>)
        requires
            self.wf(),
        ensures
            bounds@.len() == self.spec_pieces().len(),
            forall|k: int|
                0 <= k < bounds@.len() ==> (#[trigger] bounds@[k]).0 == self.spec_pieces()[k].0
                    && bounds@[k].1 == self.spec_pieces()[k].1,
    {
        let mut bounds: Vec<(usize, usize)> = Vec::new();
        let mut k: usize = 0;
        while k < self.segments.len()
            invariant
                self.wf(),
                k <= self.segments@.len(),
                bounds@.len() == k,
                forall|i: int|
                    0 <= i < k ==> (#[trigger] bounds@[i]).0 == self.spec_pieces()[i].0
                        && bounds@[i].1 == self.spec_pieces()[i].1,
            decreases self.segments@.len() - k,
        {
            proof {
                assert(self.segments@[k as int].wf());
                self.segments@[k as int].lemma_end_fits();
            }
            let start = self.segments[k].start();
            let len = self.segments[k].len();
            bounds.push((start, start + len));
            k = k + 1;
        }
        bounds
    }

    /// The number of flags of the base sieve.
    pub fn base_len(&self) -> (len: usize)
        requires
            self.wf(),
        ensures
            len == base_len(self.spec_size() as int, self.spec_algorithm()),
    {
        self.base.len()
    }

    /// The largest number that the sieve covers.
    pub fn size(&self) -> (size: usize)
        ensures
            size == self.spec_size(),
    {
        self.size
    }

    /// The algorithm of the sieve.
    pub fn algorithm(&self) -> (algorithm: Algorithm)
        ensures
            algorithm == self.spec_algorithm(),
    {
        self.algorithm
    }

    /// The encoding of the flag storage.
    pub fn encoding(&self) -> (encoding: Encoding)
        ensures
            encoding == self.spec_encoding(),
    {
        self.encoding
    }

    /// The word width of the flag storage.
    pub fn width(&self) -> (width: Width)
        ensures
            width == self.spec_width(),
    {
        self.width
    }

    /// The number of workers that the sieve was built for.
    pub fn workers(&self) -> (workers: usize)
        ensures
            workers == self.spec_workers(),
    {
        self.workers
    }

    /// Whether the marking pass has run.
    pub fn is_done(&self) -> (done: bool)
        ensures
            done == self.spec_is_done(),
    {
        self.done
    }

    /// After the pass the flags of the sieve mark exactly the primes.
    pub proof fn lemma_done_marks_primes(&self)
        requires
            self.wf(),
            self.spec_is_done(),
        ensures
            self@.len() == flag_count(self.spec_size() as int),
            forall|j: int| 0 <= j < self@.len() ==> #[trigger] self@[j] == is_prime(number_at(j)),
    {
        self.lemma_flags(|j: int| is_prime(number_at(j)));
    }

    /// Before the pass every flag of the sieve is set.
    pub proof fn lemma_fresh_all_set(&self)
        requires
            self.wf(),
            !self.spec_is_done(),
        ensures
            self@ == all_set(flag_count(self.spec_size() as int) as nat),
    {
        self.lemma_flags(|j: int| true);
        assert(self@ =~= all_set(flag_count(self.size as int) as nat));
    }

    /// After the pass the set flags are as many as the primes up to the
    /// size, whatever the algorithm, the encoding, the word width and the
    /// number of workers.
    pub proof fn lemma_count_is_prime_count(&self)
        requires
            self.wf(),
            self.spec_is_done(),
        ensures
            count_set(self@) == prime_count(self.spec_size() as int),
    {
        self.lemma_done_marks_primes();
        lemma_count_of_marked(self@, 0);
        lemma_primes_at_all(self.size as int);
    }

    /// Two sieves of one size whose passes have run have the same flags,
    /// and so the same number of primes, however either was built.
    pub proof fn lemma_same_size_same_flags(&self, other: &Sieve)
        requires
            self.wf(),
            other.wf(),
            self.spec_is_done(),
            other.spec_is_done(),
            self.spec_size() == other.spec_size(),
        ensures
            self@ == other@,
            count_set(self@) == count_set(other@),
    {
        self.lemma_done_marks_primes();
        other.lemma_done_marks_primes();
        assert(self@ =~= other@);
    }

    /// The pass as workers carry it out: the base sieve, then every
    /// worker's share, here one after the other, then the pieces put
    /// together again. On a sieve whose pass has run, nothing is done.
    pub fn sieve_forked(self) -> (sieve: Sieve)
        requires
            self.wf(),
        ensures
            sieve.wf(),
            sieve.spec_is_done(),
            sieve.spec_size() == self.spec_size(),
            sieve.spec_algorithm() == self.spec_algorithm(),
            sieve.spec_encoding() == self.spec_encoding(),
            sieve.spec_width() == self.spec_width(),
            sieve.spec_workers() == self.spec_workers(),
    {
        if self.done {
            return self;
        }
        let (fork, mut workers) = self.fork();
        let ghost before = workers@;
        run_all(&mut workers);
        proof {
            lemma_dealt_out_after_run(
                fork.spec_pieces(),
                fork.spec_encoding(),
                fork.spec_width(),
                int_sqrt(fork.spec_size() as int),
                fork.spec_workers() as int,
                before,
                workers@,
            );
        }
        fork.join(workers)
    }

    /// Before the pass, every piece is ready for a worker that has the
    /// base primes up to the square root of the size.
    proof fn lemma_pieces_ready(&self)
        requires
            self.wf(),
            !self.done,
        ensures
            forall|k: int|
                0 <= k < self.segments@.len() ==> ready(
                    #[trigger] self.segments@[k],
                    int_sqrt(self.size as int),
                ),
    {
        let lo = base_len(self.size as int, self.algorithm);
        let hi = flag_count(self.size as int);
        let chunk = chunk_len(
            self.size as int,
            self.algorithm,
            self.encoding,
            self.width,
            self.workers as int,
        );
        let top = int_sqrt(self.size as int);
        lemma_int_sqrt(self.size as int);
        assert forall|k: int| 0 <= k < self.segments@.len() implies ready(
            #[trigger] self.segments@[k],
            top,
        ) by {
            lemma_chunk_len_positive(
                self.size as int,
                self.algorithm,
                self.encoding,
                self.width,
                self.workers as int,
            );
            lemma_chunks_partition(lo, hi, chunk);
            lemma_partition_ordered(self.spec_pieces(), lo, hi, chunk, k, k);
            lemma_base_len_bound(self.size as int, self.algorithm);
            let segment = self.segments@[k];
            assert(segment.wf());
            assert(segment@ == all_set(segment@.len()));
            assert(number_at(segment.spec_end() - 1) <= self.size);
        }
    }

    /// Begins the pass for workers that run side by side: runs the base
    /// sieve and deals the pieces beyond it out to the workers, each with
    /// its own copy of the base primes.
    pub fn fork(self) -> (parts: (Fork, Vec<Worker>))
        requires
            self.wf(),
            !self.spec_is_done(),
        ensures
            parts.0.wf(),
            parts.0.spec_size() == self.spec_size(),
            parts.0.spec_algorithm() == self.spec_algorithm(),
            parts.0.spec_encoding() == self.spec_encoding(),
            parts.0.spec_width() == self.spec_width(),
            parts.0.spec_workers() == self.spec_workers(),
            parts.0.holds(parts.1@),
            forall|j: int| 0 <= j < parts.1@.len() ==> !(#[trigger] parts.1@[j]).spec_is_done(),
    {
        let ghost plan = self.spec_pieces();
        let ghost whole = self.segments@;
        proof {
            self.lemma_pieces_ready();
        }
        let size = self.size;
        let algorithm = self.algorithm;
        let encoding = self.encoding;
        let width = self.width;
        let most = self.workers;
        let mut base = self.base;
        let rest = self.segments;
        assert(forall|i: int| 0 <= i < base@.len() ==> base@[i]);
        base.sieve();
        let count = rest.len();
        let workers = if count > 0 {
            let primes = base.primes();
            let top = isqrt(size);
            proof {
                if top < 2 {
                    lemma_lists_one_more(primes@, -1);
                    lemma_lists_one_more(primes@, 0);
                } else if top % 2 == 0 {
                    lemma_lists_one_more(primes@, top - 1);
                }
            }
            deal(rest, &primes, top, most)
        } else {
            Vec::new()
        };
        proof {
            let deal = blocks(count as int, most as int);
            let found = workers@;
            if count > 0 {
                let each = ceil_div(count as int, most as int);
                lemma_ceil_div(count as int, most as int);
                lemma_chunks_partition(0, count as int, each);
                assert forall|w: int| 0 <= w < found.len() implies (#[trigger] found[w]).wf()
                    && found[w].holds_cuts(
                    plan,
                    deal[w].0,
                    deal[w].1 - deal[w].0,
                    encoding,
                    width,
                    int_sqrt(size as int),
                ) by {
                    lemma_partition_ordered(deal, 0, count as int, each, w, w);
                    assert forall|i: int| 0 <= i < found[w].spec_segments().len() implies {
                        &&& (#[trigger] found[w].spec_segments()[i]).spec_start() == plan[deal[w].0
                            + i].0
                        &&& found[w].spec_segments()[i].spec_end() == plan[deal[w].0 + i].1
                        &&& found[w].spec_segments()[i].spec_encoding() == encoding
                        &&& found[w].spec_segments()[i].spec_width() == width
                    } by {
                        assert(found[w].spec_segments()[i] == whole[deal[w].0 + i]);
                    }
                }
            }
        }
        (Fork { size, algorithm, encoding, width, workers: most, base }, workers)
    }
}

impl Fork {
    /// Ends the pass of workers that ran side by side: takes the pieces
    /// back from the workers, all of which have run, and gives the sieve
    /// with its pass done.
    pub fn join(self, workers: Vec<Worker>) -> (sieve: Sieve)
        requires
            self.wf(),
            self.holds(workers@),
            forall|j: int| 0 <= j < workers@.len() ==> (#[trigger] workers@[j]).spec_is_done(),
        ensures
            sieve.wf(),
            sieve.spec_is_done(),
            sieve.spec_size() == self.spec_size(),
            sieve.spec_algorithm() == self.spec_algorithm(),
            sieve.spec_encoding() == self.spec_encoding(),
            sieve.spec_width() == self.spec_width(),
            sieve.spec_workers() == self.spec_workers(),
    {
        let ghost given = workers@;
        let ghost plan = self.spec_pieces();
        let ghost count = plan.len() as int;
        let ghost most = self.workers as int;
        let ghost deal = blocks(count, most);
        let segments = gather(workers);
        proof {
            if count > 0 {
                assert(self.algorithm != Algorithm::Serial);
                let each = ceil_div(count, most);
                lemma_ceil_div(count, most);
                lemma_chunks_partition(0, count, each);
                assert forall|w: int| 0 <= w < given.len() implies (
                #[trigger] given[w]).spec_segments().len() == deal[w].1 - deal[w].0 by {
                    assert(given[w].holds_cuts(
                        plan,
                        deal[w].0,
                        deal[w].1 - deal[w].0,
                        self.encoding,
                        self.width,
                        int_sqrt(self.size as int),
                    ));
                }
                lemma_all_pieces(given, count, most, given.len() as int);
                assert(given.take(given.len() as int) =~= given);
                assert forall|k: int| 0 <= k < segments@.len() implies {
                    &&& (#[trigger] segments@[k]).wf()
                    &&& segments@[k].spec_start() == plan[k].0
                    &&& segments@[k].spec_end() == plan[k].1
                    &&& segments@[k].spec_encoding() == self.encoding
                    &&& segments@[k].spec_width() == self.width
                    &&& segments@[k].marks_primes()
                } by {
                    let w = lemma_partition_covers(deal, 0, count, each, k);
                    let i = k - deal[w].0;
                    assert(given[w].wf());
                    assert(given[w].spec_is_done());
                    assert(given[w].holds_cuts(
                        plan,
                        deal[w].0,
                        deal[w].1 - deal[w].0,
                        self.encoding,
                        self.width,
                        int_sqrt(self.size as int),
                    ));
                    let segment = given[w].spec_segments()[i];
                    assert(segments@[deal[w].0 + i] == segment);
                    assert(segment.marks_primes());
                    assert(segment.spec_start() == plan[deal[w].0 + i].0);
                }
            } else {
                assert(given.len() == 0);
            }
        }
        Sieve {
            size: self.size,
            algorithm: self.algorithm,
            encoding: self.encoding,
            width: self.width,
            workers: self.workers,
            base: self.base,
            segments,
            done: true,
        }
    }
}

} // verus!
