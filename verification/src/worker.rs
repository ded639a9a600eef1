//! One worker's share of a marking pass: the pieces that it alone owns, and
//! its own copy of the base primes.

use crate::flag_data::{all_set, Encoding, Width};
use crate::number::{lists_odd_primes, number_at};
use crate::partition::{
    ceil_div, div_up, is_partition, lemma_ceil_div, lemma_chunks_partition, lemma_partition_ordered,
    split,
};
use crate::plan::blocks;
use crate::segment::{after_strikes, lemma_strikes_mark_primes, Segment};
use vstd::prelude::*;

verus! {

/// A worker holds a block of neighbouring pieces and the odd primes up to
/// `top`. It shares nothing with other workers, so any number of them can
/// run side by side.
pub struct Worker {
    top: usize,
    primes: Vec<usize>,
    segments: Vec<Segment>,
    done: bool,
}

impl Worker {
    /// The pieces of the worker, in rising order.
    pub closed spec fn spec_segments(&self) -> Seq<Segment> {
        self.segments@
    }

    /// The base primes of the worker.
    pub closed spec fn spec_primes(&self) -> Seq<usize> {
        self.primes@
    }

    /// The number up to which the base primes are listed.
    pub closed spec fn spec_top(&self) -> usize {
        self.top
    }

    /// Whether the worker has run.
    pub closed spec fn spec_is_done(&self) -> bool {
        self.done
    }

    /// The base primes are the odd primes up to `top`, the number of every
    /// flag is below the square of `top + 1`, and the flags are all set
    /// before the run and mark exactly the primes after it.
    pub open spec fn wf(&self) -> bool {
        &&& self.spec_top() * self.spec_top() <= usize::MAX
        &&& lists_odd_primes(self.spec_primes(), self.spec_top() as int)
        &&& forall|k: int|
            0 <= k < self.spec_segments().len() ==> {
                &&& (#[trigger] self.spec_segments()[k]).wf()
                &&& self.spec_segments()[k]@.len() > 0
                &&& number_at(self.spec_segments()[k].spec_end() - 1) < (self.spec_top() + 1) * (
                self.spec_top() + 1)
            }
        &&& !self.spec_is_done() ==> forall|k: int|
            0 <= k < self.spec_segments().len() ==> (#[trigger] self.spec_segments()[k])@
                == all_set(self.spec_segments()[k]@.len())
        &&& self.spec_is_done() ==> forall|k: int|
            0 <= k < self.spec_segments().len() ==> (#[trigger] self.spec_segments()[k]).marks_primes()
    }

    /// `other` has the same pieces as this worker, flag contents apart.
    pub open spec fn same_pieces(&self, other: &Worker) -> bool {
        &&& self.spec_top() == other.spec_top()
        &&& self.spec_primes() == other.spec_primes()
        &&& self.spec_segments().len() == other.spec_segments().len()
        &&& forall|k: int|
            0 <= k < self.spec_segments().len() ==> {
                &&& (#[trigger] self.spec_segments()[k]).spec_start()
                    == other.spec_segments()[k].spec_start()
                &&& self.spec_segments()[k].spec_end() == other.spec_segments()[k].spec_end()
                &&& self.spec_segments()[k].spec_encoding()
                    == other.spec_segments()[k].spec_encoding()
                &&& self.spec_segments()[k].spec_width() == other.spec_segments()[k].spec_width()
            }
    }

    /// A worker that has not run, for pieces whose flags are all set.
    pub fn new(top: usize, primes: Vec<usize>, segments: Vec<Segment>) -> (worker: Worker)
        requires
            top * top <= usize::MAX,
            lists_odd_primes(primes@, top as int),
            forall|k: int| 0 <= k < segments@.len() ==> ready(#[trigger] segments@[k], top as int),
        ensures
            worker.wf(),
            !worker.spec_is_done(),
            worker.spec_top() == top,
            worker.spec_primes() == primes@,
            worker.spec_segments() == segments@,
    {
        Worker { top, primes, segments, done: false }
    }

    /// Whether the worker has run.
    pub fn is_done(&self) -> (done: bool)
        ensures
            done == self.spec_is_done(),
    {
        self.done
    }

    /// The number of pieces of the worker.
    pub fn piece_count(&self) -> (count: usize)
        ensures
            count == self.spec_segments().len(),
    {
        self.segments.len()
    }

    /// The pieces of the worker are those that `cuts` has from the place
    /// `from` on, as many as `count`, with storage of the given encoding
    /// and width, and the worker lists the base primes up to `top`.
    pub open spec fn holds_cuts(
        &self,
        cuts: Seq<(int, int)>,
        from: int,
        count: int,
        encoding: Encoding,
        width: Width,
        top: int,
    ) -> bool {
        &&& self.spec_top() == top
        &&& self.spec_segments().len() == count
        &&& forall|i: int|
            0 <= i < self.spec_segments().len() ==> {
                &&& (#[trigger] self.spec_segments()[i]).spec_start() == cuts[from + i].0
                &&& self.spec_segments()[i].spec_end() == cuts[from + i].1
                &&& self.spec_segments()[i].spec_encoding() == encoding
                &&& self.spec_segments()[i].spec_width() == width
            }
    }

    /// Whether the pieces of the worker are those that `cuts` has from
    /// the place `from` up to the place `to`.
    pub fn has_cuts(
        &self,
        cuts: &Vec<(usize, usize)>,
        from: usize,
        to: usize,
        encoding: Encoding,
        width: Width,
        top: usize,
    ) -> (has: bool)
        requires
            self.wf(),
            from <= to <= cuts@.len(),
        ensures
            has == self.holds_cuts(
                cuts@.map_values(|cut: (usize, usize)| (cut.0 as int, cut.1 as int)),
                from as int,
                to - from,
                encoding,
                width,
                top as int,
            ),
    {
        let ghost plan = cuts@.map_values(|cut: (usize, usize)| (cut.0 as int, cut.1 as int));
        if self.top != top || self.segments.len() != to - from {
            return false;
        }
        let mut i: usize = 0;
        while i < self.segments.len()
            invariant
                self.wf(),
                i <= self.segments@.len(),
                self.segments@.len() == to - from,
                from <= to <= cuts@.len(),
                plan == cuts@.map_values(|cut: (usize, usize)| (cut.0 as int, cut.1 as int)),
                forall|k: int|
                    0 <= k < i ==> {
                        &&& (#[trigger] self.segments@[k]).spec_start() == plan[from + k].0
                        &&& self.segments@[k].spec_end() == plan[from + k].1
                        &&& self.segments@[k].spec_encoding() == encoding
                        &&& self.segments@[k].spec_width() == width
                    },
            decreases self.segments@.len() - i,
        {
            proof {
                assert(self.spec_segments()[i as int].wf());
                self.segments@[i as int].lemma_end_fits();
                assert(plan[from + i] == (cuts@[from + i].0 as int, cuts@[from + i].1 as int));
            }
            let start = self.segments[i].start();
            let end = start + self.segments[i].len();
            let (cut_start, cut_end) = cuts[from + i];
            if start != cut_start || end != cut_end || self.segments[i].encoding() != encoding
                || self.segments[i].width() != width {
                proof {
                    assert(self.spec_segments()[i as int] == self.segments@[i as int]);
                }
                return false;
            }
            i = i + 1;
        }
        proof {
            assert(self.spec_segments() == self.segments@);
        }
        true
    }

    /// The worker's share of the pass: one pass with every base prime over
    /// each of its pieces. Afterwards the flags of its pieces mark exactly
    /// the primes. A worker that has run does nothing.
    pub fn run(&mut self)
        requires
            old(self).wf(),
        ensures
            final(self).wf(),
            final(self).spec_is_done(),
            final(self).same_pieces(old(self)),
    {
        if self.done {
            return ;
        }
        proof {
            let top = self.top as int;
            assert forall|k: int| 0 <= k < self.primes@.len() implies 3 <= #[trigger] self.primes@[k]
                && self.primes@[k] % 2 == 1 && self.primes@[k] * self.primes@[k] <= usize::MAX by {
                let q = self.primes@[k] as int;
                assert(q * q <= top * top) by (nonlinear_arith)
                    requires
                        0 <= q <= top,
                ;
            }
        }
        assert(self.spec_segments() == self.segments@);
        let mut k: usize = 0;
        while k < self.segments.len()
            invariant
                !self.done,
                self.top == old(self).top,
                self.primes@ == old(self).primes@,
                self.segments@.len() == old(self).segments@.len(),
                k <= self.segments@.len(),
                self.top * self.top <= usize::MAX,
                lists_odd_primes(self.primes@, self.top as int),
                forall|k: int|
                    0 <= k < self.primes@.len() ==> 3 <= #[trigger] self.primes@[k]
                        && self.primes@[k] % 2 == 1 && self.primes@[k] * self.primes@[k]
                        <= usize::MAX,
                forall|i: int|
                    0 <= i < self.segments@.len() ==> {
                        &&& (#[trigger] self.segments@[i]).wf()
                        &&& self.segments@[i]@.len() > 0
                        &&& number_at(self.segments@[i].spec_end() - 1) < (self.top + 1) * (self.top
                            + 1)
                        &&& self.segments@[i].spec_start() == old(self).segments@[i].spec_start()
                        &&& self.segments@[i].spec_end() == old(self).segments@[i].spec_end()
                        &&& self.segments@[i].spec_encoding() == old(
                            self,
                        ).segments@[i].spec_encoding()
                        &&& self.segments@[i].spec_width() == old(self).segments@[i].spec_width()
                    },
                forall|i: int| 0 <= i < k ==> (#[trigger] self.segments@[i]).marks_primes(),
                forall|i: int|
                    k <= i < self.segments@.len() ==> (#[trigger] self.segments@[i])@ == all_set(
                        self.segments@[i]@.len(),
                    ),
            decreases self.segments@.len() - k,
        {
            let ghost before = self.segments@;
            self.segments[k].sieve_with(&self.primes);
            proof {
                let segment = self.segments@[k as int];
                assert(before[k as int].wf());
                assert(segment@ == after_strikes(
                    all_set(segment@.len()),
                    segment.spec_start() as int,
                    self.primes@,
                ));
                lemma_strikes_mark_primes(
                    segment@,
                    segment.spec_start() as int,
                    self.primes@,
                    self.top as int,
                );
                assert forall|i: int| 0 <= i < self.segments@.len() && i != k implies self.segments@[i]
                    == before[i] by {}
            }
            k = k + 1;
        }
        self.done = true;
    }

    /// Hands the pieces of the worker back, in their order, and leaves the
    /// worker without any.
    pub fn release(&mut self) -> (segments: Vec<Segment>)
        ensures
            segments@ == old(self).spec_segments(),
            final(self).spec_segments().len() == 0,
            final(self).spec_top() == old(self).spec_top(),
            final(self).spec_primes() == old(self).spec_primes(),
            final(self).spec_is_done() == old(self).spec_is_done(),
    {
        let mut segments: Vec<Segment> = Vec::new();
        segments.append(&mut self.segments);
        proof {
            assert(segments@ =~= old(self).segments@);
        }
        segments
    }
}

/// A piece that a worker with the base primes up to `top` can take: its
/// flags are all set, and the number of each is below the square of
/// `top + 1`.
pub open spec fn ready(segment: Segment, top: int) -> bool {
    &&& segment.wf()
    &&& segment@.len() > 0
    &&& number_at(segment.spec_end() - 1) < (top + 1) * (top + 1)
    &&& segment@ == all_set(segment@.len())
}

/// Deals the pieces out to at most `most` workers: each takes a block of
/// neighbouring pieces and a copy of the base primes.
pub fn deal(segments: Vec<Segment>, primes: &Vec<usize>, top: usize, most: usize) -> (workers: Vec<
    Worker,
>)
    requires
        most > 0,
        top * top <= usize::MAX,
        lists_odd_primes(primes@, top as int),
        forall|k: int| 0 <= k < segments@.len() ==> ready(#[trigger] segments@[k], top as int),
    ensures
        workers@.len() == blocks(segments@.len() as int, most as int).len(),
        forall|w: int|
            0 <= w < workers@.len() ==> {
                &&& (#[trigger] workers@[w]).wf()
                &&& !workers@[w].spec_is_done()
                &&& workers@[w].spec_top() == top
                &&& workers@[w].spec_segments() == segments@.subrange(
                    blocks(segments@.len() as int, most as int)[w].0,
                    blocks(segments@.len() as int, most as int)[w].1,
                )
            },
{
    let mut workers: Vec<Worker> = Vec::new();
    let count = segments.len();
    if count == 0 {
        return workers;
    }
    let each = div_up(count, most);
    proof {
        lemma_ceil_div(count as int, most as int);
        lemma_chunks_partition(0, count as int, each as int);
    }
    let cuts = split(0, count, each);
    let ghost deal = blocks(count as int, most as int);
    let mut rest = segments;
    let mut j: usize = 0;
    while j < cuts.len()
        invariant
            j <= cuts@.len(),
            cuts@.len() == deal.len(),
            is_partition(deal, 0, count as int, each as int),
            forall|i: int|
                0 <= i < cuts@.len() ==> (#[trigger] cuts@[i]).0 == deal[i].0 && cuts@[i].1
                    == deal[i].1,
            count == segments@.len(),
            top * top <= usize::MAX,
            lists_odd_primes(primes@, top as int),
            forall|k: int| 0 <= k < segments@.len() ==> ready(#[trigger] segments@[k], top as int),
            j < cuts@.len() ==> rest@ == segments@.subrange(cuts@[j as int].0 as int, count as int),
            workers@.len() == j,
            forall|w: int|
                0 <= w < j ==> {
                    &&& (#[trigger] workers@[w]).wf()
                    &&& !workers@[w].spec_is_done()
                    &&& workers@[w].spec_top() == top
                    &&& workers@[w].spec_segments() == segments@.subrange(deal[w].0, deal[w].1)
                },
        decreases cuts@.len() - j,
    {
        let (from, to) = cuts[j];
        proof {
            assert(cuts@[j as int].0 == deal[j as int].0);
            lemma_partition_ordered(deal, 0, count as int, each as int, j as int, j as int);
            if j + 1 < cuts@.len() {
                assert(deal[j as int].1 == deal[j + 1].0);
                assert(cuts@[j + 1].0 == deal[j + 1].0);
            }
        }
        let mut block = rest;
        rest = block.split_off(to - from);
        let copy = primes.clone();
        proof {
            assert(copy@ =~= primes@);
            assert(block@ =~= segments@.subrange(from as int, to as int));
            assert(rest@ =~= segments@.subrange(to as int, count as int));
            assert forall|k: int| 0 <= k < block@.len() implies ready(
                #[trigger] block@[k],
                top as int,
            ) by {
                assert(block@[k] == segments@[from + k]);
            }
        }
        workers.push(Worker::new(top, copy, block));
        j = j + 1;
    }
    workers
}

/// The pieces of all workers, those of the first worker first.
pub open spec fn all_pieces(workers: Seq<Worker>) -> Seq<Segment>
    decreases workers.len(),
{
    if workers.len() == 0 {
        Seq::empty()
    } else {
        all_pieces(workers.drop_last()) + workers.last().spec_segments()
    }
}

/// Where the workers hold the blocks that `count` pieces are dealt out
/// in, the pieces of worker `w` begin, among the pieces of all workers, at
/// the place where its block begins.
pub proof fn lemma_all_pieces(workers: Seq<Worker>, count: int, most: int, upto: int)
    requires
        count > 0,
        most > 0,
        workers.len() == blocks(count, most).len(),
        forall|w: int|
            0 <= w < workers.len() ==> (#[trigger] workers[w]).spec_segments().len() == blocks(
                count,
                most,
            )[w].1 - blocks(count, most)[w].0,
        0 <= upto <= workers.len(),
    ensures
        upto < workers.len() ==> all_pieces(workers.take(upto)).len() == blocks(count, most)[upto].0,
        upto == workers.len() ==> all_pieces(workers.take(upto)).len() == count,
        forall|w: int, i: int|
            0 <= w < upto && 0 <= i < workers[w].spec_segments().len() ==> all_pieces(
                workers.take(upto),
            )[blocks(count, most)[w].0 + i] == #[trigger] workers[w].spec_segments()[i],
    decreases upto,
{
    let deal = blocks(count, most);
    let each = ceil_div(count, most);
    lemma_ceil_div(count, most);
    lemma_chunks_partition(0, count, each);
    if upto > 0 {
        let last = upto - 1;
        lemma_all_pieces(workers, count, most, last);
        assert(workers.take(upto).drop_last() =~= workers.take(last));
        assert(workers.take(upto).last() == workers[last]);
        let before = all_pieces(workers.take(last));
        let now = all_pieces(workers.take(upto));
        assert(now == before + workers[last].spec_segments());
        assert(before.len() == deal[last].0);
        if upto < workers.len() {
            assert(deal[last].1 == deal[last + 1].0);
        }
        assert forall|w: int, i: int|
            0 <= w < upto && 0 <= i < workers[w].spec_segments().len() implies now[deal[w].0 + i]
            == #[trigger] workers[w].spec_segments()[i] by {
            if w < last {
                lemma_partition_ordered(deal, 0, count, each, w, last);
                assert(before[deal[w].0 + i] == workers[w].spec_segments()[i]);
            }
        }
    } else {
        assert(workers.take(0) =~= Seq::<Worker>::empty());
    }
}

/// Takes the pieces back from the workers, those of the first worker
/// first.
pub fn gather(workers: Vec<Worker>) -> (segments: Vec<Segment>)
    ensures
        segments@ == all_pieces(workers@),
{
    let ghost given = workers@;
    let mut workers = workers;
    let mut segments: Vec<Segment> = Vec::new();
    let mut j: usize = 0;
    proof {
        assert(given.take(0) =~= Seq::<Worker>::empty());
    }
    while j < workers.len()
        invariant
            j <= workers@.len(),
            workers@.len() == given.len(),
            forall|w: int| j <= w < workers@.len() ==> #[trigger] workers@[w] == given[w],
            segments@ == all_pieces(given.take(j as int)),
        decreases workers@.len() - j,
    {
        proof {
            assert(workers@[j as int] == given[j as int]);
            assert(given.take(j + 1).drop_last() =~= given.take(j as int));
            assert(given.take(j + 1).last() == given[j as int]);
        }
        let mut part = workers[j].release();
        segments.append(&mut part);
        j = j + 1;
    }
    proof {
        assert(given.take(j as int) =~= given);
    }
    segments
}

/// Runs the workers one after the other. Since no worker touches what
/// another owns, running them side by side leaves the same flags.
pub fn run_all(workers: &mut Vec<Worker>)
    requires
        forall|j: int| 0 <= j < old(workers)@.len() ==> (#[trigger] old(workers)@[j]).wf(),
    ensures
        final(workers)@.len() == old(workers)@.len(),
        forall|j: int|
            0 <= j < final(workers)@.len() ==> {
                &&& (#[trigger] final(workers)@[j]).wf()
                &&& final(workers)@[j].spec_is_done()
                &&& final(workers)@[j].same_pieces(&old(workers)@[j])
            },
{
    let mut j: usize = 0;
    while j < workers.len()
        invariant
            j <= workers@.len(),
            workers@.len() == old(workers)@.len(),
            forall|i: int| 0 <= i < old(workers)@.len() ==> (#[trigger] old(workers)@[i]).wf(),
            forall|i: int|
                0 <= i < j ==> {
                    &&& (#[trigger] workers@[i]).wf()
                    &&& workers@[i].spec_is_done()
                    &&& workers@[i].same_pieces(&old(workers)@[i])
                },
            forall|i: int| j <= i < workers@.len() ==> #[trigger] workers@[i] == old(workers)@[i],
        decreases workers@.len() - j,
    {
        assert(workers@[j as int] == old(workers)@[j as int]);
        workers[j].run();
        j = j + 1;
    }
}

} // verus!
