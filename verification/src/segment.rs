//! A run of neighbouring flags that one worker owns, and the marking passes
//! over it.

use crate::flag_data::{all_set, count_set, storage_bytes, Encoding, FlagData, Width};
use crate::number::{
    is_prime, isqrt, lemma_index_of_multiple, lemma_is_multiple, lemma_multiple_form,
    lemma_no_multiple_between, lemma_sieved_is_composite, lemma_sieved_skip, lemma_sieved_step,
    lemma_struck_is_composite, lists_odd_primes, multiple_at, number_at, primes_at, sieved, struck,
    struck_by_any,
};
use vstd::prelude::*;

verus! {

/// The largest number of flags that indices of type `usize` can tell apart
/// while every flag's number still fits in a `usize`.
pub open spec fn max_flags() -> int {
    usize::MAX / 2 + 1
}

/// The flags of the indices from `start` on, as many as the storage holds.
/// Nothing outside the segment is reachable through it, so two segments
/// over different indices can be worked on independently.
pub struct Segment {
    start: usize,
    flags: FlagData,
}

impl View for Segment {
    type V = Seq<bool>;

    /// The flags of the segment, the one at `start` first.
    closed spec fn view(&self) -> Seq<bool> {
        self.flags@
    }
}

/// What a pass with `q` leaves of the flags `before`, the first of which
/// has the index `start`: a flag stays set unless its number is a multiple
/// of `q` from the square of `q` on.
pub open spec fn after_strike(before: Seq<bool>, start: int, q: int) -> Seq<bool> {
    Seq::new(before.len(), |i: int| before[i] && !struck(number_at(start + i), q))
}

/// What passes with all the numbers in `primes` leave of the flags
/// `before`, the first of which has the index `start`.
pub open spec fn after_strikes(before: Seq<bool>, start: int, primes: Seq<usize>) -> Seq<bool> {
    Seq::new(before.len(), |i: int| before[i] && !struck_by_any(number_at(start + i), primes))
}

/// Flags that say of every index from `start` on whether its number is
/// prime count the primes among those numbers.
pub proof fn lemma_count_of_marked(flags: Seq<bool>, start: int)
    requires
        forall|i: int| 0 <= i < flags.len() ==> #[trigger] flags[i] == is_prime(number_at(start + i)),
    ensures
        count_set(flags) == primes_at(start, start + flags.len()),
    decreases flags.len(),
{
    if flags.len() > 0 {
        let head = flags.drop_last();
        assert forall|i: int| 0 <= i < head.len() implies #[trigger] head[i] == is_prime(
            number_at(start + i),
        ) by {
            assert(head[i] == flags[i]);
        }
        lemma_count_of_marked(head, start);
        assert(flags.last() == flags[flags.len() - 1]);
    }
}

/// Set flags from `start` on, after passes with all odd primes up to
/// `top`, say of every number below the square of `top + 1` whether it is
/// prime.
pub proof fn lemma_strikes_mark_primes(flags: Seq<bool>, start: int, primes: Seq<usize>, top: int)
    requires
        start >= 0,
        top >= 0,
        lists_odd_primes(primes, top),
        number_at(start + flags.len() - 1) < (top + 1) * (top + 1),
        flags == after_strikes(all_set(flags.len()), start, primes),
    ensures
        forall|i: int|
            0 <= i < flags.len() ==> #[trigger] flags[i] == is_prime(number_at(start + i)),
{
    assert forall|i: int| 0 <= i < flags.len() implies #[trigger] flags[i] == is_prime(
        number_at(start + i),
    ) by {
        assert(number_at(start + i) <= number_at(start + flags.len() - 1));
        lemma_struck_is_composite(number_at(start + i), primes, top);
    }
}

impl Segment {
    /// The storage is well formed and the number of every flag fits in a
    /// `usize`.
    pub closed spec fn wf(&self) -> bool {
        &&& self.flags.wf()
        &&& self.start + self.flags@.len() <= max_flags()
    }

    /// The index of the first flag.
    pub closed spec fn spec_start(&self) -> nat {
        self.start as nat
    }

    /// The index after the last flag.
    pub open spec fn spec_end(&self) -> int {
        self.spec_start() as int + self@.len()
    }

    /// The encoding of the storage.
    pub closed spec fn spec_encoding(&self) -> Encoding {
        self.flags.spec_encoding()
    }

    /// The word width of the storage.
    pub closed spec fn spec_width(&self) -> Width {
        self.flags.spec_width()
    }

    /// The index after the last flag of a well-formed segment fits in a
    /// `usize`.
    pub proof fn lemma_end_fits(&self)
        requires
            self.wf(),
        ensures
            self.spec_end() <= max_flags(),
    {
    }

    /// A segment of `len` set flags for the indices from `start` on.
    pub fn new(encoding: Encoding, width: Width, start: usize, len: usize) -> (segment: Segment)
        requires
            start + len <= max_flags(),
            storage_bytes(encoding, width, len as int) <= isize::MAX,
        ensures
            segment.wf(),
            segment.spec_start() == start,
            segment.spec_encoding() == encoding,
            segment.spec_width() == width,
            segment@ == all_set(len as nat),
    {
        Segment { start, flags: FlagData::new(encoding, width, len) }
    }

    /// The index of the first flag.
    pub fn start(&self) -> (start: usize)
        ensures
            start == self.spec_start(),
    {
        self.start
    }

    /// The number of flags.
    pub fn len(&self) -> (len: usize)
        ensures
            len == self@.len(),
    {
        self.flags.len()
    }

    /// The encoding of the storage.
    pub fn encoding(&self) -> (encoding: Encoding)
        ensures
            encoding == self.spec_encoding(),
    {
        self.flags.encoding()
    }

    /// The word width of the storage.
    pub fn width(&self) -> (width: Width)
        ensures
            width == self.spec_width(),
    {
        self.flags.width()
    }

    /// The number of bytes that the storage words of the segment take.
    pub fn byte_len(&self) -> (bytes: usize)
        requires
            self.wf(),
        ensures
            bytes == storage_bytes(self.spec_encoding(), self.spec_width(), self@.len() as int),
    {
        self.flags.byte_len()
    }

    /// Whether the flag at `index`, an index of the segment, is still set.
    pub fn is_prime(&self, index: usize) -> (set: bool)
        requires
            self.wf(),
            self.spec_start() <= index < self.spec_end(),
        ensures
            set == self@[index - self.spec_start()],
    {
        self.flags.is_prime(index - self.start)
    }

    /// One marking pass: clears the flag of every multiple of `q` in the
    /// segment from the square of `q` on, and no other.
    pub fn strike(&mut self, q: usize)
        requires
            old(self).wf(),
            q >= 3,
            q % 2 == 1,
            q * q <= usize::MAX,
        ensures
            final(self).wf(),
            final(self).spec_start() == old(self).spec_start(),
            final(self).spec_encoding() == old(self).spec_encoding(),
            final(self).spec_width() == old(self).spec_width(),
            final(self)@ == after_strike(old(self)@, old(self).spec_start() as int, q as int),
    {
        let ghost before = self.flags@;
        let len = self.flags.len();
        let start = self.start;
        let end = start + len;
        let half = q / 2;
        proof {
            assert(half * (q + 1) * 2 + 1 == q * q && 3 * q <= q * q) by (nonlinear_arith)
                requires
                    q == 2 * half + 1,
                    q >= 3,
            ;
        }
        let square = half * (q + 1);
        let mut j: usize = square;
        if start > square {
            let r = (start - half) % q;
            proof {
                let t = (start - half) as int / (q as int);
                vstd::arithmetic::div_mod::lemma_fundamental_div_mod(
                    (start - half) as int,
                    q as int,
                );
                lemma_index_of_multiple(half as int, t);
                lemma_index_of_multiple(half as int, t + 1);
                assert(q * (t + 1) == q * t + q) by (nonlinear_arith);
            }
            if r == 0 {
                j = start;
            } else {
                j = start + (q - r);
            }
            proof {
                assert(multiple_at(j as int, q as int));
                assert forall|i: int| 0 <= i < len && start + i < j implies self.flags@[i] == (
                before[i] && !struck(number_at(start + i), q as int)) by {
                    lemma_no_multiple_between(j - q, start + i, q as int);
                }
            }
        } else {
            proof {
                lemma_is_multiple(q as int, q as int);
                assert(multiple_at(j as int, q as int));
            }
        }
        while j < end
            invariant
                self.flags.wf(),
                self.start == start,
                end == start + len,
                end <= max_flags(),
                self.flags@.len() == len,
                before.len() == len,
                self.flags.spec_encoding() == old(self).flags.spec_encoding(),
                self.flags.spec_width() == old(self).flags.spec_width(),
                q >= 3,
                q % 2 == 1,
                3 * q <= usize::MAX,
                q * q >= 9,
                start <= j,
                square <= j,
                2 * square + 1 == q * q,
                multiple_at(j as int, q as int),
                forall|i: int|
                    0 <= i < len && start + i < j ==> #[trigger] self.flags@[i] == (before[i]
                        && !struck(number_at(start + i), q as int)),
                forall|i: int|
                    0 <= i < len && start + i >= j ==> #[trigger] self.flags@[i] == before[i],
            decreases end + q - j,
        {
            self.flags.mark_composite(j - start);
            proof {
                assert forall|i: int| 0 <= i < len && start + i < j + q implies self.flags@[i] == (
                before[i] && !struck(number_at(start + i), q as int)) by {
                    if start + i > j {
                        lemma_no_multiple_between(j as int, start + i, q as int);
                    }
                }
                lemma_multiple_form(2 * j + 1, q as int);
                let s = (2 * j + 1) / (q as int);
                assert(2 * (j + q) + 1 == q * (s + 2)) by (nonlinear_arith)
                    requires
                        2 * j + 1 == q * s,
                ;
                lemma_is_multiple(q as int, s + 2);
            }
            j = j + q;
        }
        proof {
            assert(self.flags@ =~= after_strike(before, start as int, q as int));
        }
    }

    /// Every flag is set exactly if its number is prime.
    pub open spec fn marks_primes(&self) -> bool {
        forall|i: int|
            0 <= i < self@.len() ==> #[trigger] self@[i] == is_prime(
                number_at(self.spec_start() + i),
            )
    }

    /// The classic sieve over a segment that begins at index 0 and whose
    /// flags are all set: for each odd `p` from 3 on, as long as the square
    /// of `p` is in the segment, if `p` is still flagged, one pass with
    /// `p`. Afterwards exactly the primes are flagged.
    pub fn sieve(&mut self)
        requires
            old(self).wf(),
            old(self).spec_start() == 0,
            forall|i: int| 0 <= i < old(self)@.len() ==> old(self)@[i],
        ensures
            final(self).wf(),
            final(self).spec_start() == 0,
            final(self).spec_encoding() == old(self).spec_encoding(),
            final(self).spec_width() == old(self).spec_width(),
            final(self)@.len() == old(self)@.len(),
            final(self).marks_primes(),
    {
        let len = self.flags.len();
        if len < 2 {
            proof {
                assert(is_prime(2));
            }
            return ;
        }
        let top: usize = 2 * (len - 1) + 1;
        let root = isqrt(top);
        let mut p: usize = 3;
        proof {
            assert((3 * root <= root * root || root < 3) && root <= root * root)
                by (nonlinear_arith);
            assert(root >= 1) by (nonlinear_arith)
                requires
                    top >= 3,
                    root >= 0,
                    top < (root + 1) * (root + 1),
            ;
            assert forall|i: int| 0 <= i < len implies #[trigger] self.flags@[i] == !sieved(
                number_at(i),
                3,
            ) by {
                assert(self@[i]);
            }
        }
        while p <= root
            invariant
                self.wf(),
                self.start == 0,
                self.flags@.len() == len,
                len >= 2,
                top == 2 * (len - 1) + 1,
                self.flags.spec_encoding() == old(self).flags.spec_encoding(),
                self.flags.spec_width() == old(self).flags.spec_width(),
                root * root <= top,
                root <= top,
                3 * root <= usize::MAX,
                3 <= p <= root + 2,
                p % 2 == 1,
                forall|i: int|
                    0 <= i < len ==> #[trigger] self.flags@[i] == !sieved(number_at(i), p as int),
            decreases root + 2 - p,
        {
            proof {
                assert(p * p <= root * root) by (nonlinear_arith)
                    requires
                        0 <= p <= root,
                ;
            }
            let ghost before = self.flags@;
            if self.flags.is_prime(p / 2) {
                self.strike(p);
                proof {
                    assert forall|i: int| 0 <= i < len implies #[trigger] self.flags@[i] == !sieved(
                        number_at(i),
                        p + 2,
                    ) by {
                        lemma_sieved_step(number_at(i), p as int);
                        assert(self.flags@[i] == (before[i] && !struck(number_at(0 + i), p as int)));
                    }
                }
            } else {
                proof {
                    assert(number_at((p / 2) as int) == p);
                    assert(self.flags@[(p / 2) as int] == !sieved(
                        number_at((p / 2) as int),
                        p as int,
                    ));
                    assert forall|i: int| 0 <= i < len implies #[trigger] self.flags@[i] == !sieved(
                        number_at(i),
                        p + 2,
                    ) by {
                        lemma_sieved_step(number_at(i), p as int);
                        if struck(number_at(i), p as int) {
                            lemma_sieved_skip(number_at(i), p as int);
                        }
                    }
                }
            }
            p = p + 2;
        }
        proof {
            assert(top < p * p) by (nonlinear_arith)
                requires
                    top < (root + 1) * (root + 1),
                    p > root,
            ;
            assert forall|i: int| 0 <= i < len implies #[trigger] self@[i] == is_prime(
                number_at(self.spec_start() + i),
            ) by {
                lemma_sieved_is_composite(number_at(i), p as int);
            }
        }
    }

    /// The number of flags that are still set, found by one scan.
    pub fn count(&self) -> (count: usize)
        requires
            self.wf(),
        ensures
            count == count_set(self@),
            self.marks_primes() ==> count == primes_at(self.spec_start() as int, self.spec_end()),
    {
        proof {
            if self.marks_primes() {
                lemma_count_of_marked(self@, self.spec_start() as int);
            }
        }
        self.flags.count()
    }

    /// The odd primes among the numbers of a sieved segment that begins at
    /// index 0, in rising order.
    pub fn primes(&self) -> (primes: Vec<usize>)
        requires
            self.wf(),
            self.spec_start() == 0,
            self.marks_primes(),
        ensures
            lists_odd_primes(primes@, 2 * self@.len() - 1),
    {
        let len = self.flags.len();
        let mut primes: Vec<usize> = Vec::new();
        let mut index: usize = 1;
        while index < len
            invariant
                self.wf(),
                self.start == 0,
                self.marks_primes(),
                self.flags@.len() == len,
                1 <= index,
                index <= len || primes@.len() == 0,
                lists_odd_primes(primes@, 2 * index - 1),
            decreases len - index,
        {
            let ghost listed = primes@;
            if self.flags.is_prime(index) {
                primes.push(2 * index + 1);
            }
            proof {
                assert(self@[index as int] == is_prime(number_at(0 + index)));
                assert forall|q: int| 3 <= q <= 2 * index + 1 && #[trigger] is_prime(q) implies exists|
                    k: int,
                |
                    0 <= k < primes@.len() && #[trigger] primes@[k] == q by {
                    if q <= 2 * index - 1 {
                        let k = choose|k: int| 0 <= k < listed.len() && #[trigger] listed[k] == q;
                        assert(primes@[k] == q);
                    } else if q == 2 * index {
                        assert(q % 2 == 0 && 2 <= 2 < q);
                    } else {
                        assert(primes@[listed.len() as int] == q);
                    }
                }
            }
            index = index + 1;
        }
        primes
    }

    /// One pass with each number of `primes`, in their order.
    pub fn sieve_with(&mut self, primes: &Vec<usize>)
        requires
            old(self).wf(),
            forall|k: int|
                0 <= k < primes@.len() ==> 3 <= #[trigger] primes@[k] && primes@[k] % 2 == 1
                    && primes@[k] * primes@[k] <= usize::MAX,
        ensures
            final(self).wf(),
            final(self).spec_start() == old(self).spec_start(),
            final(self).spec_encoding() == old(self).spec_encoding(),
            final(self).spec_width() == old(self).spec_width(),
            final(self)@ == after_strikes(old(self)@, old(self).spec_start() as int, primes@),
    {
        let ghost before = self.flags@;
        let mut k: usize = 0;
        proof {
            assert(self.flags@ =~= after_strikes(before, self.start as int, primes@.take(0)));
        }
        while k < primes.len()
            invariant
                self.wf(),
                self.start == old(self).start,
                self.flags.spec_encoding() == old(self).flags.spec_encoding(),
                self.flags.spec_width() == old(self).flags.spec_width(),
                k <= primes@.len(),
                forall|k: int|
                    0 <= k < primes@.len() ==> 3 <= #[trigger] primes@[k] && primes@[k] % 2 == 1
                        && primes@[k] * primes@[k] <= usize::MAX,
                self.flags@ == after_strikes(before, self.start as int, primes@.take(k as int)),
            decreases primes@.len() - k,
        {
            let ghost earlier = primes@.take(k as int);
            let ghost later = primes@.take(k + 1);
            let q = primes[k];
            self.strike(q);
            proof {
                assert forall|i: int| 0 <= i < before.len() implies struck_by_any(
                    number_at(self.start + i),
                    later,
                ) == (struck_by_any(number_at(self.start + i), earlier) || struck(
                    #[trigger] number_at(self.start + i),
                    q as int,
                )) by {
                    let v = number_at(self.start + i);
                    if struck_by_any(v, later) {
                        let l = choose|l: int|
                            0 <= l < later.len() && struck(v, #[trigger] later[l] as int);
                        if l < k {
                            assert(struck(v, earlier[l] as int));
                        }
                    }
                    if struck_by_any(v, earlier) {
                        let l = choose|l: int|
                            0 <= l < earlier.len() && struck(v, #[trigger] earlier[l] as int);
                        assert(struck(v, later[l] as int));
                    }
                    if struck(v, q as int) {
                        assert(struck(v, later[k as int] as int));
                    }
                }
                assert(self.flags@ =~= after_strikes(before, self.start as int, later));
            }
            k = k + 1;
        }
        proof {
            assert(primes@.take(k as int) =~= primes@);
        }
    }
}

} // verus!
