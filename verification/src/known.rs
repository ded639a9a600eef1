//! Prime counts that are known for some sizes, to hold a result against.

use crate::number::{is_prime, prime_count};
use vstd::prelude::*;

verus! {

/// The number of primes up to `size` where it is on record, for the sizes
/// 2, 3 and 4 and the powers of ten from 10 to 100 000 000.
pub open spec fn known_count(size: int) -> Option<int> {
    if size == 2 {
        Some(1)
    } else if size == 3 {
        Some(2)
    } else if size == 4 {
        Some(2)
    } else if size == 10 {
        Some(4)
    } else if size == 100 {
        Some(25)
    } else if size == 1000 {
        Some(168)
    } else if size == 10000 {
        Some(1229)
    } else if size == 100000 {
        Some(9592)
    } else if size == 1000000 {
        Some(78498)
    } else if size == 10000000 {
        Some(664579)
    } else if size == 100000000 {
        Some(5761455)
    } else {
        None
    }
}

/// For the sizes up to 10, the record holds the number of primes up to
/// the size.
pub proof fn lemma_record_up_to_ten()
    ensures
        forall|size: int|
            size <= 10 && known_count(size) is Some ==> #[trigger] known_count(size) == Some(
                prime_count(size) as int,
            ),
{
    assert(is_prime(2));
    assert(is_prime(3)) by {
        assert forall|d: int| 2 <= d < 3 implies #[trigger] (3int % d) != 0 by {
            assert(d == 2);
        }
    }
    assert(!is_prime(4)) by {
        assert(4int % 2 == 0);
    }
    assert(is_prime(5)) by {
        assert forall|d: int| 2 <= d < 5 implies #[trigger] (5int % d) != 0 by {
            assert(d == 2 || d == 3 || d == 4);
        }
    }
    assert(!is_prime(6)) by {
        assert(6int % 2 == 0);
    }
    assert(is_prime(7)) by {
        assert forall|d: int| 2 <= d < 7 implies #[trigger] (7int % d) != 0 by {
            assert(d == 2 || d == 3 || d == 4 || d == 5 || d == 6);
        }
    }
    assert(!is_prime(8)) by {
        assert(8int % 2 == 0);
    }
    assert(!is_prime(9)) by {
        assert(9int % 3 == 0);
    }
    assert(!is_prime(10)) by {
        assert(10int % 2 == 0);
    }
    reveal_with_fuel(prime_count, 11);
    assert(prime_count(2) == 1);
    assert(prime_count(3) == 2);
    assert(prime_count(4) == 2);
    assert(prime_count(10) == 4);
}

/// The number of primes up to `size` where it is on record.
pub fn known_prime_count(size: usize) -> (count: Option<usize>)
    ensures
        match count {
            Some(found) => known_count(size as int) == Some(found as int),
            None => known_count(size as int) is None,
        },
{
    match size {
        2 => Some(1),
        3 => Some(2),
        4 => Some(2),
        10 => Some(4),
        100 => Some(25),
        1000 => Some(168),
        10000 => Some(1229),
        100000 => Some(9592),
        1000000 => Some(78498),
        10000000 => Some(664579),
        100000000 => Some(5761455),
        _ => None,
    }
}

/// What a count of primes is worth against the record.
#[derive(Clone, Copy, Debug, PartialEq, Eq, Structural)]
pub enum Verdict {
    /// The record has the size, and the count agrees with it.
    Correct,
    /// The record has the size, and the count differs from it.
    Incorrect,
    /// The record does not have the size.
    Unknown,
}

/// Holds a count of the primes up to `size` against the record.
pub fn check_count(size: usize, count: usize) -> (verdict: Verdict)
    ensures
        verdict == match known_count(size as int) {
            Some(known) => if known == count {
                Verdict::Correct
            } else {
                Verdict::Incorrect
            },
            None => Verdict::Unknown,
        },
{
    match known_prime_count(size) {
        Some(known) => if known == count {
            Verdict::Correct
        } else {
            Verdict::Incorrect
        },
        None => Verdict::Unknown,
    }
}

} // verus!
