//! The ways of dividing the marking work.

use vstd::prelude::*;

verus! {

/// How the marking work of one pass over a sieve is divided.
#[derive(Clone, Copy, Debug, PartialEq, Eq, Structural)]
pub enum Algorithm {
    /// One worker sieves all flags the classic way.
    Serial,
    /// The flags beyond the base primes are cut into one run for each
    /// worker.
    Stream,
    /// The flags beyond the base primes are cut into tiles whose storage
    /// takes no more than the given number of bytes.
    Tile(usize),
}

impl Algorithm {
    /// The name of the algorithm in reports.
    pub open spec fn spec_id_str(self) -> Seq<char> {
        match self {
            Algorithm::Serial => "serial"@,
            Algorithm::Stream => "stream"@,
            Algorithm::Tile(_) => "tile"@,
        }
    }

    /// The name of the algorithm in reports.
    pub fn id_str(&self) -> (name: &'static str)
        ensures
            name@ == self.spec_id_str(),
    {
        match self {
            Algorithm::Serial => "serial",
            Algorithm::Stream => "stream",
            Algorithm::Tile(_) => "tile",
        }
    }
}

} // verus!
