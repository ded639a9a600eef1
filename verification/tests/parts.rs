use prime_sieve::algorithm::Algorithm;
use prime_sieve::flag_data::{fits, flag_size, Encoding, FlagData, Width};
use prime_sieve::known::{check_count, known_prime_count, Verdict};
use prime_sieve::number::isqrt;
use prime_sieve::partition::{div_up, split};
use prime_sieve::plan::{base_flags, block_count, cut, flags_for, word_flags};
use prime_sieve::segment::Segment;
use prime_sieve::worker::{deal, gather, Worker};

fn storages() -> Vec<(Encoding, Width)> {
    vec![
        (Encoding::Bool, Width::U8),
        (Encoding::Bool, Width::U32),
        (Encoding::Bit, Width::U8),
        (Encoding::Bit, Width::U32),
    ]
}

fn set_flags(flags: &FlagData) -> Vec<usize> {
    (0..flags.len()).filter(|&index| flags.is_prime(index)).collect()
}

fn set_numbers(segment: &Segment, flags: &[bool]) -> Vec<usize> {
    let mut numbers = Vec::new();
    for (offset, &set) in flags.iter().enumerate() {
        let index = segment.start() + offset;
        if set {
            numbers.push(if index == 0 { 2 } else { 2 * index + 1 });
        }
    }
    numbers
}

#[test]
fn integer_square_roots() {
    assert_eq!(isqrt(0), 0);
    assert_eq!(isqrt(1), 1);
    assert_eq!(isqrt(2), 1);
    assert_eq!(isqrt(3), 1);
    assert_eq!(isqrt(4), 2);
    assert_eq!(isqrt(8), 2);
    assert_eq!(isqrt(9), 3);
    assert_eq!(isqrt(15), 3);
    assert_eq!(isqrt(16), 4);
    assert_eq!(isqrt(99), 9);
    assert_eq!(isqrt(100), 10);
    assert_eq!(isqrt(100_000_000), 10_000);
    assert_eq!(isqrt(99_999_999), 9_999);
    assert_eq!(isqrt(u32::MAX as usize), 65535);
    assert_eq!(isqrt(usize::MAX), (1usize << (usize::BITS / 2)) - 1);
    for n in 0..5000usize {
        let r = isqrt(n);
        assert!(r * r <= n && n < (r + 1) * (r + 1));
    }
}

#[test]
fn fresh_flags_are_all_set() {
    for (encoding, width) in storages() {
        for len in [0, 1, 7, 8, 9, 31, 32, 33, 100] {
            let flags = FlagData::new(encoding, width, len);
            assert_eq!(flags.len(), len);
            assert_eq!(flags.encoding(), encoding);
            assert_eq!(flags.width(), width);
            assert_eq!(flags.count(), len);
            for index in 0..len {
                assert!(flags.is_prime(index));
            }
        }
    }
}

#[test]
fn marking_clears_one_flag_only() {
    for (encoding, width) in storages() {
        for index in 0..70 {
            let mut flags = FlagData::new(encoding, width, 70);
            flags.mark_composite(index);
            assert_eq!(flags.len(), 70);
            assert_eq!(flags.count(), 69);
            for other in 0..70 {
                assert_eq!(flags.is_prime(other), other != index);
            }
        }
    }
}

#[test]
fn marking_twice_is_marking_once() {
    for (encoding, width) in storages() {
        let mut flags = FlagData::new(encoding, width, 40);
        for index in [0, 7, 8, 31, 32, 39, 7, 0, 39] {
            flags.mark_composite(index);
        }
        assert_eq!(set_flags(&flags).len(), 34);
        assert_eq!(flags.count(), 34);
        for index in [0, 7, 8, 31, 32, 39] {
            assert!(!flags.is_prime(index));
        }
        assert!(flags.is_prime(1));
        assert!(flags.is_prime(33));
    }
}

#[test]
fn storage_sizes_that_fit() {
    let most = isize::MAX as usize;
    assert!(fits(Encoding::Bool, Width::U8, 0));
    assert!(fits(Encoding::Bool, Width::U8, most));
    assert!(!fits(Encoding::Bool, Width::U8, most + 1));
    assert!(fits(Encoding::Bool, Width::U32, most / 4));
    assert!(!fits(Encoding::Bool, Width::U32, most / 4 + 1));
    assert!(fits(Encoding::Bit, Width::U8, usize::MAX));
    assert!(fits(Encoding::Bit, Width::U32, usize::MAX));
}

#[test]
fn names_and_sizes_for_reports() {
    assert_eq!(Algorithm::Serial.id_str(), "serial");
    assert_eq!(Algorithm::Stream.id_str(), "stream");
    assert_eq!(Algorithm::Tile(1 << 14).id_str(), "tile");
    assert_eq!(Encoding::Bool.id_str(), "bool");
    assert_eq!(Encoding::Bit.id_str(), "bit");
    assert_eq!(Width::U8.bits(), 8);
    assert_eq!(Width::U32.bits(), 32);
    assert_eq!(Width::U8.bytes(), 1);
    assert_eq!(Width::U32.bytes(), 4);
    assert_eq!(flag_size(Encoding::Bool, Width::U8), 8);
    assert_eq!(flag_size(Encoding::Bool, Width::U32), 32);
    assert_eq!(flag_size(Encoding::Bit, Width::U8), 1);
    assert_eq!(flag_size(Encoding::Bit, Width::U32), 1);
    assert_eq!(word_flags(Encoding::Bool, Width::U8), 1);
    assert_eq!(word_flags(Encoding::Bool, Width::U32), 1);
    assert_eq!(word_flags(Encoding::Bit, Width::U8), 8);
    assert_eq!(word_flags(Encoding::Bit, Width::U32), 32);
}

#[test]
fn one_pass_strikes_the_multiples_from_the_square() {
    for (encoding, width) in storages() {
        let mut segment = Segment::new(encoding, width, 0, 50);
        segment.strike(3);
        let mut expected = Vec::new();
        for index in 0..50usize {
            let number = if index == 0 { 2 } else { 2 * index + 1 };
            if !(number % 3 == 0 && number >= 9) {
                expected.push(number);
            }
        }
        let flags: Vec<bool> = (0..50).map(|_| true).collect();
        assert_eq!(set_numbers(&segment, &flags).len(), 50);
        assert_eq!(segment.count(), expected.len());
        assert_eq!(segment.count(), 50 - 16);
        segment.strike(5);
        assert_eq!(segment.count(), 50 - 16 - 6);
        segment.strike(7);
        assert_eq!(segment.count(), 50 - 16 - 6 - 3);
        segment.strike(11);
        assert_eq!(segment.count(), 25);
    }
}

#[test]
fn one_pass_in_the_middle_of_the_flags() {
    for (encoding, width) in storages() {
        for start in 0..40 {
            for len in [0, 1, 5, 33] {
                for q in [3usize, 5, 7, 9, 11, 13] {
                    let mut segment = Segment::new(encoding, width, start, len);
                    segment.strike(q);
                    let mut expected = 0;
                    for index in start..start + len {
                        let number = if index == 0 { 2 } else { 2 * index + 1 };
                        if !(number % q == 0 && number >= q * q) {
                            expected += 1;
                        }
                    }
                    assert_eq!(segment.start(), start);
                    assert_eq!(segment.len(), len);
                    assert_eq!(segment.count(), expected);
                }
            }
        }
    }
}

#[test]
fn the_classic_sieve_lists_the_odd_primes() {
    for (encoding, width) in storages() {
        let mut segment = Segment::new(encoding, width, 0, 50);
        segment.sieve();
        assert_eq!(segment.count(), 25);
        assert_eq!(
            segment.primes(),
            vec![3, 5, 7, 11, 13, 17, 19, 23, 29, 31, 37, 41, 43, 47, 53, 59, 61, 67, 71, 73, 79, 83, 89, 97]
        );
        let mut segment = Segment::new(encoding, width, 0, 0);
        segment.sieve();
        assert_eq!(segment.count(), 0);
        assert!(segment.primes().is_empty());
        let mut segment = Segment::new(encoding, width, 0, 1);
        segment.sieve();
        assert_eq!(segment.count(), 1);
        assert!(segment.primes().is_empty());
        let mut segment = Segment::new(encoding, width, 0, 2);
        segment.sieve();
        assert_eq!(segment.count(), 2);
        assert_eq!(segment.primes(), vec![3]);
        let mut segment = Segment::new(encoding, width, 0, 5);
        segment.sieve();
        assert_eq!(segment.count(), 4);
        assert_eq!(segment.primes(), vec![3, 5, 7]);
    }
}

#[test]
fn passes_with_the_base_primes_leave_the_primes() {
    for (encoding, width) in storages() {
        let mut segment = Segment::new(encoding, width, 5, 45);
        segment.sieve_with(&vec![3, 5, 7]);
        assert_eq!(segment.count(), 21);
        let mut segment = Segment::new(encoding, width, 50, 450);
        segment.sieve_with(&vec![3, 5, 7, 11, 13, 17, 19, 23, 29, 31]);
        assert_eq!(segment.count(), 168 - 25);
        let mut segment = Segment::new(encoding, width, 5, 45);
        segment.sieve_with(&Vec::new());
        assert_eq!(segment.count(), 45);
    }
}

#[test]
fn runs_are_cut_every_chunk() {
    assert_eq!(split(0, 10, 3), vec![(0, 3), (3, 6), (6, 9), (9, 10)]);
    assert_eq!(split(5, 11, 3), vec![(5, 8), (8, 11)]);
    assert_eq!(split(5, 11, 6), vec![(5, 11)]);
    assert_eq!(split(5, 11, 100), vec![(5, 11)]);
    assert_eq!(split(5, 6, 1), vec![(5, 6)]);
    assert_eq!(split(5, 5, 1), Vec::new());
    assert_eq!(split(6, 5, 1), Vec::new());
    assert_eq!(split(usize::MAX - 5, usize::MAX, 4), vec![(usize::MAX - 5, usize::MAX - 1), (usize::MAX - 1, usize::MAX)]);
    assert_eq!(split(0, usize::MAX, usize::MAX), vec![(0, usize::MAX)]);
}

#[test]
fn division_rounds_up() {
    assert_eq!(div_up(0, 3), 0);
    assert_eq!(div_up(1, 3), 1);
    assert_eq!(div_up(3, 3), 1);
    assert_eq!(div_up(4, 3), 2);
    assert_eq!(div_up(usize::MAX, 1), usize::MAX);
    assert_eq!(div_up(usize::MAX, 2), usize::MAX / 2 + 1);
    assert_eq!(div_up(usize::MAX, usize::MAX), 1);
}

#[test]
fn pieces_are_dealt_out_in_blocks() {
    assert_eq!(block_count(0, 4), 0);
    assert_eq!(block_count(1, 4), 1);
    assert_eq!(block_count(4, 4), 4);
    assert_eq!(block_count(5, 4), 3);
    assert_eq!(block_count(8, 4), 4);
    assert_eq!(block_count(9, 4), 3);
    assert_eq!(block_count(31, 4), 4);
    assert_eq!(block_count(31, 10), 8);
    assert_eq!(block_count(100, 1), 1);
}

#[test]
fn flags_stand_for_two_and_the_odd_numbers() {
    assert_eq!(flags_for(0), 0);
    assert_eq!(flags_for(1), 0);
    assert_eq!(flags_for(2), 1);
    assert_eq!(flags_for(3), 2);
    assert_eq!(flags_for(4), 2);
    assert_eq!(flags_for(5), 3);
    assert_eq!(flags_for(100), 50);
    assert_eq!(flags_for(101), 51);
    assert_eq!(flags_for(usize::MAX), usize::MAX / 2 + 1);
}

#[test]
fn the_base_sieve_reaches_the_square_root() {
    assert_eq!(base_flags(100, Algorithm::Serial), 50);
    assert_eq!(base_flags(100, Algorithm::Stream), 5);
    assert_eq!(base_flags(100, Algorithm::Tile(16)), 5);
    assert_eq!(base_flags(120, Algorithm::Stream), 5);
    assert_eq!(base_flags(121, Algorithm::Stream), 6);
    assert_eq!(base_flags(0, Algorithm::Stream), 0);
    assert_eq!(base_flags(3, Algorithm::Stream), 0);
    assert_eq!(base_flags(4, Algorithm::Stream), 1);
    assert_eq!(base_flags(9, Algorithm::Stream), 2);
}

#[test]
fn cuts_for_each_algorithm() {
    assert!(cut(100, Algorithm::Serial, Encoding::Bool, Width::U8, 4).is_empty());
    assert_eq!(
        cut(100, Algorithm::Stream, Encoding::Bool, Width::U8, 2),
        vec![(5, 28), (28, 50)]
    );
    assert_eq!(
        cut(100, Algorithm::Tile(2), Encoding::Bit, Width::U8, 2),
        vec![(5, 21), (21, 37), (37, 50)]
    );
    assert_eq!(
        cut(100, Algorithm::Tile(8), Encoding::Bool, Width::U32, 2).len(),
        23
    );
}

#[test]
fn dealing_and_gathering_keeps_the_order() {
    let mut segments = Vec::new();
    for start in 0..7 {
        segments.push(Segment::new(Encoding::Bit, Width::U8, 10 + 3 * start, 3));
    }
    let primes = vec![3, 5, 7];
    let mut workers: Vec<Worker> = deal(segments, &primes, 7, 3);
    assert_eq!(workers.len(), 3);
    assert_eq!(workers[0].piece_count(), 3);
    assert_eq!(workers[1].piece_count(), 3);
    assert_eq!(workers[2].piece_count(), 1);
    for worker in workers.iter_mut() {
        worker.run();
        assert!(worker.is_done());
    }
    let segments = gather(workers);
    assert_eq!(segments.len(), 7);
    let mut count = 0;
    for (place, segment) in segments.iter().enumerate() {
        assert_eq!(segment.start(), 10 + 3 * place);
        assert_eq!(segment.len(), 3);
        count += segment.count();
    }
    assert_eq!(count, 10);
}

#[test]
fn a_released_worker_holds_nothing() {
    let segments = vec![Segment::new(Encoding::Bool, Width::U8, 2, 3)];
    let mut worker = Worker::new(3, vec![3], segments);
    assert!(!worker.is_done());
    worker.run();
    let segments = worker.release();
    assert_eq!(segments.len(), 1);
    assert_eq!(segments[0].count(), 2);
    assert_eq!(worker.piece_count(), 0);
    assert!(worker.is_done());
}

#[test]
fn counts_on_record() {
    assert_eq!(known_prime_count(2), Some(1));
    assert_eq!(known_prime_count(3), Some(2));
    assert_eq!(known_prime_count(4), Some(2));
    assert_eq!(known_prime_count(10), Some(4));
    assert_eq!(known_prime_count(100), Some(25));
    assert_eq!(known_prime_count(1000), Some(168));
    assert_eq!(known_prime_count(10000), Some(1229));
    assert_eq!(known_prime_count(100000), Some(9592));
    assert_eq!(known_prime_count(1000000), Some(78498));
    assert_eq!(known_prime_count(10000000), Some(664579));
    assert_eq!(known_prime_count(100000000), Some(5761455));
    assert_eq!(known_prime_count(0), None);
    assert_eq!(known_prime_count(5), None);
    assert_eq!(known_prime_count(1001), None);
}

#[test]
fn verdicts_against_the_record() {
    assert_eq!(check_count(1000, 168), Verdict::Correct);
    assert_eq!(check_count(1000, 167), Verdict::Incorrect);
    assert_eq!(check_count(1001, 168), Verdict::Unknown);
    assert_eq!(check_count(2, 1), Verdict::Correct);
    assert_eq!(check_count(2, 0), Verdict::Incorrect);
    assert_eq!(check_count(0, 0), Verdict::Unknown);
}

#[test]
fn a_segment_answers_for_its_own_indices() {
    for (encoding, width) in storages() {
        let mut segment = Segment::new(encoding, width, 4, 10);
        segment.strike(3);
        let expected = [false, true, true, false, true, true, false, true, true, false];
        for offset in 0..10 {
            assert_eq!(segment.is_prime(4 + offset), expected[offset]);
        }
    }
}

#[test]
fn words_are_as_many_as_the_flags_need() {
    let cases = [
        (Encoding::Bool, Width::U8, 0, 0, 0),
        (Encoding::Bool, Width::U8, 9, 9, 9),
        (Encoding::Bool, Width::U32, 9, 9, 36),
        (Encoding::Bit, Width::U8, 0, 0, 0),
        (Encoding::Bit, Width::U8, 1, 1, 1),
        (Encoding::Bit, Width::U8, 8, 1, 1),
        (Encoding::Bit, Width::U8, 9, 2, 2),
        (Encoding::Bit, Width::U32, 1, 1, 4),
        (Encoding::Bit, Width::U32, 32, 1, 4),
        (Encoding::Bit, Width::U32, 33, 2, 8),
        (Encoding::Bit, Width::U32, 1000, 32, 128),
    ];
    for (encoding, width, len, words, bytes) in cases {
        let flags = FlagData::new(encoding, width, len);
        assert_eq!(flags.word_len(), words);
        assert_eq!(flags.byte_len(), bytes);
        let segment = Segment::new(encoding, width, 7, len);
        assert_eq!(segment.byte_len(), bytes);
    }
}
