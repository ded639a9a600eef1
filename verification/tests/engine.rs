use prime_sieve::algorithm::Algorithm;
use prime_sieve::flag_data::{Encoding, Width};
use prime_sieve::plan::cut;
use prime_sieve::sieve::{Sieve, SieveError};
use prime_sieve::worker::run_all;

fn algorithms() -> Vec<Algorithm> {
    vec![
        Algorithm::Serial,
        Algorithm::Stream,
        Algorithm::Tile(4),
        Algorithm::Tile(64),
        Algorithm::Tile(1 << 14),
    ]
}

fn storages() -> Vec<(Encoding, Width)> {
    vec![
        (Encoding::Bool, Width::U8),
        (Encoding::Bool, Width::U32),
        (Encoding::Bit, Width::U8),
        (Encoding::Bit, Width::U32),
    ]
}

/// Counts the primes up to `size` by trial division.
fn slow_count(size: usize) -> usize {
    let mut count = 0;
    for n in 2..=size {
        let mut prime = true;
        let mut d = 2;
        while d * d <= n {
            if n % d == 0 {
                prime = false;
            }
            d += 1;
        }
        if prime {
            count += 1;
        }
    }
    count
}

fn count_with(size: usize, algorithm: Algorithm, encoding: Encoding, width: Width, workers: usize) -> usize {
    let mut sieve = Sieve::new(size, algorithm, encoding, width, workers).unwrap();
    sieve.sieve();
    sieve.count_primes()
}

#[test]
fn sizes_zero_and_one_hold_no_prime() {
    for algorithm in algorithms() {
        for (encoding, width) in storages() {
            for size in 0..2 {
                let mut sieve = Sieve::new(size, algorithm, encoding, width, 4).unwrap();
                assert_eq!(sieve.base_len(), 0);
                assert!(sieve.piece_bounds().is_empty());
                sieve.sieve();
                assert_eq!(sieve.count_primes(), 0);
                assert_eq!(sieve.thread_count(), 1);
                assert!(!sieve.is_prime(0));
                assert!(!sieve.is_prime(1));
                assert!(!sieve.is_prime(2));
                let sieve = Sieve::new(size, algorithm, encoding, width, 4).unwrap();
                let (fork, workers) = sieve.fork();
                assert!(workers.is_empty());
                assert!(fork.accepts(&workers));
                let sieve = fork.join(workers);
                assert_eq!(sieve.count_primes(), 0);
                assert_eq!(sieve.thread_count(), 1);
            }
        }
    }
}

#[test]
fn small_sizes_agree_with_trial_division() {
    for size in 0..300 {
        let expected = slow_count(size);
        for algorithm in algorithms() {
            for (encoding, width) in storages() {
                for workers in [1, 3, 8] {
                    assert_eq!(
                        count_with(size, algorithm, encoding, width, workers),
                        expected,
                        "size {} {:?} {:?} {:?} workers {}",
                        size,
                        algorithm,
                        encoding,
                        width,
                        workers
                    );
                }
            }
        }
    }
}

#[test]
fn squares_of_primes_are_struck() {
    for algorithm in algorithms() {
        for (encoding, width) in storages() {
            assert_eq!(count_with(8, algorithm, encoding, width, 2), 4);
            assert_eq!(count_with(9, algorithm, encoding, width, 2), 4);
            assert_eq!(count_with(25, algorithm, encoding, width, 2), 9);
            assert_eq!(count_with(49, algorithm, encoding, width, 2), 15);
            assert_eq!(count_with(121, algorithm, encoding, width, 2), 30);
        }
    }
}

#[test]
fn a_prime_size_is_counted() {
    for algorithm in algorithms() {
        for (encoding, width) in storages() {
            assert_eq!(count_with(96, algorithm, encoding, width, 4), 24);
            assert_eq!(count_with(97, algorithm, encoding, width, 4), 25);
            assert_eq!(count_with(98, algorithm, encoding, width, 4), 25);
        }
    }
}

#[test]
fn encodings_agree_on_every_count() {
    for size in [5, 64, 1000, 4099, 65536, 1_000_003] {
        for algorithm in algorithms() {
            let first = count_with(size, algorithm, Encoding::Bool, Width::U8, 4);
            assert_eq!(first, count_with(size, algorithm, Encoding::Bool, Width::U32, 4));
            assert_eq!(first, count_with(size, algorithm, Encoding::Bit, Width::U8, 4));
            assert_eq!(first, count_with(size, algorithm, Encoding::Bit, Width::U32, 4));
        }
    }
}

#[test]
fn algorithms_agree_on_every_count() {
    for size in [7, 100, 9973, 250_000] {
        for (encoding, width) in storages() {
            let serial = count_with(size, Algorithm::Serial, encoding, width, 1);
            assert_eq!(serial, count_with(size, Algorithm::Stream, encoding, width, 5));
            assert_eq!(serial, count_with(size, Algorithm::Tile(128), encoding, width, 5));
        }
    }
}

#[test]
fn two_sieves_built_alike_count_alike() {
    for algorithm in algorithms() {
        for (encoding, width) in storages() {
            let first = count_with(54321, algorithm, encoding, width, 4);
            let second = count_with(54321, algorithm, encoding, width, 4);
            assert_eq!(first, second);
            assert_eq!(first, 5525);
        }
    }
}

#[test]
fn nothing_is_counted_before_the_pass() {
    for algorithm in algorithms() {
        let sieve = Sieve::new(1000, algorithm, Encoding::Bit, Width::U32, 4).unwrap();
        assert!(!sieve.is_done());
        assert_eq!(sieve.count_primes(), 0);
        assert_eq!(sieve.thread_count(), 0);
    }
}

#[test]
fn a_second_pass_changes_nothing() {
    for algorithm in algorithms() {
        let mut sieve = Sieve::new(1000, algorithm, Encoding::Bit, Width::U8, 4).unwrap();
        sieve.sieve();
        assert!(sieve.is_done());
        assert_eq!(sieve.count_primes(), 168);
        let threads = sieve.thread_count();
        sieve.sieve();
        assert!(sieve.is_done());
        assert_eq!(sieve.count_primes(), 168);
        assert_eq!(sieve.thread_count(), threads);
    }
}

#[test]
fn the_sieve_keeps_its_parameters() {
    let mut sieve = Sieve::new(777, Algorithm::Tile(32), Encoding::Bit, Width::U32, 6).unwrap();
    sieve.sieve();
    assert_eq!(sieve.size(), 777);
    assert_eq!(sieve.algorithm(), Algorithm::Tile(32));
    assert_eq!(sieve.encoding(), Encoding::Bit);
    assert_eq!(sieve.width(), Width::U32);
    assert_eq!(sieve.workers(), 6);
}

#[test]
fn serial_reports_one_thread() {
    for workers in [0, 1, 4, 64] {
        for size in [0, 2, 100, 100_000] {
            let mut sieve = Sieve::new(size, Algorithm::Serial, Encoding::Bool, Width::U8, workers).unwrap();
            sieve.sieve();
            assert_eq!(sieve.thread_count(), 1);
        }
    }
}

#[test]
fn stream_reports_one_thread_for_each_piece() {
    let mut sieve = Sieve::new(1000, Algorithm::Stream, Encoding::Bool, Width::U8, 4).unwrap();
    sieve.sieve();
    assert_eq!(sieve.piece_bounds().len(), 4);
    assert_eq!(sieve.thread_count(), 4);
    let mut sieve = Sieve::new(1000, Algorithm::Stream, Encoding::Bool, Width::U8, 1).unwrap();
    sieve.sieve();
    assert_eq!(sieve.thread_count(), 1);
    let mut sieve = Sieve::new(30, Algorithm::Stream, Encoding::Bool, Width::U8, 16).unwrap();
    sieve.sieve();
    assert_eq!(sieve.piece_bounds().len(), 12);
    assert_eq!(sieve.thread_count(), 12);
}

#[test]
fn tile_reports_no_more_threads_than_workers() {
    let mut sieve = Sieve::new(1_000_000, Algorithm::Tile(1 << 14), Encoding::Bool, Width::U8, 4).unwrap();
    sieve.sieve();
    assert_eq!(sieve.piece_bounds().len(), 31);
    assert_eq!(sieve.thread_count(), 4);
    let mut sieve = Sieve::new(1_000_000, Algorithm::Tile(1 << 14), Encoding::Bool, Width::U8, 64).unwrap();
    sieve.sieve();
    assert_eq!(sieve.thread_count(), 31);
    let mut sieve = Sieve::new(1_000_000, Algorithm::Tile(1 << 14), Encoding::Bool, Width::U8, 7).unwrap();
    sieve.sieve();
    assert_eq!(sieve.thread_count(), 7);
    let mut sieve = Sieve::new(1_000_000, Algorithm::Tile(1 << 14), Encoding::Bool, Width::U8, 10).unwrap();
    sieve.sieve();
    assert_eq!(sieve.thread_count(), 8);
}

#[test]
fn thread_counts_stay_within_the_workers() {
    for size in [0, 1, 2, 3, 10, 99, 1000, 12345] {
        for workers in 1..10 {
            for algorithm in [Algorithm::Stream, Algorithm::Tile(4), Algorithm::Tile(100)] {
                for (encoding, width) in storages() {
                    let mut sieve = Sieve::new(size, algorithm, encoding, width, workers).unwrap();
                    sieve.sieve();
                    let threads = sieve.thread_count();
                    assert!(1 <= threads && threads <= workers);
                }
            }
        }
    }
}

#[test]
fn a_working_set_below_one_word_is_refused() {
    for (encoding, width) in storages() {
        assert_eq!(
            Sieve::new(100, Algorithm::Tile(0), encoding, width, 4).err(),
            Some(SieveError::WorkingSetTooSmall)
        );
    }
    for encoding in [Encoding::Bool, Encoding::Bit] {
        for working_set in 1..4 {
            assert_eq!(
                Sieve::new(100, Algorithm::Tile(working_set), encoding, Width::U32, 4).err(),
                Some(SieveError::WorkingSetTooSmall)
            );
            assert!(Sieve::new(100, Algorithm::Tile(working_set), encoding, Width::U8, 4).is_ok());
        }
        assert!(Sieve::new(100, Algorithm::Tile(4), encoding, Width::U32, 4).is_ok());
    }
    assert_eq!(
        Sieve::new(100, Algorithm::Tile(0), Encoding::Bool, Width::U8, 0).err(),
        Some(SieveError::WorkingSetTooSmall)
    );
}

#[test]
fn no_workers_are_refused() {
    for (encoding, width) in storages() {
        assert_eq!(
            Sieve::new(100, Algorithm::Stream, encoding, width, 0).err(),
            Some(SieveError::NoWorkers)
        );
        assert_eq!(
            Sieve::new(100, Algorithm::Tile(16), encoding, width, 0).err(),
            Some(SieveError::NoWorkers)
        );
        assert!(Sieve::new(100, Algorithm::Serial, encoding, width, 0).is_ok());
    }
}

#[test]
fn flags_beyond_one_allocation_are_refused() {
    assert_eq!(
        Sieve::new(usize::MAX, Algorithm::Serial, Encoding::Bool, Width::U8, 1).err(),
        Some(SieveError::TooLarge)
    );
    assert_eq!(
        Sieve::new(usize::MAX, Algorithm::Stream, Encoding::Bool, Width::U32, 4).err(),
        Some(SieveError::TooLarge)
    );
    assert_eq!(
        Sieve::new(usize::MAX / 2, Algorithm::Tile(64), Encoding::Bool, Width::U32, 4).err(),
        Some(SieveError::TooLarge)
    );
    assert_eq!(
        Sieve::new(usize::MAX, Algorithm::Stream, Encoding::Bool, Width::U8, 0).err(),
        Some(SieveError::NoWorkers)
    );
}

#[test]
fn stream_pieces_cover_the_flags_beyond_the_base() {
    let sieve = Sieve::new(100, Algorithm::Stream, Encoding::Bool, Width::U8, 4).unwrap();
    assert_eq!(sieve.base_len(), 5);
    assert_eq!(sieve.piece_bounds(), vec![(5, 17), (17, 29), (29, 41), (41, 50)]);
    let sieve = Sieve::new(101, Algorithm::Stream, Encoding::Bit, Width::U32, 3).unwrap();
    assert_eq!(sieve.base_len(), 5);
    assert_eq!(sieve.piece_bounds(), vec![(5, 21), (21, 37), (37, 51)]);
    let sieve = Sieve::new(10, Algorithm::Stream, Encoding::Bit, Width::U8, 8).unwrap();
    assert_eq!(sieve.base_len(), 2);
    assert_eq!(sieve.piece_bounds(), vec![(2, 3), (3, 4), (4, 5)]);
    let sieve = Sieve::new(2, Algorithm::Stream, Encoding::Bit, Width::U8, 8).unwrap();
    assert_eq!(sieve.base_len(), 0);
    assert_eq!(sieve.piece_bounds(), vec![(0, 1)]);
}

#[test]
fn tiles_cover_the_flags_beyond_the_base() {
    let sieve = Sieve::new(50, Algorithm::Tile(4), Encoding::Bool, Width::U8, 2).unwrap();
    assert_eq!(sieve.base_len(), 4);
    assert_eq!(
        sieve.piece_bounds(),
        vec![(4, 8), (8, 12), (12, 16), (16, 20), (20, 24), (24, 25)]
    );
    let sieve = Sieve::new(50, Algorithm::Tile(9), Encoding::Bool, Width::U32, 2).unwrap();
    assert_eq!(
        sieve.piece_bounds(),
        vec![(4, 6), (6, 8), (8, 10), (10, 12), (12, 14), (14, 16), (16, 18), (18, 20), (20, 22), (22, 24), (24, 25)]
    );
    let sieve = Sieve::new(200, Algorithm::Tile(2), Encoding::Bit, Width::U8, 2).unwrap();
    assert_eq!(sieve.base_len(), 7);
    assert_eq!(
        sieve.piece_bounds(),
        vec![(7, 23), (23, 39), (39, 55), (55, 71), (71, 87), (87, 100)]
    );
    let sieve = Sieve::new(200, Algorithm::Tile(7), Encoding::Bit, Width::U32, 2).unwrap();
    assert_eq!(sieve.piece_bounds(), vec![(7, 39), (39, 71), (71, 100)]);
    let sieve = Sieve::new(200, Algorithm::Tile(usize::MAX), Encoding::Bit, Width::U32, 2).unwrap();
    assert_eq!(sieve.piece_bounds(), vec![(7, 100)]);
}

#[test]
fn serial_has_no_pieces() {
    let sieve = Sieve::new(1000, Algorithm::Serial, Encoding::Bool, Width::U8, 4).unwrap();
    assert_eq!(sieve.base_len(), 500);
    assert!(sieve.piece_bounds().is_empty());
}

#[test]
fn pieces_never_overlap_and_leave_no_gap() {
    for size in 0..400 {
        for workers in [1, 2, 3, 7] {
            for algorithm in [Algorithm::Stream, Algorithm::Tile(4), Algorithm::Tile(13)] {
                for (encoding, width) in storages() {
                    let sieve = Sieve::new(size, algorithm, encoding, width, workers).unwrap();
                    let flags = if size < 2 { 0 } else { (size + 1) / 2 };
                    let bounds = sieve.piece_bounds();
                    assert_eq!(bounds, cut(size, algorithm, encoding, width, workers));
                    let mut next = sieve.base_len();
                    for (from, to) in bounds {
                        assert_eq!(from, next);
                        assert!(from < to);
                        next = to;
                    }
                    assert_eq!(next, flags);
                }
            }
        }
    }
}

#[test]
fn workers_carry_out_the_same_pass() {
    for size in [0, 1, 2, 10, 1000, 65537] {
        for algorithm in algorithms() {
            for (encoding, width) in storages() {
                let expected = count_with(size, algorithm, encoding, width, 3);
                let sieve = Sieve::new(size, algorithm, encoding, width, 3).unwrap();
                let (fork, mut workers) = sieve.fork();
                assert!(workers.len() <= 3);
                assert_eq!(fork.accepts(&workers), workers.is_empty());
                for worker in workers.iter() {
                    assert!(!worker.is_done());
                    assert!(worker.piece_count() > 0);
                }
                run_all(&mut workers);
                for worker in workers.iter() {
                    assert!(worker.is_done());
                }
                assert!(fork.accepts(&workers));
                let sieve = fork.join(workers);
                assert!(sieve.is_done());
                assert_eq!(sieve.count_primes(), expected);
                assert_eq!(sieve.thread_count(), {
                    let mut other = Sieve::new(size, algorithm, encoding, width, 3).unwrap();
                    other.sieve();
                    other.thread_count()
                });
            }
        }
    }
}

#[test]
fn workers_may_run_in_any_order() {
    let sieve = Sieve::new(100_000, Algorithm::Tile(256), Encoding::Bit, Width::U8, 5).unwrap();
    let (fork, mut workers) = sieve.fork();
    assert_eq!(workers.len(), 5);
    for worker in workers.iter_mut().rev() {
        worker.run();
    }
    let sieve = fork.join(workers);
    assert_eq!(sieve.count_primes(), 9592);
    assert_eq!(sieve.thread_count(), 5);
}

#[test]
fn the_forked_pass_counts_the_same() {
    for algorithm in algorithms() {
        for (encoding, width) in storages() {
            let sieve = Sieve::new(10000, algorithm, encoding, width, 4).unwrap();
            let sieve = sieve.sieve_forked();
            assert!(sieve.is_done());
            assert_eq!(sieve.count_primes(), 1229);
            let sieve = sieve.sieve_forked();
            assert_eq!(sieve.count_primes(), 1229);
        }
    }
}

fn slow_is_prime(n: usize) -> bool {
    if n < 2 {
        return false;
    }
    let mut d = 2;
    while d * d <= n {
        if n % d == 0 {
            return false;
        }
        d += 1;
    }
    true
}

#[test]
fn a_new_sieve_flags_two_and_the_odd_numbers() {
    for algorithm in algorithms() {
        for (encoding, width) in storages() {
            for size in [0, 1, 2, 3, 10, 101] {
                let sieve = Sieve::new(size, algorithm, encoding, width, 3).unwrap();
                for number in 0..size + 10 {
                    let expected = number <= size && (number == 2 || (number >= 3 && number % 2 == 1));
                    assert_eq!(sieve.is_prime(number), expected);
                }
            }
        }
    }
}

#[test]
fn after_the_pass_exactly_the_primes_are_flagged() {
    for algorithm in algorithms() {
        for (encoding, width) in storages() {
            for size in [0, 1, 2, 3, 4, 9, 10, 25, 100, 1000, 1023] {
                let mut sieve = Sieve::new(size, algorithm, encoding, width, 3).unwrap();
                sieve.sieve();
                for number in 0..size + 10 {
                    assert_eq!(
                        sieve.is_prime(number),
                        number <= size && slow_is_prime(number),
                        "number {} size {} {:?} {:?} {:?}",
                        number,
                        size,
                        algorithm,
                        encoding,
                        width
                    );
                }
                assert!(!sieve.is_prime(usize::MAX));
            }
        }
    }
}

#[test]
fn no_tile_takes_more_bytes_than_the_working_set() {
    for working_set in [4, 5, 64, 100, 1 << 14] {
        for (encoding, width) in storages() {
            let sieve = Sieve::new(200_000, Algorithm::Tile(working_set), encoding, width, 4).unwrap();
            let (fork, mut workers) = sieve.fork();
            let mut tiles = 0;
            let mut full = 0;
            for worker in workers.iter_mut() {
                worker.run();
                let segments = worker.release();
                for segment in segments.iter() {
                    assert!(segment.byte_len() <= working_set);
                    if segment.byte_len() + width.bytes() > working_set {
                        full += 1;
                    }
                    tiles += 1;
                }
                assert_eq!(worker.piece_count(), 0);
            }
            assert!(tiles >= 1);
            assert!(full + 1 >= tiles);
            assert_eq!(fork.size(), 200_000);
        }
    }
}

#[test]
fn workers_of_another_sieve_are_not_accepted() {
    let sieve = Sieve::new(10_000, Algorithm::Stream, Encoding::Bit, Width::U8, 4).unwrap();
    let (fork, mut workers) = sieve.fork();
    assert_eq!(workers.len(), 4);
    assert!(!fork.accepts(&workers));
    workers[0].run();
    workers[1].run();
    workers[2].run();
    assert!(!fork.accepts(&workers));
    workers[3].run();
    assert!(fork.accepts(&workers));

    let other = Sieve::new(10_000, Algorithm::Stream, Encoding::Bit, Width::U8, 3).unwrap();
    let (_, mut fewer) = other.fork();
    run_all(&mut fewer);
    assert!(!fork.accepts(&fewer));

    let other = Sieve::new(10_000, Algorithm::Stream, Encoding::Bit, Width::U32, 4).unwrap();
    let (_, mut wider) = other.fork();
    run_all(&mut wider);
    assert!(!fork.accepts(&wider));

    let other = Sieve::new(10_001, Algorithm::Stream, Encoding::Bit, Width::U8, 4).unwrap();
    let (_, mut longer) = other.fork();
    run_all(&mut longer);
    assert!(!fork.accepts(&longer));

    let other = Sieve::new(10_000, Algorithm::Tile(64), Encoding::Bit, Width::U8, 4).unwrap();
    let (_, mut tiled) = other.fork();
    run_all(&mut tiled);
    assert!(!fork.accepts(&tiled));

    workers.swap(0, 1);
    assert!(!fork.accepts(&workers));
    workers.swap(0, 1);
    assert!(fork.accepts(&workers));
    let mut emptied = workers.pop().unwrap();
    assert!(!fork.accepts(&workers));
    let held = emptied.release();
    assert_eq!(held.len(), 1);
    workers.push(emptied);
    assert!(!fork.accepts(&workers));
}
