use in512_labs::sieve::sieve;

#[test]
fn n_zero() {
    let m = sieve(0);
    assert_eq!(m.len(), 0);
}

#[test]
fn n_thirty() {
    let m = sieve(30);
    assert_eq!(m, vec![1, 2, 3, 5, 7, 11, 13, 17, 19, 23, 29]);
}

// Another test to show that everything works fine
#[test]
fn n_one_hundred_twenty() {
    let m = sieve(120);
    assert_eq!(
        m,
        vec![
            1, 2, 3, 5, 7, 11, 13, 17, 19, 23, 29, 31, 37, 41, 43, 47, 53, 59, 61, 67, 71, 73,
            79, 83, 89, 97, 101, 103, 107, 109, 113
        ]
    );
}

// Test to "measure" the performance of the algorithm
// Should compute every prime numbers up to 100_000_000
#[test]
fn n_one_hundred_million() {
    let m = sieve(100_000_000);
    // There are 5_761_455 prime numbers from 2 to 100_000_000
    // But here we count 1 as prime so we add one to the result
    assert_eq!(m.len(), 5_761_456);
}

#[test]
fn the_bound_itself_is_left_out() {
    assert_eq!(sieve(7), vec![1, 2, 3, 5]);
    assert_eq!(sieve(8), vec![1, 2, 3, 5, 7]);
}

#[test]
fn small_bounds() {
    assert_eq!(sieve(1), Vec::<u32>::new());
    assert_eq!(sieve(2), vec![1]);
    assert_eq!(sieve(3), vec![1, 2]);
    assert_eq!(sieve(4), vec![1, 2, 3]);
    assert_eq!(sieve(5), vec![1, 2, 3]);
}

#[test]
fn squares_of_primes_are_crossed_out() {
    let m = sieve(170);
    for square in [4, 9, 25, 49, 121, 169] {
        assert!(!m.contains(&square));
    }
    assert!(m.contains(&167));
}
