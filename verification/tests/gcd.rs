use mandelbrot::gcd::gcd;

#[test]
fn test_gld() {
    assert_eq!(gcd(14, 15), 1);
    assert_eq!(gcd(2 * 3 * 5 * 11 * 17, 3 * 7 * 11 * 13 * 19), 3 * 11);
}

#[test]
fn gcd_of_a_number_and_its_multiple() {
    assert_eq!(gcd(14, 49), 7);
    assert_eq!(gcd(7, 7), 7);
    assert_eq!(gcd(12, 18), 6);
    assert_eq!(gcd(18, 12), 6);
    assert_eq!(gcd(1, 1), 1);
}

#[test]
fn gcd_at_the_edge_of_the_range() {
    assert_eq!(gcd(u64::MAX, 1), 1);
    assert_eq!(gcd(u64::MAX, u64::MAX), u64::MAX);
    assert_eq!(gcd(u64::MAX, 5), 5);
}

#[test]
fn gcd_divides_both_and_nothing_larger_does() {
    for n in 1..40u64 {
        for m in 1..40u64 {
            let g = gcd(n, m);
            assert!(g >= 1 && n % g == 0 && m % g == 0);
            for d in (g + 1)..=n.min(m) {
                assert!(n % d != 0 || m % d != 0);
            }
        }
    }
}
