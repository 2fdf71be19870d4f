use mandelbrot::escape::escape_time;
use mandelbrot::render::{shade, ESCAPE_LIMIT};

fn doubling(limit: usize, start: u64) -> Option<usize> {
    escape_time(start, limit, |z: &u64| *z > 10, |z: u64| 2 * z + 1)
}

fn mandelbrot(re: f64, im: f64, limit: usize) -> Option<usize> {
    escape_time(
        (0.0f64, 0.0f64),
        limit,
        |z: &(f64, f64)| z.0 * z.0 + z.1 * z.1 > 4.0,
        |z: (f64, f64)| (z.0 * z.0 - z.1 * z.1 + re, 2.0 * z.0 * z.1 + im),
    )
}

#[test]
fn escape_time_counts_the_steps_until_the_orbit_is_outside() {
    // 0, 1, 3, 7, 15: the fifth point is the first above ten.
    assert_eq!(doubling(255, 0), Some(4));
    assert_eq!(doubling(255, 1), Some(3));
    assert_eq!(doubling(255, 5), Some(1));
}

#[test]
fn escape_time_gives_up_at_the_limit() {
    assert_eq!(doubling(4, 0), None);
    assert_eq!(doubling(5, 0), Some(4));
    assert_eq!(doubling(1, 0), None);
}

#[test]
fn escape_time_of_a_start_that_is_outside_is_zero() {
    assert_eq!(doubling(255, 11), Some(0));
    assert_eq!(doubling(1, 11), Some(0));
}

#[test]
fn escape_time_with_no_steps_allowed_is_none() {
    assert_eq!(doubling(0, 0), None);
    assert_eq!(doubling(0, 11), None);
}

#[test]
fn escape_time_of_a_fixed_point_is_none() {
    assert_eq!(escape_time(3u64, 1000, |z: &u64| *z > 10, |z: u64| z), None);
    assert_eq!(mandelbrot(0.0, 0.0, 1), None);
    assert_eq!(mandelbrot(0.0, 0.0, ESCAPE_LIMIT), None);
    assert_eq!(shade(mandelbrot(0.0, 0.0, ESCAPE_LIMIT)), 0);
}

#[test]
fn escape_time_of_points_of_the_plane() {
    // 2+2i is outside the circle of radius two after its first step.
    assert_eq!(mandelbrot(2.0, 2.0, ESCAPE_LIMIT), Some(1));
    assert_eq!(shade(mandelbrot(2.0, 2.0, ESCAPE_LIMIT)), 254);
    // 0, 1, 2, 5: the fourth point is the first outside.
    assert_eq!(mandelbrot(1.0, 0.0, ESCAPE_LIMIT), Some(3));
    // 0, -1, 0, -1, ... never leaves.
    assert_eq!(mandelbrot(-1.0, 0.0, ESCAPE_LIMIT), None);
}

#[test]
fn escape_time_stays_below_the_limit() {
    for limit in 0..20usize {
        for start in 0..15u64 {
            match doubling(limit, start) {
                Some(count) => assert!(count < limit),
                None => {}
            }
        }
    }
}
