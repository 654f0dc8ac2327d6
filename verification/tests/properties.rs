use range_regex::regex_for_range;
use regex::Regex;

fn anchored(min: i32, max: i32) -> Regex {
    let pattern = regex_for_range(min, max);
    Regex::new(&format!("^(?:{})$", pattern)).unwrap()
}

fn check_window(min: i32, max: i32, lo: i64, hi: i64) {
    let r = anchored(min, max);
    let mut n: i64 = lo;
    while n <= hi {
        let expected = min as i64 <= n && n <= max as i64;
        assert_eq!(
            r.is_match(&n.to_string()),
            expected,
            "range [{}, {}], value {}",
            min,
            max,
            n
        );
        n += 1;
    }
}

struct Lcg {
    state: u64,
}

impl Lcg {
    fn new(seed: u64) -> Self {
        Lcg { state: seed }
    }

    fn next_u64(&mut self) -> u64 {
        self.state = self
            .state
            .wrapping_mul(6364136223846793005)
            .wrapping_add(1442695040888963407);
        self.state
    }

    fn in_range(&mut self, lo: i64, hi: i64) -> i64 {
        let span = (hi - lo + 1) as u64;
        lo + (self.next_u64() % span) as i64
    }
}

#[test]
fn correctness_exhaustive_small_window() {
    // every sub-range of a small window, matched against every value around it
    let mut min: i32 = -60;
    while min <= 60 {
        let mut max: i32 = min;
        while max <= 60 {
            check_window(min, max, -75, 75);
            max += 1;
        }
        min += 1;
    }
}

#[test]
fn correctness_sampled_ranges() {
    // sampled sub-ranges of the [-10000, 10000] window
    let mut rng = Lcg::new(42);
    for _ in 0..150 {
        let a = rng.in_range(-10000, 10000) as i32;
        let b = rng.in_range(-10000, 10000) as i32;
        let (min, max) = if a <= b { (a, b) } else { (b, a) };
        let r = anchored(min, max);
        for _ in 0..40 {
            let n = rng.in_range(-11000, 11000);
            let expected = min as i64 <= n && n <= max as i64;
            assert_eq!(r.is_match(&n.to_string()), expected, "[{}, {}] vs {}", min, max, n);
        }
        for probe in [min as i64 - 1, min as i64, max as i64, max as i64 + 1] {
            let expected = min as i64 <= probe && probe <= max as i64;
            assert_eq!(r.is_match(&probe.to_string()), expected);
        }
    }
}

#[test]
fn correctness_boundary_extremes() {
    let cases = [
        (i32::MIN, i32::MAX),
        (i32::MIN, i32::MIN),
        (i32::MIN, i32::MIN + 7),
        (i32::MAX - 7, i32::MAX),
        (i32::MAX, i32::MAX),
        (i32::MIN, 0),
        (0, i32::MAX),
        (i32::MIN, -1),
        (1, i32::MAX),
    ];
    for (min, max) in cases {
        let r = anchored(min, max);
        let probes = [
            i32::MIN as i64 - 1,
            i32::MIN as i64,
            i32::MIN as i64 + 1,
            i32::MIN as i64 + 8,
            -2,
            -1,
            0,
            1,
            2,
            i32::MAX as i64 - 8,
            i32::MAX as i64 - 1,
            i32::MAX as i64,
            i32::MAX as i64 + 1,
        ];
        for n in probes {
            let expected = min as i64 <= n && n <= max as i64;
            assert_eq!(r.is_match(&n.to_string()), expected, "[{}, {}] vs {}", min, max, n);
        }
    }
}

#[test]
fn deterministic_output() {
    let cases = [(1, 1), (-1154, 456415), (i32::MIN, i32::MAX), (-45566453, 0), (12, 3456)];
    for (min, max) in cases {
        let first = regex_for_range(min, max);
        let second = regex_for_range(min, max);
        assert_eq!(first, second);
        assert_eq!(first.as_bytes(), second.as_bytes());
    }
}

#[test]
fn no_false_positives_outside_range() {
    let mut rng = Lcg::new(7);
    for _ in 0..200 {
        let a = rng.in_range(i32::MIN as i64, i32::MAX as i64) as i32;
        let b = rng.in_range(i32::MIN as i64, i32::MAX as i64) as i32;
        let (min, max) = if a <= b { (a, b) } else { (b, a) };
        let r = anchored(min, max);
        for _ in 0..10 {
            let n = rng.in_range(i64::MIN / 4, i64::MAX / 4);
            if n < min as i64 || n > max as i64 {
                assert!(!r.is_match(&n.to_string()), "[{}, {}] matched {}", min, max, n);
            }
        }
        if min as i64 - 1 >= i32::MIN as i64 - 1 {
            assert!(!r.is_match(&(min as i64 - 1).to_string()));
        }
        assert!(!r.is_match(&(max as i64 + 1).to_string()));
    }
}
