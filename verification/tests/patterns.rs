use range_regex::regex_for_range;
use range_regex::{merge_desc_to_asc, range_to_pattern, split_to_patterns, split_to_ranges};
use range_regex::fill_by_nines::{fill_by_nines, FillByNinesIterator};
use range_regex::fill_by_zeros::{fill_by_zeros, FillByZerosIterator};

#[test]
fn test_range_to_pattern() {
    assert_eq!(regex_for_range(1, 1), "1");
    assert_eq!(regex_for_range(0, 1), "[0-1]");
    assert_eq!(regex_for_range(-1, -1), "-1");
    assert_eq!(regex_for_range(-1, 0), "-1|0");
    assert_eq!(regex_for_range(-1, 1), "-1|[0-1]");
    assert_eq!(regex_for_range(-4, -2), "-[2-4]");
    assert_eq!(regex_for_range(-3, 1), "-[1-3]|[0-1]");
    assert_eq!(regex_for_range(-2, 0), "-[1-2]|0");
    assert_eq!(regex_for_range(0, 2), "[0-2]");
    assert_eq!(regex_for_range(-1, 3), "-1|[0-3]");
    assert_eq!(regex_for_range(65666, 65667), "6566[6-7]");
    assert_eq!(
        regex_for_range(12, 3456),
        r"1[2-9]|[2-9]\d|[1-9]\d{2}|[1-2]\d{3}|3[0-3]\d{2}|34[0-4]\d|345[0-6]"
    );
    assert_eq!(regex_for_range(1, 19), r"[1-9]|1\d");
    assert_eq!(regex_for_range(1, 99), r"[1-9]|[1-9]\d");
}

#[test]
fn test_merge_desc_to_asc() {
    let mut a = vec![3, 2, 1];
    let b = vec![4, 3, 2, 1];
    merge_desc_to_asc(&mut a, &b);
    assert_eq!(a, vec![1, 2, 3, 4]);
}

#[test]
fn test_merge_desc_to_asc_with_repeats() {
    let mut a = vec![5000];
    let b = vec![4999, 4999, 4999];
    merge_desc_to_asc(&mut a, &b);
    assert_eq!(a, vec![4999, 5000]);

    let mut a = vec![9, 5, 1];
    let b: Vec<i64> = vec![];
    merge_desc_to_asc(&mut a, &b);
    assert_eq!(a, vec![1, 5, 9]);
}

#[test]
fn test_fill_by_nines_values() {
    assert_eq!(fill_by_nines(12, 1), 19);
    assert_eq!(fill_by_nines(12, 2), 99);
    assert_eq!(fill_by_nines(65666, 1), 65669);
    assert_eq!(fill_by_nines(0, 3), 999);
    assert_eq!(fill_by_nines(100, 1), 109);
    assert_eq!(fill_by_nines(100, 2), 199);
    assert_eq!(fill_by_nines(100, 3), 999);
}

#[test]
fn test_fill_by_zeros_values() {
    assert_eq!(fill_by_zeros(3457, 1), 3450);
    assert_eq!(fill_by_zeros(3457, 2), 3400);
    assert_eq!(fill_by_zeros(3457, 3), 3000);
    assert_eq!(fill_by_zeros(3457, 4), 0);
    assert_eq!(fill_by_zeros(5000, 2), 5000);
}

#[test]
fn test_nines_iterator_sequence() {
    let mut it = FillByNinesIterator::new(12, 3456);
    assert_eq!(it.next(), Some(19));
    assert_eq!(it.next(), Some(99));
    assert_eq!(it.next(), Some(999));
    assert_eq!(it.next(), None);
    assert_eq!(it.next(), None);
}

#[test]
fn test_zeros_iterator_sequence() {
    let mut it = FillByZerosIterator::new(12, 3456);
    assert_eq!(it.next(), Some(3449));
    assert_eq!(it.next(), Some(3399));
    assert_eq!(it.next(), Some(2999));
    assert_eq!(it.next(), None);
}

#[test]
fn test_split_to_ranges_values() {
    assert_eq!(split_to_ranges(12, 3456), vec![19, 99, 999, 2999, 3399, 3449, 3456]);
    assert_eq!(split_to_ranges(0, 0), vec![0]);
    assert_eq!(split_to_ranges(0, 1), vec![1]);
    assert_eq!(split_to_ranges(1, 19), vec![9, 19]);
    assert_eq!(split_to_ranges(100, 5000), vec![109, 199, 999, 4999, 5000]);
}

#[test]
fn test_range_to_pattern_buffer() {
    let mut buffer = String::new();
    range_to_pattern(345, 346, &mut buffer);
    assert_eq!(buffer, "34[5-6]");
    range_to_pattern(3450, 3456, &mut buffer);
    assert_eq!(buffer, "345[0-6]");
    range_to_pattern(1000, 2999, &mut buffer);
    assert_eq!(buffer, r"[1-2]\d{3}");
    range_to_pattern(100, 999, &mut buffer);
    assert_eq!(buffer, r"[1-9]\d{2}");
    range_to_pattern(10, 99, &mut buffer);
    assert_eq!(buffer, r"[1-9]\d");
    range_to_pattern(0, 9, &mut buffer);
    assert_eq!(buffer, r"\d");
    range_to_pattern(7, 7, &mut buffer);
    assert_eq!(buffer, "7");
}

#[test]
fn test_split_to_patterns_values() {
    let pats = split_to_patterns(12, 3456);
    let expected = vec![
        "1[2-9]",
        r"[2-9]\d",
        r"[1-9]\d{2}",
        r"[1-2]\d{3}",
        r"3[0-3]\d{2}",
        r"34[0-4]\d",
        "345[0-6]",
    ];
    assert_eq!(pats.len(), expected.len());
    for (got, want) in pats.iter().zip(expected.iter()) {
        assert_eq!(got, want);
    }
}
