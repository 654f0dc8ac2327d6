use range_regex::digits::Base10DigitIterator;

fn test_base10_digit_iterator(integer: i64) {
    let s = integer.to_string();
    let mut siterator = s.chars();
    let mut diterator = Base10DigitIterator::new(integer);
    loop {
        let s = siterator.next();
        let d = diterator.next();
        assert_eq!(s, d);
        if s.is_none() {
            break;
        }
    }
}

#[test]
fn test_digit_iterator() {
    test_base10_digit_iterator(0);
    test_base10_digit_iterator(1);
    test_base10_digit_iterator(9);
    test_base10_digit_iterator(10);
    test_base10_digit_iterator(11);
    test_base10_digit_iterator(19);
    test_base10_digit_iterator(20);
    test_base10_digit_iterator(21);
    test_base10_digit_iterator(99);
    test_base10_digit_iterator(100);
    test_base10_digit_iterator(101);
    test_base10_digit_iterator(109);
    test_base10_digit_iterator(110);
    test_base10_digit_iterator(111);
    test_base10_digit_iterator(119);
    test_base10_digit_iterator(120);
    test_base10_digit_iterator(121);
    test_base10_digit_iterator(999);
    test_base10_digit_iterator(1000);
    test_base10_digit_iterator(1001);
    test_base10_digit_iterator(1009);
    test_base10_digit_iterator(1010);
    test_base10_digit_iterator(1011);
    test_base10_digit_iterator(1019);
    test_base10_digit_iterator(1020);
    test_base10_digit_iterator(1021);
    test_base10_digit_iterator(1099);
    test_base10_digit_iterator(1100);
    test_base10_digit_iterator(1101);
    test_base10_digit_iterator(1109);
    test_base10_digit_iterator(1110);
    test_base10_digit_iterator(1111);
    test_base10_digit_iterator(1119);
    test_base10_digit_iterator(1120);
    test_base10_digit_iterator(1121);
    test_base10_digit_iterator(9999);
    test_base10_digit_iterator(10000);
    test_base10_digit_iterator(10001);
    test_base10_digit_iterator(10009);
    test_base10_digit_iterator(10010);
    test_base10_digit_iterator(10011);
    test_base10_digit_iterator(10019);
    test_base10_digit_iterator(10020);
    test_base10_digit_iterator(10021);
    test_base10_digit_iterator(10099);
    test_base10_digit_iterator(10100);
    test_base10_digit_iterator(10101);
    test_base10_digit_iterator(10109);
    test_base10_digit_iterator(10110);
    test_base10_digit_iterator(10111);
    test_base10_digit_iterator(10119);
    test_base10_digit_iterator(10120);
}

#[test]
fn test_digit_iterator_signed() {
    test_base10_digit_iterator(-1);
    test_base10_digit_iterator(-9);
    test_base10_digit_iterator(-10);
    test_base10_digit_iterator(-109);
    test_base10_digit_iterator(-1000);
    test_base10_digit_iterator(-99999);
    test_base10_digit_iterator(-2147483648);
    test_base10_digit_iterator(2147483647);
    test_base10_digit_iterator(i64::MAX);
    test_base10_digit_iterator(i64::MIN + 1);
}
