use chinese_uppercase::{number_slice_to_uppercase, to_uppercase};

const SYMBOLS: [&str; 10] = ["零", "壹", "贰", "叁", "肆", "伍", "陆", "柒", "捌", "玖"];

const SAMPLES: [u64; 24] = [
    0,
    5,
    10,
    11,
    19,
    100,
    101,
    110,
    1001,
    1010,
    9999,
    10000,
    10001,
    100010,
    100000000,
    100000001,
    100010000,
    1000000000000,
    1000000010000,
    10000000000000000,
    10000000000000001,
    12345678901234567,
    9000000000000000009,
    18446744073709551615,
];

#[test]
fn single_digits_are_bare_symbols() {
    for n in 0..10u64 {
        assert_eq!(to_uppercase(n), SYMBOLS[n as usize]);
    }
}

#[test]
fn no_placeholder_at_either_end() {
    for &n in SAMPLES.iter().filter(|&&n| n != 0) {
        let s = to_uppercase(n);
        assert!(!s.starts_with('零'), "{} -> {}", n, s);
        assert!(!s.ends_with('零'), "{} -> {}", n, s);
    }
}

#[test]
fn no_doubled_placeholder() {
    for &n in SAMPLES.iter() {
        let s = to_uppercase(n);
        assert!(!s.contains("零零"), "{} -> {}", n, s);
    }
}

#[test]
fn same_input_same_output() {
    for &n in SAMPLES.iter() {
        assert_eq!(to_uppercase(n), to_uppercase(n));
    }
}

#[test]
fn scale_boundaries() {
    assert_eq!(to_uppercase(10000), "壹万");
    assert_eq!(to_uppercase(100000000), "壹亿");
    assert_eq!(to_uppercase(1000000000000), "壹兆");
    assert_eq!(to_uppercase(10000000000000000), "壹京");
}

#[test]
fn internal_zeros_collapse() {
    assert_eq!(to_uppercase(101), "壹佰零壹");
    assert_eq!(to_uppercase(10000100), "壹仟万零壹佰");
    assert_eq!(to_uppercase(1001), "壹仟零壹");
    assert_eq!(to_uppercase(100010), "壹拾万零壹拾");
}

#[test]
fn zero_groups_write_one_placeholder() {
    assert_eq!(to_uppercase(100000001), "壹亿零壹");
    assert_eq!(to_uppercase(1000000010000), "壹兆零壹万");
    assert_eq!(to_uppercase(10000000000000001), "壹京零壹");
    assert_eq!(to_uppercase(9000000000000000009), "玖佰京零玖");
}

#[test]
fn maximum_value() {
    assert_eq!(
        to_uppercase(u64::MAX),
        "壹仟捌佰肆拾肆京陆仟柒佰肆拾肆兆零柒佰叁拾柒亿零玖佰伍拾伍万壹仟陆佰壹拾伍"
    );
}

#[test]
fn tens_place_ends_group() {
    assert_eq!(to_uppercase(1010), "壹仟零壹拾");
    assert_eq!(to_uppercase(110), "壹佰壹拾");
}

#[test]
fn full_group_and_mixed_digits() {
    assert_eq!(to_uppercase(9999), "玖仟玖佰玖拾玖");
    assert_eq!(
        to_uppercase(12345678901234567),
        "壹京贰仟叁佰肆拾伍兆陆仟柒佰捌拾玖亿零壹佰贰拾叁万肆仟伍佰陆拾柒"
    );
}

#[test]
fn group_text_edges() {
    assert_eq!(number_slice_to_uppercase("0000"), Vec::<char>::new());
    assert_eq!(number_slice_to_uppercase("9999"), vec!['玖', '拾', '玖', '佰', '玖', '仟', '玖']);
    assert_eq!(number_slice_to_uppercase("1001"), vec!['壹', '零', '仟', '壹']);
    assert_eq!(number_slice_to_uppercase(""), Vec::<char>::new());
    assert_eq!(number_slice_to_uppercase("5"), vec!['伍']);
}
