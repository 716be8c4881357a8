use chinese_uppercase::{number_slice_to_uppercase, to_uppercase};

#[test]
fn test_to_uppercase() {
    assert_eq!(to_uppercase(0), "零");
    assert_eq!(to_uppercase(1), "壹");
    assert_eq!(to_uppercase(9), "玖");
    assert_eq!(to_uppercase(10), "壹拾");
    assert_eq!(to_uppercase(20), "贰拾");
    assert_eq!(to_uppercase(100), "壹佰");
    assert_eq!(to_uppercase(101), "壹佰零壹");
    assert_eq!(to_uppercase(1010), "壹仟零壹拾");
    assert_eq!(to_uppercase(10000), "壹万");
    assert_eq!(to_uppercase(10101), "壹万零壹佰零壹");
    assert_eq!(to_uppercase(1000000), "壹佰万");
    assert_eq!(to_uppercase(1000100), "壹佰万零壹佰");
    assert_eq!(to_uppercase(10000100), "壹仟万零壹佰");
    assert_eq!(to_uppercase(100001000), "壹亿零壹仟");
    assert_eq!(to_uppercase(1010001001), "壹拾亿壹仟万壹仟零壹");
    assert_eq!(to_uppercase(1011000101), "壹拾亿壹仟壹佰万零壹佰零壹");
    assert_eq!(
        to_uppercase(999999999999),
        "玖仟玖佰玖拾玖亿玖仟玖佰玖拾玖万玖仟玖佰玖拾玖"
    );
    assert_eq!(to_uppercase(1000000000000), "壹兆");
    assert_eq!(to_uppercase(1000000000001), "壹兆零壹");
    assert_eq!(
        to_uppercase(18446744073709551615),
        "壹仟捌佰肆拾肆京陆仟柒佰肆拾肆兆零柒佰叁拾柒亿零玖佰伍拾伍万壹仟陆佰壹拾伍"
    );
}

#[test]
fn test_number_slice_to_uppercase() {
    assert_eq!(
        number_slice_to_uppercase("0001").iter().collect::<String>(),
        "壹零"
    );
    assert_eq!(
        number_slice_to_uppercase("0123").iter().collect::<String>(),
        "叁拾贰佰壹零"
    );
    assert_eq!(
        number_slice_to_uppercase("0120").iter().collect::<String>(),
        "拾贰佰壹零"
    );
    assert_eq!(
        number_slice_to_uppercase("1230").iter().collect::<String>(),
        "拾叁佰贰仟壹"
    );
    assert_eq!(
        number_slice_to_uppercase("1000").iter().collect::<String>(),
        "仟壹"
    );
}
