//! The fixed symbol tables: digits, positional units and scale units.
use vstd::prelude::*;

verus! {

/// The placeholder written for skipped zero digits or zero groups; it is also the digit zero.
pub const ZERO_MARK: char = '零';

/// Symbol of a decimal digit.
pub open spec fn digit_symbol(d: int) -> char {
    if d == 0 {
        '零'
    } else if d == 1 {
        '壹'
    } else if d == 2 {
        '贰'
    } else if d == 3 {
        '叁'
    } else if d == 4 {
        '肆'
    } else if d == 5 {
        '伍'
    } else if d == 6 {
        '陆'
    } else if d == 7 {
        '柒'
    } else if d == 8 {
        '捌'
    } else {
        '玖'
    }
}

/// Unit of a position inside a four-digit group (1 = tens, 2 = hundreds, 3 = thousands).
pub open spec fn position_unit(i: int) -> char {
    if i == 1 {
        '拾'
    } else if i == 2 {
        '佰'
    } else if i == 3 {
        '仟'
    } else {
        '\0'
    }
}

/// Unit of a four-digit group by its index above the ones group (1 = 10^4 ... 4 = 10^16).
pub open spec fn scale_unit(k: int) -> char {
    if k == 1 {
        '万'
    } else if k == 2 {
        '亿'
    } else if k == 3 {
        '兆'
    } else if k == 4 {
        '京'
    } else {
        '\0'
    }
}

/// The characters a numeral is written with.
pub open spec fn is_numeral_char(c: char) -> bool {
    (exists|d: int| 0 <= d <= 9 && c == digit_symbol(d))
        || (exists|i: int| 1 <= i <= 3 && c == position_unit(i))
        || (exists|k: int| 1 <= k <= 4 && c == scale_unit(k))
}

/// Symbol of the digit `d`.
pub fn digit_symbol_of(d: u32) -> (c: char)
    requires
        d <= 9,
    ensures
        c == digit_symbol(d as int),
{
    match d {
        0 => '零',
        1 => '壹',
        2 => '贰',
        3 => '叁',
        4 => '肆',
        5 => '伍',
        6 => '陆',
        7 => '柒',
        8 => '捌',
        _ => '玖',
    }
}

/// Unit of position `i` inside a group.
pub fn position_unit_of(i: usize) -> (c: char)
    requires
        1 <= i <= 3,
    ensures
        c == position_unit(i as int),
{
    match i {
        1 => '拾',
        2 => '佰',
        _ => '仟',
    }
}

/// Scale unit of the group with index `k`.
pub fn scale_unit_of(k: usize) -> (c: char)
    requires
        1 <= k <= 4,
    ensures
        c == scale_unit(k as int),
{
    match k {
        1 => '万',
        2 => '亿',
        3 => '兆',
        _ => '京',
    }
}

/// The one-character string holding `c`.
pub fn char_text(c: char) -> (s: &'static str)
    requires
        is_numeral_char(c),
    ensures
        s@ == seq![c],
{
    proof {
        reveal_strlit("零");
        reveal_strlit("壹");
        reveal_strlit("贰");
        reveal_strlit("叁");
        reveal_strlit("肆");
        reveal_strlit("伍");
        reveal_strlit("陆");
        reveal_strlit("柒");
        reveal_strlit("捌");
        reveal_strlit("玖");
        reveal_strlit("拾");
        reveal_strlit("佰");
        reveal_strlit("仟");
        reveal_strlit("万");
        reveal_strlit("亿");
        reveal_strlit("兆");
        reveal_strlit("京");
    }
    match c {
        '零' => "零",
        '壹' => "壹",
        '贰' => "贰",
        '叁' => "叁",
        '肆' => "肆",
        '伍' => "伍",
        '陆' => "陆",
        '柒' => "柒",
        '捌' => "捌",
        '玖' => "玖",
        '拾' => "拾",
        '佰' => "佰",
        '仟' => "仟",
        '万' => "万",
        '亿' => "亿",
        '兆' => "兆",
        _ => "京",
    }
}

} // verus!
