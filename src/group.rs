//! Text of one four-digit group, written least significant character first.
use vstd::prelude::*;
use crate::tables::{
    digit_symbol, digit_symbol_of, is_numeral_char, position_unit, position_unit_of, ZERO_MARK,
};

verus! {

/// Value of a decimal digit character.
pub open spec fn digit_value(c: char) -> int {
    c as int - '0' as int
}

/// `c` is one of the ASCII digits.
pub open spec fn is_digit_char(c: char) -> bool {
    '0' <= c && c <= '9'
}

/// Character of a decimal digit.
pub open spec fn digit_char(d: int) -> char {
    (d + '0' as int) as char
}

/// The digits of a decimal string, least significant first.
pub open spec fn lsf_digits(s: Seq<char>) -> Seq<int> {
    Seq::new(s.len(), |i: int| digit_value(s[s.len() - 1 - i]))
}

/// `s` without a leading placeholder.
pub open spec fn drop_leading_mark(s: Seq<char>) -> Seq<char> {
    if s.len() > 0 && s[0] == ZERO_MARK {
        s.drop_first()
    } else {
        s
    }
}

/// `s` without a trailing placeholder.
pub open spec fn drop_trailing_mark(s: Seq<char>) -> Seq<char> {
    if s.len() > 0 && s.last() == ZERO_MARK {
        s.drop_last()
    } else {
        s
    }
}

/// Characters written for the lowest `i` digits of `ds` (least significant first):
/// a zero digit right after a placeholder is skipped, any other zero digit writes
/// the placeholder, a nonzero digit above the ones writes its unit then its symbol.
pub open spec fn group_prefix(ds: Seq<int>, i: nat) -> Seq<char>
    decreases i,
{
    if i == 0 {
        seq![]
    } else {
        let prev = group_prefix(ds, (i - 1) as nat);
        let d = ds[i - 1];
        if d == 0 && prev.len() > 0 && prev.last() == ZERO_MARK {
            prev
        } else if d != 0 && i - 1 > 0 {
            prev.push(position_unit(i - 1)).push(digit_symbol(d))
        } else {
            prev.push(digit_symbol(d))
        }
    }
}

/// Text of a group of digits (least significant first), least significant character
/// first, with no placeholder at its low end.
pub open spec fn group_text(ds: Seq<int>) -> Seq<char> {
    drop_leading_mark(group_prefix(ds, ds.len()))
}

/// No two placeholders stand side by side.
pub open spec fn no_double_mark(s: Seq<char>) -> bool {
    forall|j: int| 0 <= j < s.len() - 1 ==> !(#[trigger] s[j] == ZERO_MARK && s[j + 1] == ZERO_MARK)
}

/// Every character of `s` is a numeral character.
pub open spec fn all_numeral_chars(s: Seq<char>) -> bool {
    forall|j: int| 0 <= j < s.len() ==> is_numeral_char(#[trigger] s[j])
}

/// Writing a group's digits never doubles a placeholder and uses numeral characters only.
pub proof fn lemma_group_prefix_shape(ds: Seq<int>, i: nat)
    requires
        i <= ds.len(),
        ds.len() <= 4,
        forall|j: int| 0 <= j < ds.len() ==> 0 <= #[trigger] ds[j] <= 9,
    ensures
        no_double_mark(group_prefix(ds, i)),
        all_numeral_chars(group_prefix(ds, i)),
    decreases i,
{
    if i > 0 {
        lemma_group_prefix_shape(ds, (i - 1) as nat);
        let prev = group_prefix(ds, (i - 1) as nat);
        let d = ds[i - 1];
        assert(is_numeral_char(digit_symbol(d)));
        if d != 0 && i - 1 > 0 {
            assert(is_numeral_char(position_unit(i - 1)));
        }
        let cur = group_prefix(ds, i);
        assert forall|j: int| 0 <= j < cur.len() - 1 implies !(#[trigger] cur[j] == ZERO_MARK
            && cur[j + 1] == ZERO_MARK) by {
            if j + 1 < prev.len() {
                assert(cur[j] == prev[j] && cur[j + 1] == prev[j + 1]);
            }
        }
        assert forall|j: int| 0 <= j < cur.len() implies is_numeral_char(#[trigger] cur[j]) by {
            if j < prev.len() {
                assert(cur[j] == prev[j]);
            }
        }
    }
}

/// Shape of a group's text: no doubled placeholder, no placeholder at its low end,
/// numeral characters only.
pub proof fn lemma_group_text_shape(ds: Seq<int>)
    requires
        ds.len() <= 4,
        forall|j: int| 0 <= j < ds.len() ==> 0 <= #[trigger] ds[j] <= 9,
    ensures
        no_double_mark(group_text(ds)),
        all_numeral_chars(group_text(ds)),
        group_text(ds).len() > 0 ==> group_text(ds)[0] != ZERO_MARK,
{
    lemma_group_prefix_shape(ds, ds.len());
    let p = group_prefix(ds, ds.len());
    let t = group_text(ds);
    if p.len() > 0 && p[0] == ZERO_MARK {
        assert forall|j: int| 0 <= j < t.len() - 1 implies !(#[trigger] t[j] == ZERO_MARK && t[j
            + 1] == ZERO_MARK) by {
            assert(t[j] == p[j + 1] && t[j + 1] == p[j + 2]);
        }
        assert forall|j: int| 0 <= j < t.len() implies is_numeral_char(#[trigger] t[j]) by {
            assert(t[j] == p[j + 1]);
        }
        if t.len() > 0 {
            assert(t[0] == p[1]);
        }
    }
}

/// Converts a string of at most four decimal digits (a group, most significant digit
/// first) into its numeral text, least significant character first.
pub fn number_slice_to_uppercase(number: &str) -> (chars: Vec<char>)
    requires
        number@.len() <= 4,
        forall|j: int| 0 <= j < number@.len() ==> is_digit_char(#[trigger] number@[j]),
    ensures
        chars@ == group_text(lsf_digits(number@)),
{
    let n = number.unicode_len();
    let ghost ds = lsf_digits(number@);
    let mut chars: Vec<char> = Vec::new();
    let mut i: usize = 0;
    while i < n
        invariant
            n == number@.len(),
            n <= 4,
            i <= n,
            ds == lsf_digits(number@),
            forall|j: int| 0 <= j < number@.len() ==> is_digit_char(#[trigger] number@[j]),
            chars@ == group_prefix(ds, i as nat),
        decreases n - i,
    {
        let ch = number.get_char(n - 1 - i);
        let c: u32 = (ch as u32) - ('0' as u32);
        assert(c as int == ds[i as int]);
        let len = chars.len();
        if c == 0 && len > 0 && chars[len - 1] == ZERO_MARK {
            i = i + 1;
            continue;
        }
        if c != 0 && i > 0 {
            chars.push(position_unit_of(i));
        }
        chars.push(digit_symbol_of(c));
        i = i + 1;
    }
    if chars.len() > 0 && chars[0] == ZERO_MARK {
        chars.remove(0);
    }
    assert(chars@ == group_text(ds));
    chars
}

/// The four decimal digits of `d`, with leading zeros, most significant first.
pub open spec fn padded_digits(d: int) -> Seq<char> {
    seq![digit_char(d / 1000), digit_char(d / 100 % 10), digit_char(d / 10 % 10), digit_char(d % 10)]
}

/// The one-character string holding the decimal digit `d`.
fn digit_text(d: u64) -> (s: &'static str)
    requires
        d <= 9,
    ensures
        s@ == seq![digit_char(d as int)],
{
    proof {
        reveal_strlit("0");
        reveal_strlit("1");
        reveal_strlit("2");
        reveal_strlit("3");
        reveal_strlit("4");
        reveal_strlit("5");
        reveal_strlit("6");
        reveal_strlit("7");
        reveal_strlit("8");
        reveal_strlit("9");
    }
    match d {
        0 => "0",
        1 => "1",
        2 => "2",
        3 => "3",
        4 => "4",
        5 => "5",
        6 => "6",
        7 => "7",
        8 => "8",
        _ => "9",
    }
}

/// Writes a group value as exactly four decimal digits, with leading zeros.
pub(crate) fn pad_number(number: u64) -> (s: String)
    requires
        number < 10000,
    ensures
        s@ == padded_digits(number as int),
{
    let mut s = String::new();
    s.append(digit_text(number / 1000));
    s.append(digit_text(number / 100 % 10));
    s.append(digit_text(number / 10 % 10));
    s.append(digit_text(number % 10));
    assert(s@ =~= padded_digits(number as int));
    s
}

/// The digits of a group value, least significant first.
pub open spec fn group_digits(r: int) -> Seq<int> {
    seq![r % 10, r / 10 % 10, r / 100 % 10, r / 1000]
}

/// Read back least significant first, the padded digits are the group's digits.
pub proof fn lemma_padded_digits(r: int)
    requires
        0 <= r < 10000,
    ensures
        lsf_digits(padded_digits(r)) == group_digits(r),
        forall|j: int| 0 <= j < 4 ==> is_digit_char(#[trigger] padded_digits(r)[j]),
{
    assert(lsf_digits(padded_digits(r)) =~= group_digits(r));
}

/// Some character of `s` is not the placeholder.
pub open spec fn has_non_mark(s: Seq<char>) -> bool {
    exists|j: int| 0 <= j < s.len() && #[trigger] s[j] != ZERO_MARK
}

proof fn lemma_group_prefix_keeps(ds: Seq<int>, i: nat, k: int)
    requires
        i <= ds.len(),
        0 <= k < i,
        ds[k] != 0,
        forall|j: int| 0 <= j < ds.len() ==> 0 <= #[trigger] ds[j] <= 9,
    ensures
        has_non_mark(group_prefix(ds, i)),
    decreases i,
{
    let prev = group_prefix(ds, (i - 1) as nat);
    let cur = group_prefix(ds, i);
    if k == i - 1 {
        assert(cur.last() == digit_symbol(ds[k]));
        assert(cur[cur.len() - 1] != ZERO_MARK);
    } else {
        lemma_group_prefix_keeps(ds, (i - 1) as nat, k);
        let j = choose|j: int| 0 <= j < prev.len() && #[trigger] prev[j] != ZERO_MARK;
        assert(cur[j] == prev[j]);
    }
}

/// The text of a nonzero group holds a character other than the placeholder.
pub proof fn lemma_group_text_nonzero(r: int)
    requires
        0 < r < 10000,
    ensures
        has_non_mark(group_text(group_digits(r))),
{
    let ds = group_digits(r);
    let k: int = if r % 10 != 0 {
        0
    } else if r / 10 % 10 != 0 {
        1
    } else if r / 100 % 10 != 0 {
        2
    } else {
        3
    };
    assert(ds[k] != 0);
    lemma_group_prefix_keeps(ds, 4, k);
    let p = group_prefix(ds, 4);
    let j = choose|j: int| 0 <= j < p.len() && #[trigger] p[j] != ZERO_MARK;
    let t = group_text(ds);
    if p[0] == ZERO_MARK {
        assert(t[j - 1] == p[j]);
    } else {
        assert(t[j] == p[j]);
    }
}

} // verus!
