//! The whole numeral: groups of four digits joined by their scale units.
use vstd::prelude::*;
use crate::group::{
    all_numeral_chars, drop_leading_mark, drop_trailing_mark, group_digits, group_text,
    has_non_mark, lemma_group_text_nonzero, lemma_group_text_shape, lemma_padded_digits, no_double_mark, number_slice_to_uppercase,
    pad_number,
};
use crate::tables::{
    char_text, digit_symbol, digit_symbol_of, is_numeral_char, scale_unit, scale_unit_of,
    ZERO_MARK,
};

verus! {

/// The largest value left to write once `step` groups have been written from a `u64`.
pub open spec fn remaining_bound(step: nat) -> nat {
    if step == 0 {
        18446744073709551615
    } else if step == 1 {
        1844674407370955
    } else if step == 2 {
        184467440737
    } else if step == 3 {
        18446744
    } else if step == 4 {
        1844
    } else {
        0
    }
}

/// The text buffer (least significant character first) after writing the groups of
/// `m`, whose lowest group has index `step`, onto `buf`. A nonzero group above the
/// ones group writes its scale unit, then its digits. A zero group above the ones
/// group writes a single placeholder in place of any placeholder just written.
pub open spec fn assemble(m: nat, step: nat, buf: Seq<char>) -> Seq<char>
    decreases m,
{
    if m == 0 {
        buf
    } else {
        let r = m % 10000;
        let marked = if step > 0 {
            if r > 0 {
                buf.push(scale_unit(step as int))
            } else {
                drop_trailing_mark(buf).push(ZERO_MARK)
            }
        } else {
            buf
        };
        let written = if r > 0 {
            marked + group_text(group_digits(r as int))
        } else {
            marked
        };
        assemble(m / 10000, step + 1, written)
    }
}

/// The uppercase numeral of `n`, read most significant character first: a single
/// digit is its symbol; otherwise the assembled buffer without a placeholder at
/// either end, reversed.
pub open spec fn uppercase_text(n: nat) -> Seq<char> {
    if n < 10 {
        seq![digit_symbol(n as int)]
    } else {
        drop_trailing_mark(drop_leading_mark(assemble(n, 0, seq![]))).reverse()
    }
}

/// No doubled placeholder, and numeral characters only.
pub open spec fn well_shaped(s: Seq<char>) -> bool {
    no_double_mark(s) && all_numeral_chars(s)
}

proof fn lemma_group_digits_range(r: int)
    requires
        0 <= r < 10000,
    ensures
        group_digits(r).len() == 4,
        forall|j: int| 0 <= j < 4 ==> 0 <= #[trigger] group_digits(r)[j] <= 9,
{
}

proof fn lemma_assemble_shape(m: nat, step: nat, buf: Seq<char>)
    requires
        well_shaped(buf),
        m <= remaining_bound(step),
    ensures
        well_shaped(assemble(m, step, buf)),
    decreases m,
{
    if m > 0 {
        let r = m % 10000;
        let marked = if step > 0 {
            if r > 0 {
                buf.push(scale_unit(step as int))
            } else {
                drop_trailing_mark(buf).push(ZERO_MARK)
            }
        } else {
            buf
        };
        assert(well_shaped(marked)) by {
            if step > 0 {
                if r > 0 {
                    assert(is_numeral_char(scale_unit(step as int)));
                    assert forall|j: int| 0 <= j < marked.len() - 1 implies !(#[trigger] marked[j]
                        == ZERO_MARK && marked[j + 1] == ZERO_MARK) by {
                        if j + 1 < buf.len() {
                            assert(marked[j] == buf[j] && marked[j + 1] == buf[j + 1]);
                        }
                    }
                    assert forall|j: int| 0 <= j < marked.len() implies is_numeral_char(
                        #[trigger] marked[j],
                    ) by {
                        if j < buf.len() {
                            assert(marked[j] == buf[j]);
                        }
                    }
                } else {
                    let d = drop_trailing_mark(buf);
                    assert(d.len() > 0 ==> d.last() != ZERO_MARK) by {
                        if buf.len() > 0 && buf.last() == ZERO_MARK && d.len() > 0 {
                            assert(d.last() == buf[buf.len() - 2]);
                        }
                    }
                    assert(is_numeral_char(digit_symbol(0)));
                    assert forall|j: int| 0 <= j < marked.len() - 1 implies !(#[trigger] marked[j]
                        == ZERO_MARK && marked[j + 1] == ZERO_MARK) by {
                        if j + 1 < d.len() {
                            assert(marked[j] == buf[j] && marked[j + 1] == buf[j + 1]);
                        } else {
                            assert(marked[j] == d.last());
                        }
                    }
                    assert forall|j: int| 0 <= j < marked.len() implies is_numeral_char(
                        #[trigger] marked[j],
                    ) by {
                        if j < d.len() {
                            assert(marked[j] == buf[j]);
                        }
                    }
                }
            }
        }
        let written = if r > 0 {
            marked + group_text(group_digits(r as int))
        } else {
            marked
        };
        assert(well_shaped(written)) by {
            if r > 0 {
                let g = group_text(group_digits(r as int));
                lemma_group_digits_range(r as int);
                lemma_group_text_shape(group_digits(r as int));
                assert forall|j: int| 0 <= j < written.len() - 1 implies !(#[trigger] written[j]
                    == ZERO_MARK && written[j + 1] == ZERO_MARK) by {
                    if j + 1 < marked.len() {
                        assert(written[j] == marked[j] && written[j + 1] == marked[j + 1]);
                    } else if j + 1 == marked.len() {
                        assert(written[j + 1] == g[0]);
                    } else {
                        assert(written[j] == g[j - marked.len()]);
                        assert(written[j + 1] == g[j + 1 - marked.len()]);
                    }
                }
                assert forall|j: int| 0 <= j < written.len() implies is_numeral_char(
                    #[trigger] written[j],
                ) by {
                    if j < marked.len() {
                        assert(written[j] == marked[j]);
                    } else {
                        assert(written[j] == g[j - marked.len()]);
                    }
                }
            }
        }
        lemma_assemble_shape(m / 10000, step + 1, written);
    }
}

proof fn lemma_trim_shape(s: Seq<char>)
    requires
        well_shaped(s),
    ensures
        well_shaped(drop_trailing_mark(drop_leading_mark(s))),
        drop_trailing_mark(drop_leading_mark(s)).len() > 0 ==> drop_trailing_mark(
            drop_leading_mark(s),
        )[0] != ZERO_MARK && drop_trailing_mark(drop_leading_mark(s)).last() != ZERO_MARK,
{
    let t = drop_leading_mark(s);
    let u = drop_trailing_mark(t);
    assert(well_shaped(t)) by {
        if s.len() > 0 && s[0] == ZERO_MARK {
            assert forall|j: int| 0 <= j < t.len() - 1 implies !(#[trigger] t[j] == ZERO_MARK
                && t[j + 1] == ZERO_MARK) by {
                assert(t[j] == s[j + 1] && t[j + 1] == s[j + 2]);
            }
            assert forall|j: int| 0 <= j < t.len() implies is_numeral_char(#[trigger] t[j]) by {
                assert(t[j] == s[j + 1]);
            }
        }
    }
    assert(t.len() > 0 ==> t[0] != ZERO_MARK) by {
        if s.len() > 0 && s[0] == ZERO_MARK && t.len() > 0 {
            assert(t[0] == s[1]);
        }
    }
    assert(well_shaped(u)) by {
        assert forall|j: int| 0 <= j < u.len() - 1 implies !(#[trigger] u[j] == ZERO_MARK && u[j
            + 1] == ZERO_MARK) by {
            assert(u[j] == t[j] && u[j + 1] == t[j + 1]);
        }
        assert forall|j: int| 0 <= j < u.len() implies is_numeral_char(#[trigger] u[j]) by {
            assert(u[j] == t[j]);
        }
    }
    if u.len() > 0 {
        assert(u[0] == t[0]);
        if t.len() > 0 && t.last() == ZERO_MARK {
            assert(u.last() == t[t.len() - 2]);
        }
    }
}

proof fn lemma_reverse_shape(s: Seq<char>)
    requires
        well_shaped(s),
    ensures
        well_shaped(s.reverse()),
        s.reverse().len() == s.len(),
        s.len() > 0 ==> s.reverse()[0] == s.last() && s.reverse().last() == s[0],
{
    let r = s.reverse();
    assert forall|j: int| 0 <= j < r.len() - 1 implies !(#[trigger] r[j] == ZERO_MARK && r[j + 1]
        == ZERO_MARK) by {
        assert(r[j] == s[s.len() - 1 - j] && r[j + 1] == s[s.len() - 2 - j]);
    }
    assert forall|j: int| 0 <= j < r.len() implies is_numeral_char(#[trigger] r[j]) by {
        assert(r[j] == s[s.len() - 1 - j]);
    }
}

proof fn lemma_keeps_non_mark(s: Seq<char>, t: Seq<char>)
    requires
        has_non_mark(s),
        t.len() >= s.len() ==> forall|j: int| 0 <= j < s.len() ==> #[trigger] t[j] == s[j],
        t.len() < s.len() ==> t == drop_trailing_mark(s) && s.last() == ZERO_MARK,
    ensures
        has_non_mark(t),
{
    let j = choose|j: int| 0 <= j < s.len() && #[trigger] s[j] != ZERO_MARK;
    assert(t[j] == s[j]);
}

proof fn lemma_assemble_non_mark(m: nat, step: nat, buf: Seq<char>)
    requires
        m > 0 || has_non_mark(buf),
    ensures
        has_non_mark(assemble(m, step, buf)),
    decreases m,
{
    if m > 0 {
        let r = m % 10000;
        let marked = if step > 0 {
            if r > 0 {
                buf.push(scale_unit(step as int))
            } else {
                drop_trailing_mark(buf).push(ZERO_MARK)
            }
        } else {
            buf
        };
        let written = if r > 0 {
            marked + group_text(group_digits(r as int))
        } else {
            marked
        };
        if r > 0 {
            if step > 0 {
                assert(marked[marked.len() - 1] != ZERO_MARK);
                lemma_keeps_non_mark(marked, written);
            } else {
                let g = group_text(group_digits(r as int));
                lemma_group_text_nonzero(r as int);
                let j = choose|j: int| 0 <= j < g.len() && #[trigger] g[j] != ZERO_MARK;
                assert(written[marked.len() + j] == g[j]);
            }
        } else if has_non_mark(buf) {
            let j = choose|j: int| 0 <= j < buf.len() && #[trigger] buf[j] != ZERO_MARK;
            if step > 0 {
                if buf.len() > 0 && buf.last() == ZERO_MARK {
                    assert(j < buf.len() - 1);
                }
                assert(written[j] == buf[j]);
            }
        }
        lemma_assemble_non_mark(m / 10000, step + 1, written);
    }
}

proof fn lemma_uppercase_shape(n: u64)
    ensures
        all_numeral_chars(uppercase_text(n as nat)),
        no_double_mark(uppercase_text(n as nat)),
        n != 0 ==> uppercase_text(n as nat).len() > 0 && uppercase_text(n as nat)[0] != ZERO_MARK
            && uppercase_text(n as nat).last() != ZERO_MARK,
{
    if n < 10 {
        assert(is_numeral_char(digit_symbol(n as int)));
    } else {
        let empty: Seq<char> = seq![];
        lemma_assemble_shape(n as nat, 0, empty);
        lemma_assemble_non_mark(n as nat, 0, empty);
        let s = assemble(n as nat, 0, empty);
        let t = drop_leading_mark(s);
        let u = drop_trailing_mark(t);
        if s[0] == ZERO_MARK {
            let j = choose|j: int| 0 <= j < s.len() && #[trigger] s[j] != ZERO_MARK;
            assert(t[j - 1] == s[j]);
        } else {
            assert(t == s);
        }
        if t.len() > 0 && t.last() == ZERO_MARK {
            lemma_keeps_non_mark(t, u);
        } else {
            assert(u == t);
        }
        lemma_trim_shape(s);
        lemma_reverse_shape(u);
    }
}

/// A numeral is written with digit symbols, positional units and scale units only.
pub proof fn lemma_uppercase_alphabet(n: u64)
    ensures
        all_numeral_chars(uppercase_text(n as nat)),
{
    lemma_uppercase_shape(n);
}

/// A numeral never holds two placeholders side by side.
pub proof fn lemma_no_doubled_placeholder(n: u64)
    ensures
        no_double_mark(uppercase_text(n as nat)),
{
    lemma_uppercase_shape(n);
}

/// The numeral of a nonzero number neither begins nor ends with the placeholder.
/// (The numeral of zero is the placeholder itself.)
pub proof fn lemma_no_placeholder_at_ends(n: u64)
    requires
        n != 0,
    ensures
        uppercase_text(n as nat).len() > 0,
        uppercase_text(n as nat)[0] != ZERO_MARK,
        uppercase_text(n as nat).last() != ZERO_MARK,
{
    lemma_uppercase_shape(n);
}

/// Writing a number twice gives the same numeral.
pub proof fn lemma_uppercase_deterministic(n: u64, first: Seq<char>, second: Seq<char>)
    requires
        first == uppercase_text(n as nat),
        second == uppercase_text(n as nat),
    ensures
        first == second,
{
}

/// Converts a `u64` into its formal Chinese uppercase numeral.
pub fn to_uppercase(number: u64) -> (s: String)
    ensures
        s@ == uppercase_text(number as nat),
        number < 10 ==> s@ == seq![digit_symbol(number as int)],
{
    proof {
        lemma_uppercase_shape(number);
    }
    if number < 10 {
        let mut s = String::new();
        s.append(char_text(digit_symbol_of(number as u32)));
        return s;
    }
    let mut chars: Vec<char> = Vec::new();
    let mut copy_number: u64 = number;
    let mut step: usize = 0;
    while copy_number > 0
        invariant
            assemble(number as nat, 0, seq![]) == assemble(copy_number as nat, step as nat, chars@),
            step <= 5,
            copy_number <= remaining_bound(step as nat),
        decreases copy_number,
    {
        let r = copy_number % 10000;
        if step > 0 {
            if r > 0 {
                chars.push(scale_unit_of(step));
            } else {
                let len = chars.len();
                if len > 0 && chars[len - 1] == ZERO_MARK {
                    chars.pop();
                }
                chars.push(ZERO_MARK);
            }
        }
        if r > 0 {
            let padded = pad_number(r);
            proof {
                lemma_padded_digits(r as int);
            }
            let mut group = number_slice_to_uppercase(padded.as_str());
            chars.append(&mut group);
        }
        copy_number = copy_number / 10000;
        step = step + 1;
    }
    if chars.len() > 0 && chars[0] == ZERO_MARK {
        chars.remove(0);
    }
    let len = chars.len();
    if len > 0 && chars[len - 1] == ZERO_MARK {
        chars.pop();
    }
    let ghost trimmed = chars@;
    assert(trimmed.reverse() == uppercase_text(number as nat));
    let mut s = String::new();
    let mut k: usize = chars.len();
    while k > 0
        invariant
            k <= chars@.len(),
            chars@ == trimmed,
            all_numeral_chars(trimmed.reverse()),
            s@ =~= trimmed.subrange(k as int, trimmed.len() as int).reverse(),
        decreases k,
    {
        k = k - 1;
        assert(is_numeral_char(trimmed.reverse()[trimmed.len() - 1 - k]));
        s.append(char_text(chars[k]));
        assert(s@ =~= trimmed.subrange(k as int, trimmed.len() as int).reverse());
    }
    assert(trimmed.subrange(0, trimmed.len() as int) =~= trimmed);
    s
}

} // verus!
