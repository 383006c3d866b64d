//! What the texts and numbers that are read and written stand for.

use vstd::prelude::*;
use vstd::utf8::{
    encode_scalar, encode_utf8, encode_utf8_decode_utf8, encode_utf8_first_scalar,
    encode_utf8_valid_utf8, is_char_boundary, pop_first_scalar,
};
use crate::dates::{date_head, day_of};
use crate::num::{clamped, half_away, half_even};
use crate::pdf::lemma_bytes_append;
use crate::text::{
    all_digits, digits_value, int_text, is_digit, is_white, joined, lemma_first_at,
    lemma_nat_text_digits, lemma_zeros_in_front, nat_text, pad3_text, parsed_int, replaced,
    split_on, split_once_at, trim_end, trim_start, trimmed,
};

verus! {

// ── Trimming ────────────────────────────────────────────────────────────

/// Of the ASCII characters, the blank and the tab, line feed, line tabulation,
/// form feed and carriage return are white space.
pub proof fn blanks_are_white_space(c: char)
    requires
        (c as u32) < 128,
    ensures
        is_white(c) <==> c == ' ' || c == '\t' || c == '\n' || c == '\r' || c == '\u{b}' || c
            == '\u{c}',
{
}

/// Trimming takes the white space off both ends and leaves what stands between,
/// which neither begins nor ends with any.
pub proof fn trimming_leaves_the_middle(s: Seq<char>)
    ensures
        exists|i: int, j: int|
            {
                &&& 0 <= i <= j <= s.len()
                &&& trimmed(s) == #[trigger] s.subrange(i, j)
                &&& forall|k: int| 0 <= k < i || j <= k < s.len() ==> is_white(#[trigger] s[k])
                &&& i < j ==> !is_white(s[i]) && !is_white(s[j - 1])
            },
{
    let i = lemma_start(s);
    let t = trim_start(s);
    let n = lemma_end(t);
    assert(trimmed(s) =~= s.subrange(i, i + n));
    assert forall|k: int| 0 <= k < i || i + n <= k < s.len() implies is_white(#[trigger] s[k]) by {
        if k >= i {
            assert(t[k - i] == s[k]);
        }
    }
    if n > 0 {
        assert(t[0] == s[i]);
        assert(t[n - 1] == s[i + n - 1]);
    }
}

proof fn lemma_start(s: Seq<char>) -> (i: int)
    ensures
        0 <= i <= s.len(),
        trim_start(s) == s.skip(i),
        forall|k: int| 0 <= k < i ==> is_white(#[trigger] s[k]),
        i < s.len() ==> !is_white(s[i]),
    decreases s.len(),
{
    if s.len() > 0 && is_white(s[0]) {
        let t = s.skip(1);
        let i = lemma_start(t);
        assert(t.skip(i) =~= s.skip(i + 1));
        assert forall|k: int| 0 <= k < i + 1 implies is_white(#[trigger] s[k]) by {
            if k > 0 {
                assert(t[k - 1] == s[k]);
            }
        }
        i + 1
    } else {
        assert(s.skip(0) =~= s);
        0
    }
}

proof fn lemma_end(s: Seq<char>) -> (n: int)
    ensures
        0 <= n <= s.len(),
        trim_end(s) == s.take(n),
        forall|k: int| n <= k < s.len() ==> is_white(#[trigger] s[k]),
        n > 0 ==> !is_white(s[n - 1]),
    decreases s.len(),
{
    if s.len() > 0 && is_white(s.last()) {
        let t = s.drop_last();
        let n = lemma_end(t);
        assert(t.take(n) =~= s.take(n));
        assert forall|k: int| n <= k < s.len() implies is_white(#[trigger] s[k]) by {
            if k < t.len() {
                assert(t[k] == s[k]);
            }
        }
        n
    } else {
        assert(s.take(s.len() as int) =~= s);
        s.len() as int
    }
}

// ── Whole numbers ───────────────────────────────────────────────────────

/// A digit by itself is read as its number.
pub proof fn a_digit_is_read_as_its_number(c: char)
    requires
        '0' <= c <= '9',
    ensures
        parsed_int(seq![c]) == Some((c as u32 - '0' as u32) as i64),
{
    reveal_with_fuel(digits_value, 2);
    let s = seq![c];
    assert(s.drop_last() =~= Seq::<char>::empty());
}

/// A digit more makes a number ten times as large and adds the digit.
pub proof fn a_digit_more_is_ten_times_as_much(s: Seq<char>, n: i64, c: char)
    requires
        parsed_int(s) == Some(n),
        s[0] != '-',
        '0' <= c <= '9',
    ensures
        parsed_int(s.push(c)) == (if 10 * n + (c as u32 - '0' as u32) <= i64::MAX {
            Some((10 * n + (c as u32 - '0' as u32)) as i64)
        } else {
            None
        }),
{
    let t = s.push(c);
    assert(s.len() > 0);
    let digits = if s[0] == '+' {
        s.skip(1)
    } else {
        s
    };
    if s[0] == '+' {
        assert(t.skip(1) =~= digits.push(c));
    }
    assert(digits.push(c).drop_last() =~= digits);
    assert(all_digits(digits.push(c))) by {
        assert forall|i: int| 0 <= i < digits.push(c).len() implies is_digit(
            #[trigger] digits.push(c)[i],
        ) by {
            if i < digits.len() {
                assert(is_digit(digits[i]));
            }
        }
    }
    lemma_not_negative(digits);
}

proof fn lemma_not_negative(s: Seq<char>)
    requires
        all_digits(s),
    ensures
        digits_value(s) >= 0,
    decreases s.len(),
{
    if s.len() > 0 {
        assert(is_digit(s[s.len() - 1]));
        assert forall|i: int| 0 <= i < s.drop_last().len() implies is_digit(
            #[trigger] s.drop_last()[i],
        ) by {
            assert(is_digit(s[i]));
        }
        lemma_not_negative(s.drop_last());
    }
}

/// A minus in front of a number makes it negative, and a plus changes nothing.
pub proof fn a_sign_may_stand_in_front(s: Seq<char>, n: i64)
    requires
        parsed_int(s) == Some(n),
        s[0] != '-',
        s[0] != '+',
    ensures
        parsed_int(seq!['-'] + s) == Some((-n) as i64),
        parsed_int(seq!['+'] + s) == Some(n),
{
    lemma_not_negative(s);
    assert((seq!['-'] + s).skip(1) =~= s);
    assert((seq!['+'] + s).skip(1) =~= s);
}

/// Nothing is a whole number that holds anything but digits behind a sign, or no
/// digit at all.
pub proof fn a_number_is_made_of_digits(s: Seq<char>)
    requires
        parsed_int(s) is Some,
    ensures
        exists|i: int| 0 <= i < s.len() && '0' <= #[trigger] s[i] <= '9',
        forall|i: int|
            0 <= i < s.len() ==> '0' <= #[trigger] s[i] <= '9' || (i == 0 && (s[i] == '-' || s[i]
                == '+')),
{
    let signed = s.len() > 0 && (s[0] == '-' || s[0] == '+');
    if signed {
        assert forall|i: int| 0 <= i < s.len() implies '0' <= #[trigger] s[i] <= '9' || (i == 0 && (
        s[i] == '-' || s[i] == '+')) by {
            if i > 0 {
                assert(is_digit(s.skip(1)[i - 1]));
            }
        }
        assert(is_digit(s.skip(1)[0]));
        assert('0' <= s[1] <= '9');
    } else {
        assert forall|i: int| 0 <= i < s.len() implies '0' <= #[trigger] s[i] <= '9' || (i == 0 && (
        s[i] == '-' || s[i] == '+')) by {
            assert(is_digit(s[i]));
        }
        assert('0' <= s[0] <= '9');
    }
}

/// A number is written without zeros in front.
pub proof fn a_number_is_written_without_zeros_in_front(n: nat)
    ensures
        n > 0 ==> int_text(n as int)[0] != '0',
        n == 0 ==> int_text(n as int) == seq!['0'],
    decreases n,
{
    if n >= 10 {
        a_number_is_written_without_zeros_in_front(n / 10);
        lemma_nat_text_digits(n / 10);
        assert(nat_text(n)[0] == nat_text(n / 10)[0]);
    }
}

/// The number on a label has at least three places and is the number; where it
/// has more than three, none of them is for show.
pub proof fn a_padded_number_is_the_number(n: i64)
    requires
        n >= 0,
    ensures
        pad3_text(n as int).len() >= 3,
        parsed_int(pad3_text(n as int)) == Some(n),
        pad3_text(n as int).len() > 3 ==> pad3_text(n as int) == int_text(n as int),
{
    let s = nat_text(n as nat);
    let t = pad3_text(n as int);
    lemma_nat_text_digits(n as nat);
    crate::text::int_text_reads_back(n);
    let zeros = Seq::new(
        if s.len() < 3 {
            (3 - s.len()) as nat
        } else {
            0
        },
        |i: int| '0',
    );
    assert(t == zeros + s);
    if s.len() >= 3 {
        assert(t =~= s);
    }
    assert(is_digit(s[0]));
    lemma_zeros_in_front(zeros, s);
    assert forall|i: int| 0 <= i < t.len() implies is_digit(#[trigger] t[i]) by {
        if i >= zeros.len() {
            assert(is_digit(s[i - zeros.len()]));
        }
    }
    assert(is_digit(t[0]));
}

// ── Splitting and joining ───────────────────────────────────────────────

/// The pieces of a text hold no separator, and joined by it they are the text.
pub proof fn the_pieces_make_the_text(s: Seq<char>, sep: char)
    ensures
        split_on(s, sep).len() > 0,
        joined(split_on(s, sep), seq![sep]) == s,
        forall|i: int| 0 <= i < split_on(s, sep).len() ==> !(#[trigger] split_on(s, sep)[i]).contains(
            sep,
        ),
    decreases s.len(),
{
    let p = split_on(s, sep);
    if s.len() > 0 {
        let before = split_on(s.drop_last(), sep);
        the_pieces_make_the_text(s.drop_last(), sep);
        if s.last() == sep {
            assert(p.drop_last() =~= before);
            assert(joined(p, seq![sep]) =~= s);
        } else {
            assert(p.drop_last() =~= before.drop_last());
            assert forall|i: int| 0 <= i < p.len() implies !(#[trigger] p[i]).contains(sep) by {
                if i < p.len() - 1 {
                    assert(p[i] == before[i]);
                } else {
                    let last = before[before.len() - 1];
                    assert(!last.contains(sep));
                    assert(p[i] == last.push(s.last()));
                    if p[i].contains(sep) {
                        let k = p[i].index_of(sep);
                        assert(k < last.len());
                        assert(last[k] == sep);
                    }
                }
            }
            assert(s =~= s.drop_last().push(s.last()));
            if before.len() > 1 {
                let head = joined(before.drop_last(), seq![sep]) + seq![sep];
                assert(s.drop_last() == head + before.last());
                assert(head + before.last().push(s.last()) =~= (head + before.last()).push(s.last()));
            }
            assert(joined(p, seq![sep]) =~= s);
        }
    }
}

/// A text is split at the first separator: what stands before it holds none, and
/// the two halves with the separator between them are the text.
pub proof fn a_text_is_split_at_the_first(s: Seq<char>, sep: char)
    ensures
        match split_once_at(s, sep) {
            Some((a, b)) => s == a.push(sep) + b && !a.contains(sep),
            None => !s.contains(sep),
        },
{
    lemma_first_at(s, sep, 0);
    if let Some((a, b)) = split_once_at(s, sep) {
        assert(s =~= a.push(sep) + b);
        if a.contains(sep) {
            let k = a.index_of(sep);
            assert(s[k] == sep);
        }
    } else if s.contains(sep) {
        let k = s.index_of(sep);
        assert(s[k] == sep);
    }
}

/// Replacing one character by another leaves none of the first and every other
/// one where it was.
pub proof fn replacing_changes_one_character(s: Seq<char>, from: char, to: char, i: int)
    requires
        0 <= i < s.len(),
    ensures
        replaced(s, from, to).len() == s.len(),
        s[i] == from ==> replaced(s, from, to)[i] == to,
        s[i] != from ==> replaced(s, from, to)[i] == s[i],
{
}

// ── Rounding ────────────────────────────────────────────────────────────

/// A fraction is rounded to a whole number that is no further than half away;
/// from halfway between two, to the even one.
pub proof fn a_fraction_is_rounded_to_the_nearest(num: int, den: int)
    requires
        den > 0,
    ensures
        2 * num - den <= 2 * (half_even(num, den) * den) <= 2 * num + den,
        2 * (half_even(num, den) * den) == 2 * num - den || 2 * (half_even(num, den) * den) == 2 * num
            + den ==> half_even(num, den) % 2 == 0,
{
    vstd::arithmetic::div_mod::lemma_fundamental_div_mod(num, den);
    let f = num / den;
    assert((f + 1) * den == f * den + den) by (nonlinear_arith);
    assert(f * den == den * f) by (nonlinear_arith);
    vstd::arithmetic::div_mod::lemma_mod_bound(num, den);
}

/// A share is rounded to a whole number that is no further than half away; from
/// halfway between two, to the one further from zero.
pub proof fn a_share_is_rounded_away_from_zero(num: int, den: int)
    requires
        den > 0,
        num >= 0,
    ensures
        2 * num - den < 2 * (half_away(num, den) * den) <= 2 * num + den,
        half_away(-num, den) == -half_away(num, den),
{
    let r = half_away(num, den);
    vstd::arithmetic::div_mod::lemma_fundamental_div_mod(2 * num + den, 2 * den);
    vstd::arithmetic::div_mod::lemma_mod_bound(2 * num + den, 2 * den);
    assert((2 * den) * r == 2 * (r * den)) by (nonlinear_arith);
    if num == 0 {
        assert(-2 * num + den == den);
        assert(r == 0) by {
            vstd::arithmetic::div_mod::lemma_basic_div(den, 2 * den);
        }
    }
}

/// A number that is too large or too small for its place becomes the largest or
/// the smallest there is, and any other stays.
pub proof fn a_number_is_kept_in_bounds(n: int)
    ensures
        i64::MIN <= n <= i64::MAX ==> clamped(n) == n,
        n > i64::MAX ==> clamped(n) == i64::MAX,
        n < i64::MIN ==> clamped(n) == i64::MIN,
{
}

// ── Moments ─────────────────────────────────────────────────────────────

/// The day of a moment is that of its first ten bytes; what follows them, the
/// time of day, makes no difference.
pub proof fn a_moment_begins_with_its_day(day: Seq<char>, rest: Seq<char>)
    requires
        encode_utf8(day).len() == 10,
    ensures
        date_head(day + rest) == Some(day),
        day_of(day + rest) == day_of(day),
{
    lemma_bytes_append(day, rest);
    lemma_boundary(day, rest);
    let all = encode_utf8(day + rest);
    assert(all.subrange(0, 10) =~= encode_utf8(day));
    encode_utf8_decode_utf8(day);
    assert(day + Seq::<char>::empty() =~= day);
    lemma_boundary(day, Seq::empty());
    assert(encode_utf8(day).subrange(0, 10) =~= encode_utf8(day));
}

/// A text without a tenth byte is taken whole.
pub proof fn a_short_text_is_taken_whole(text: Seq<char>)
    requires
        encode_utf8(text).len() < 10,
    ensures
        date_head(text) == Some(text),
{
}

proof fn lemma_boundary(a: Seq<char>, b: Seq<char>)
    ensures
        is_char_boundary(encode_utf8(a + b), encode_utf8(a).len() as int),
    decreases a.len(),
{
    let c = a + b;
    let all = encode_utf8(c);
    encode_utf8_valid_utf8(c);
    lemma_bytes_append(a, b);
    if a.len() > 0 {
        encode_utf8_first_scalar(c);
        assert(c.drop_first() =~= a.drop_first() + b);
        assert(pop_first_scalar(all) =~= encode_utf8(c.drop_first()));
        lemma_boundary(a.drop_first(), b);
        assert(encode_utf8(a).len() == encode_scalar(a[0] as u32).len() + encode_utf8(
            a.drop_first(),
        ).len());
    }
}

} // verus!
