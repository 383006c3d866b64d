//! Text as sequences of characters: trimming, splitting, whole numbers and the
//! order of strings.

use vstd::prelude::*;
use vstd::string::*;

verus! {

// ── Characters ──────────────────────────────────────────────────────────

/// The Unicode `White_Space` property.
pub open spec fn is_white(c: char) -> bool {
    let u = c as u32;
    ||| 0x9 <= u <= 0xd
    ||| u == 0x20
    ||| u == 0x85
    ||| u == 0xa0
    ||| u == 0x1680
    ||| 0x2000 <= u <= 0x200a
    ||| u == 0x2028
    ||| u == 0x2029
    ||| u == 0x202f
    ||| u == 0x205f
    ||| u == 0x3000
}

/// An ASCII decimal digit.
pub open spec fn is_digit(c: char) -> bool {
    '0' <= c <= '9'
}

/// What a digit counts for.
pub open spec fn digit_value(c: char) -> int {
    c as u32 - '0' as u32
}

/// The digit that counts for `d`.
pub open spec fn digit_char(d: int) -> char {
    (d + '0' as u32) as char
}

/// ASCII lower case; every other character stands for itself.
pub open spec fn ascii_lower(c: char) -> char {
    if 'A' <= c <= 'Z' {
        (c as u32 + 32) as char
    } else {
        c
    }
}

/// ASCII upper case; every other character stands for itself.
pub open spec fn ascii_upper(c: char) -> char {
    if 'a' <= c <= 'z' {
        (c as u32 - 32) as char
    } else {
        c
    }
}

pub fn white(c: char) -> (r: bool)
    ensures
        r == is_white(c),
{
    let u = c as u32;
    (0x9 <= u && u <= 0xd) || u == 0x20 || u == 0x85 || u == 0xa0 || u == 0x1680 || (0x2000 <= u
        && u <= 0x200a) || u == 0x2028 || u == 0x2029 || u == 0x202f || u == 0x205f || u == 0x3000
}

pub fn digit(c: char) -> (r: bool)
    ensures
        r == is_digit(c),
{
    '0' <= c && c <= '9'
}

pub fn lower_char(c: char) -> (r: char)
    ensures
        r == ascii_lower(c),
{
    if 'A' <= c && c <= 'Z' {
        ((c as u8) + 32) as char
    } else {
        c
    }
}

pub fn upper_char(c: char) -> (r: char)
    ensures
        r == ascii_upper(c),
{
    if 'a' <= c && c <= 'z' {
        ((c as u8) - 32) as char
    } else {
        c
    }
}

// ── Between text and characters ─────────────────────────────────────────

/// `String::push` puts one character at the end.
pub assume_specification[ String::push ](s: &mut String, c: char)
    ensures
        final(s)@ == old(s)@.push(c),
;

pub fn chars_of(s: &str) -> (r: Vec<char>)
    ensures
        r@ == s@,
{
    let mut out: Vec<char> = Vec::new();
    for c in it: s.chars()
        invariant
            it.seq() == s@,
            out@ == s@.take(it.index() as int),
    {
        out.push(c);
    }
    assert(s@.take(s@.len() as int) == s@);
    out
}

/// The characters `from..to` of `v` as text.
pub fn text_of(v: &Vec<char>, from: usize, to: usize) -> (r: String)
    requires
        from <= to <= v@.len(),
    ensures
        r@ == v@.subrange(from as int, to as int),
{
    let mut out = String::new();
    let mut i: usize = from;
    while i < to
        invariant
            from <= i <= to <= v@.len(),
            out@ == v@.subrange(from as int, i as int),
        decreases to - i,
    {
        out.push(v[i]);
        i = i + 1;
    }
    out
}

/// Two strings hold the same characters.
pub fn same(a: &str, b: &str) -> (r: bool)
    ensures
        r == (a@ == b@),
{
    let x = chars_of(a);
    let y = chars_of(b);
    if x.len() != y.len() {
        return false;
    }
    let mut i: usize = 0;
    while i < x.len()
        invariant
            x@ == a@,
            y@ == b@,
            x@.len() == y@.len(),
            i <= x@.len(),
            forall|j: int| 0 <= j < i ==> x@[j] == y@[j],
        decreases x@.len() - i,
    {
        if x[i] != y[i] {
            return false;
        }
        i = i + 1;
    }
    assert(a@ =~= b@);
    true
}

// ── Trimming ────────────────────────────────────────────────────────────

pub open spec fn trim_start(s: Seq<char>) -> Seq<char>
    decreases s.len(),
{
    if s.len() > 0 && is_white(s[0]) {
        trim_start(s.skip(1))
    } else {
        s
    }
}

pub open spec fn trim_end(s: Seq<char>) -> Seq<char>
    decreases s.len(),
{
    if s.len() > 0 && is_white(s.last()) {
        trim_end(s.drop_last())
    } else {
        s
    }
}

/// `s` without the white space at either end.
pub open spec fn trimmed(s: Seq<char>) -> Seq<char> {
    trim_end(trim_start(s))
}

pub fn trim<'a>(s: &'a str) -> (r: &'a str)
    ensures
        r@ == trimmed(s@),
{
    let v = chars_of(s);
    let n = v.len();
    let mut lo: usize = 0;
    assert(s@.skip(0) == s@);
    while lo < n && white(v[lo])
        invariant
            lo <= n == v@.len(),
            v@ == s@,
            trim_start(s@) == trim_start(s@.skip(lo as int)),
        decreases n - lo,
    {
        assert(s@.skip(lo as int).skip(1) == s@.skip(lo + 1));
        lo = lo + 1;
    }
    let mut hi: usize = n;
    assert(s@.subrange(lo as int, n as int) == s@.skip(lo as int));
    while hi > lo && white(v[hi - 1])
        invariant
            lo <= hi <= n == v@.len(),
            v@ == s@,
            trimmed(s@) == trim_end(s@.subrange(lo as int, hi as int)),
        decreases hi,
    {
        assert(s@.subrange(lo as int, hi as int).drop_last() == s@.subrange(
            lo as int,
            hi - 1,
        ));
        hi = hi - 1;
    }
    s.substring_char(lo, hi)
}

/// Nothing is trimmed off what is already trimmed.
pub proof fn trimmed_is_stable(s: Seq<char>)
    ensures
        trimmed(trimmed(s)) == trimmed(s),
{
    lemma_trim_start(s);
    let a = trim_start(s);
    lemma_trim_end(a);
    let b = trim_end(a);
    if b.len() > 0 {
        assert(b[0] == a[0]);
    }
}

proof fn lemma_trim_start(s: Seq<char>)
    ensures
        trim_start(s).len() > 0 ==> !is_white(trim_start(s)[0]),
    decreases s.len(),
{
    if s.len() > 0 && is_white(s[0]) {
        lemma_trim_start(s.skip(1));
    }
}

proof fn lemma_trim_end(s: Seq<char>)
    ensures
        trim_end(s).len() <= s.len(),
        trim_end(s) == s.take(trim_end(s).len() as int),
        trim_end(s).len() > 0 ==> !is_white(trim_end(s).last()),
    decreases s.len(),
{
    if s.len() > 0 && is_white(s.last()) {
        lemma_trim_end(s.drop_last());
    }
}

/// Trimming takes a run off the front.
proof fn lemma_trim_start_suffix(s: Seq<char>)
    ensures
        trim_start(s).len() <= s.len(),
        trim_start(s) == s.skip(s.len() - trim_start(s).len()),
        trim_start(trim_start(s)) == trim_start(s),
    decreases s.len(),
{
    if s.len() > 0 && is_white(s[0]) {
        lemma_trim_start_suffix(s.skip(1));
        assert(trim_start(s) =~= s.skip(s.len() - trim_start(s).len()));
    }
}

/// White space at the end does not count.
proof fn lemma_trimmed_push(s: Seq<char>, c: char)
    requires
        is_white(c),
    ensures
        trimmed(s.push(c)) == trimmed(s),
    decreases s.len(),
{
    if s.len() == 0 {
        assert(s.push(c).skip(1) =~= s);
    } else if is_white(s[0]) {
        assert(s.push(c).skip(1) =~= s.skip(1).push(c));
        lemma_trimmed_push(s.skip(1), c);
    } else {
        assert(s.push(c).drop_last() =~= s);
    }
}

proof fn lemma_trimmed_trim_end(s: Seq<char>)
    ensures
        trimmed(trim_end(s)) == trimmed(s),
    decreases s.len(),
{
    if s.len() > 0 && is_white(s.last()) {
        lemma_trimmed_trim_end(s.drop_last());
        assert(s.drop_last().push(s.last()) =~= s);
        lemma_trimmed_push(s.drop_last(), s.last());
    }
}

proof fn lemma_trim_start_upto(a: Seq<char>, c: char, b: Seq<char>)
    requires
        !is_white(c),
    ensures
        trim_start(a.push(c) + b) == trim_start(a).push(c) + b,
    decreases a.len(),
{
    if a.len() > 0 && is_white(a[0]) {
        assert((a.push(c) + b).skip(1) =~= a.skip(1).push(c) + b);
        lemma_trim_start_upto(a.skip(1), c, b);
    }
}

proof fn lemma_trim_end_from(a: Seq<char>, c: char, b: Seq<char>)
    requires
        !is_white(c),
    ensures
        trim_end(a.push(c) + b) == a.push(c) + trim_end(b),
    decreases b.len(),
{
    if b.len() == 0 {
        assert(a.push(c) + b =~= a.push(c));
    } else if is_white(b.last()) {
        assert((a.push(c) + b).drop_last() =~= a.push(c) + b.drop_last());
        lemma_trim_end_from(a, c, b.drop_last());
    }
}

/// Two texts with something in between that the first does not hold: trimming
/// leaves it there, and what stands on either side is, trimmed, the two texts.
pub proof fn lemma_trimmed_sides(a: Seq<char>, sep: char, b: Seq<char>)
    requires
        !is_white(sep),
        !a.contains(sep),
    ensures
        trimmed(a.push(sep) + b).len() > 0,
        split_once_at(trimmed(a.push(sep) + b), sep) matches Some((x, y)) && trimmed(x) == trimmed(
            a,
        ) && trimmed(y) == trimmed(b),
{
    let x = trim_start(a);
    let y = trim_end(b);
    let s = trimmed(a.push(sep) + b);
    lemma_trim_start_upto(a, sep, b);
    lemma_trim_end_from(x, sep, b);
    lemma_trim_start_suffix(a);
    assert(s =~= x.push(sep) + y);
    assert(s[x.len() as int] == sep);
    assert forall|j: int| 0 <= j < x.len() implies s[j] != sep by {
        assert(a[a.len() - x.len() + j] == s[j]);
    }
    lemma_first_at(s, sep, 0);
    assert(first_at(s, sep, 0) == x.len());
    assert(s.take(x.len() as int) =~= x);
    assert(s.skip(x.len() as int + 1) =~= y);
    lemma_trimmed_trim_end(b);
}

// ── Whole numbers ───────────────────────────────────────────────────────

/// The number that a run of digits writes in base ten.
pub open spec fn digits_value(s: Seq<char>) -> int
    decreases s.len(),
{
    if s.len() == 0 {
        0
    } else {
        digits_value(s.drop_last()) * 10 + digit_value(s.last())
    }
}

pub open spec fn all_digits(s: Seq<char>) -> bool {
    forall|i: int| 0 <= i < s.len() ==> is_digit(#[trigger] s[i])
}

/// A sign, if there is one, and at least one digit, for a number that an `i64`
/// can hold; nothing else is a whole number.
pub open spec fn parsed_int(s: Seq<char>) -> Option<i64> {
    let negative = s.len() > 0 && s[0] == '-';
    let digits = if negative || (s.len() > 0 && s[0] == '+') {
        s.skip(1)
    } else {
        s
    };
    let value = if negative {
        -digits_value(digits)
    } else {
        digits_value(digits)
    };
    if digits.len() > 0 && all_digits(digits) && i64::MIN <= value <= i64::MAX {
        Some(value as i64)
    } else {
        None
    }
}

proof fn lemma_digits_grow(s: Seq<char>, k: int)
    requires
        0 <= k <= s.len(),
        all_digits(s),
    ensures
        0 <= digits_value(s.take(k)) <= digits_value(s),
    decreases s.len(),
{
    if s.len() == 0 {
        assert(s.take(k) == s);
    } else if k == s.len() {
        assert(s.take(k) == s);
        lemma_digits_grow(s.drop_last(), 0);
        assert(s.drop_last().take(0).len() == 0);
    } else {
        assert(s.drop_last().take(k) == s.take(k));
        lemma_digits_grow(s.drop_last(), k);
    }
}

#[verifier::loop_isolation(false)]
pub fn parse_i64(s: &str) -> (r: Option<i64>)
    ensures
        r == parsed_int(s@),
{
    let v = chars_of(s);
    let n = v.len();
    let negative = n > 0 && v[0] == '-';
    let start: usize = if negative || (n > 0 && v[0] == '+') {
        1
    } else {
        0
    };
    let ghost digits = s@.skip(start as int);
    assert(s@.skip(0) == s@);
    if start == n {
        return None;
    }
    let limit: u128 = 0x8000_0000_0000_0000;
    let mut acc: u128 = 0;
    let mut over = false;
    let mut i: usize = start;
    while i < n
        invariant
            start <= i <= n == v@.len(),
            v@ == s@,
            digits == s@.skip(start as int),
            limit == 0x8000_0000_0000_0000,
            forall|j: int| start <= j < i ==> is_digit(#[trigger] s@[j]),
            all_digits(digits.take(i - start)),
            over ==> digits_value(digits.take(i - start)) > limit,
            !over ==> acc == digits_value(digits.take(i - start)) && acc <= limit,
        decreases n - i,
    {
        let c = v[i];
        assert(digits[i - start] == s@[i as int]);
        if !digit(c) {
            assert(!is_digit(digits[i - start]));
            return None;
        }
        assert(digits.take(i + 1 - start).drop_last() == digits.take(i - start));
        assert(all_digits(digits.take(i + 1 - start)));
        if !over {
            acc = acc * 10 + ((c as u32) - ('0' as u32)) as u128;
            if acc > limit {
                over = true;
            }
        }
        i = i + 1;
    }
    assert(digits.take(n - start) == digits);
    if over {
        return None;
    }
    if negative {
        Some((0 - acc as i128) as i64)
    } else if acc == limit {
        None
    } else {
        Some(acc as i64)
    }
}

/// How a number is written in base ten, without leading zeros.
pub open spec fn nat_text(n: nat) -> Seq<char>
    decreases n,
{
    if n < 10 {
        seq![digit_char(n as int)]
    } else {
        nat_text(n / 10).push(digit_char((n % 10) as int))
    }
}

pub open spec fn int_text(n: int) -> Seq<char> {
    if n < 0 {
        seq!['-'] + nat_text((-n) as nat)
    } else {
        nat_text(n as nat)
    }
}

pub fn digit_of(d: u8) -> (r: char)
    requires
        d < 10,
    ensures
        r == digit_char(d as int),
{
    (d + 48) as char
}

pub fn push_nat(out: &mut String, n: u128)
    ensures
        final(out)@ == old(out)@ + nat_text(n as nat),
    decreases n,
{
    if n < 10 {
        out.push(digit_of(n as u8));
        assert(out@ =~= old(out)@ + nat_text(n as nat));
    } else {
        push_nat(out, n / 10);
        out.push(digit_of((n % 10) as u8));
        assert(out@ =~= old(out)@ + nat_text(n as nat));
    }
}

pub fn push_int(out: &mut String, n: i128)
    requires
        n > i128::MIN,
    ensures
        final(out)@ == old(out)@ + int_text(n as int),
{
    if n < 0 {
        out.push('-');
        push_nat(out, (0 - n) as u128);
        assert(out@ =~= old(out)@ + int_text(n as int));
    } else {
        push_nat(out, n as u128);
    }
}

pub fn int_string(n: i64) -> (r: String)
    ensures
        r@ == int_text(n as int),
{
    let mut out = String::new();
    push_int(&mut out, n as i128);
    assert(out@ =~= int_text(n as int));
    out
}

/// `s` with `0`s in front of it until it is `width` long.
pub open spec fn zero_filled(s: Seq<char>, width: nat) -> Seq<char> {
    Seq::new(
        if s.len() < width {
            (width - s.len()) as nat
        } else {
            0
        },
        |i: int| '0',
    ) + s
}

/// A number in at least three places: `7` is `007`, and `-5` is `-05`.
pub open spec fn pad3_text(n: int) -> Seq<char> {
    if n < 0 {
        seq!['-'] + zero_filled(nat_text((-n) as nat), 2)
    } else {
        zero_filled(nat_text(n as nat), 3)
    }
}

pub fn pad3(n: i64) -> (r: String)
    ensures
        r@ == pad3_text(n as int),
{
    let mut out = String::new();
    let m: u128 = if n < 0 {
        (0 - n as i128) as u128
    } else {
        n as u128
    };
    proof {
        lemma_nat_text_len(m as nat);
    }
    if n < 0 {
        out.push('-');
    }
    if n >= 0 && m < 100 {
        out.push('0');
    }
    if m < 10 {
        out.push('0');
    }
    push_nat(&mut out, m);
    assert(out@ =~= pad3_text(n as int));
    out
}

/// Writes a number in at least `width` places.
pub fn push_zero_filled(out: &mut String, n: u128, width: usize)
    ensures
        final(out)@ == old(out)@ + zero_filled(nat_text(n as nat), width as nat),
{
    let mut digits = String::new();
    push_nat(&mut digits, n);
    assert(digits@ =~= nat_text(n as nat));
    let len = chars_of(digits.as_str()).len();
    let missing: usize = if len < width {
        width - len
    } else {
        0
    };
    let mut i: usize = 0;
    let ghost start = out@;
    while i < missing
        invariant
            i <= missing,
            out@ == start + Seq::new(i as nat, |j: int| '0'),
        decreases missing - i,
    {
        out.push('0');
        assert(out@ =~= start + Seq::new((i + 1) as nat, |j: int| '0'));
        i = i + 1;
    }
    out.append(digits.as_str());
    assert(out@ =~= start + zero_filled(nat_text(n as nat), width as nat));
}

/// A number of tenths, written with a decimal only where there is one.
pub open spec fn tenths_text(n: int) -> Seq<char> {
    let whole = if n < 0 {
        -n
    } else {
        n
    };
    let sign = if n < 0 {
        seq!['-']
    } else {
        Seq::empty()
    };
    if whole % 10 == 0 {
        sign + int_text(whole / 10)
    } else {
        sign + int_text(whole / 10) + "."@ + int_text(whole % 10)
    }
}

pub fn push_tenths(out: &mut String, n: i128)
    requires
        -0x2000_0000_0000_0000_0000_0000_0000_0000 < n
            < 0x2000_0000_0000_0000_0000_0000_0000_0000,
    ensures
        final(out)@ == old(out)@ + tenths_text(n as int),
{
    let ghost start = out@;
    let whole: i128 = if n < 0 {
        out.push('-');
        0 - n
    } else {
        n
    };
    let ghost signed = out@;
    let (units, rest) = crate::num::floor_div(whole, 10);
    push_int(out, units);
    if rest != 0 {
        out.append(".");
        push_int(out, rest);
    }
    proof {
        let sign = if n < 0 {
            seq!['-']
        } else {
            Seq::<char>::empty()
        };
        assert(signed =~= start + sign);
        if rest == 0 {
            assert(out@ =~= start + (sign + int_text(units as int)));
        } else {
            assert(out@ =~= start + (sign + int_text(units as int) + "."@ + int_text(
                rest as int,
            )));
        }
    }
}

proof fn lemma_nat_text_len(n: nat)
    ensures
        nat_text(n).len() >= 1,
        n < 10 <==> nat_text(n).len() == 1,
        n < 100 <==> nat_text(n).len() <= 2,
    decreases n,
{
    if n >= 10 {
        lemma_nat_text_len(n / 10);
    }
}

/// The number that a number's text stands for is that number.
pub proof fn int_text_reads_back(n: i64)
    ensures
        parsed_int(int_text(n as int)) == Some(n),
{
    let m = if n < 0 {
        (-n) as nat
    } else {
        n as nat
    };
    lemma_nat_text_digits(m);
    if n < 0 {
        assert(int_text(n as int).skip(1) =~= nat_text(m));
    } else {
        assert(is_digit(nat_text(m)[0]));
    }
}

pub proof fn lemma_nat_text_digits(n: nat)
    ensures
        nat_text(n).len() >= 1,
        all_digits(nat_text(n)),
        digits_value(nat_text(n)) == n,
    decreases n,
{
    if n < 10 {
        let s = nat_text(n);
        assert(s.drop_last().len() == 0);
        assert(digits_value(s.drop_last()) == 0);
    } else {
        lemma_nat_text_digits(n / 10);
        assert(nat_text(n).drop_last() =~= nat_text(n / 10));
    }
}

/// Zeros in front of a number do not change it.
pub proof fn lemma_zero_filled_digits(s: Seq<char>, width: nat)
    requires
        all_digits(s),
    ensures
        all_digits(zero_filled(s, width)),
        digits_value(zero_filled(s, width)) == digits_value(s),
        zero_filled(s, width).len() >= s.len(),
    decreases s.len(),
{
    let z = zero_filled(s, width);
    let zeros = z.take(z.len() - s.len());
    lemma_zeros_value(zeros);
    assert(z =~= zeros + s);
    lemma_digits_append(zeros, s);
}

/// Zeros in front of digits leave digits of the same value, which is not
/// negative.
pub proof fn lemma_zeros_in_front(zeros: Seq<char>, s: Seq<char>)
    requires
        forall|i: int| 0 <= i < zeros.len() ==> zeros[i] == '0',
        all_digits(s),
    ensures
        all_digits(zeros + s),
        digits_value(zeros + s) == digits_value(s),
        digits_value(s) >= 0,
{
    lemma_zeros_value(zeros);
    lemma_digits_append(zeros, s);
    lemma_digits_grow(s, 0);
}

proof fn lemma_zeros_value(s: Seq<char>)
    requires
        forall|i: int| 0 <= i < s.len() ==> s[i] == '0',
    ensures
        digits_value(s) == 0,
    decreases s.len(),
{
    if s.len() > 0 {
        lemma_zeros_value(s.drop_last());
    }
}

proof fn lemma_digits_append(a: Seq<char>, b: Seq<char>)
    requires
        digits_value(a) == 0,
    ensures
        digits_value(a + b) == digits_value(b),
    decreases b.len(),
{
    if b.len() == 0 {
        assert(a + b =~= a);
    } else {
        lemma_digits_append(a, b.drop_last());
        assert((a + b).drop_last() =~= a + b.drop_last());
    }
}

// ── Order ───────────────────────────────────────────────────────────────

/// `a` comes before `b`: character by character, a prefix before what it
/// begins.
pub open spec fn text_lt(a: Seq<char>, b: Seq<char>) -> bool
    decreases a.len(),
{
    if b.len() == 0 {
        false
    } else if a.len() == 0 {
        true
    } else if a[0] == b[0] {
        text_lt(a.skip(1), b.skip(1))
    } else {
        a[0] < b[0]
    }
}

pub fn before(a: &str, b: &str) -> (r: bool)
    ensures
        r == text_lt(a@, b@),
{
    let x = chars_of(a);
    let y = chars_of(b);
    let mut i: usize = 0;
    assert(a@.skip(0) == a@);
    assert(b@.skip(0) == b@);
    while i < x.len() && i < y.len()
        invariant
            x@ == a@,
            y@ == b@,
            i <= x@.len(),
            i <= y@.len(),
            text_lt(a@, b@) == text_lt(a@.skip(i as int), b@.skip(i as int)),
        decreases x@.len() - i,
    {
        if x[i] != y[i] {
            return x[i] < y[i];
        }
        assert(a@.skip(i as int).skip(1) == a@.skip(i + 1));
        assert(b@.skip(i as int).skip(1) == b@.skip(i + 1));
        i = i + 1;
    }
    i < y.len()
}

pub proof fn lemma_text_lt_irreflexive(a: Seq<char>)
    ensures
        !text_lt(a, a),
    decreases a.len(),
{
    if a.len() > 0 {
        lemma_text_lt_irreflexive(a.skip(1));
    }
}

pub proof fn lemma_text_lt_trans(a: Seq<char>, b: Seq<char>, c: Seq<char>)
    requires
        text_lt(a, b),
        text_lt(b, c),
    ensures
        text_lt(a, c),
    decreases a.len(),
{
    if a.len() > 0 {
        if a[0] == b[0] && b[0] == c[0] {
            lemma_text_lt_trans(a.skip(1), b.skip(1), c.skip(1));
        }
    }
}

pub proof fn lemma_text_lt_total(a: Seq<char>, b: Seq<char>)
    ensures
        text_lt(a, b) || a == b || text_lt(b, a),
        !(text_lt(a, b) && text_lt(b, a)),
    decreases a.len(),
{
    if a.len() > 0 && b.len() > 0 && a[0] == b[0] {
        lemma_text_lt_total(a.skip(1), b.skip(1));
        if a.skip(1) == b.skip(1) {
            assert(a =~= seq![a[0]] + a.skip(1));
            assert(b =~= seq![b[0]] + b.skip(1));
        }
    } else if a.len() == 0 && b.len() == 0 {
        assert(a =~= b);
    }
}

// ── Letter case ─────────────────────────────────────────────────────────

/// Equal once ASCII letters are taken in one case.
pub open spec fn same_ignoring_case(a: Seq<char>, b: Seq<char>) -> bool {
    a.map_values(|c: char| ascii_lower(c)) == b.map_values(|c: char| ascii_lower(c))
}

pub fn same_ignoring_ascii_case(a: &str, b: &str) -> (r: bool)
    ensures
        r == same_ignoring_case(a@, b@),
{
    let x = chars_of(a);
    let y = chars_of(b);
    let ghost p = a@.map_values(|c: char| ascii_lower(c));
    let ghost q = b@.map_values(|c: char| ascii_lower(c));
    if x.len() != y.len() {
        assert(p.len() != q.len());
        return false;
    }
    let mut i: usize = 0;
    while i < x.len()
        invariant
            x@ == a@,
            y@ == b@,
            x@.len() == y@.len(),
            p == a@.map_values(|c: char| ascii_lower(c)),
            q == b@.map_values(|c: char| ascii_lower(c)),
            i <= x@.len(),
            forall|j: int| 0 <= j < i ==> p[j] == q[j],
        decreases x@.len() - i,
    {
        if lower_char(x[i]) != lower_char(y[i]) {
            assert(p[i as int] != q[i as int]);
            return false;
        }
        assert(p[i as int] == q[i as int]);
        i = i + 1;
    }
    assert(p =~= q);
    true
}

pub open spec fn is_ascii_text(s: Seq<char>) -> bool {
    forall|i: int| 0 <= i < s.len() ==> (#[trigger] s[i] as u32) < 128
}

/// What `str::to_uppercase` makes of a text.
pub uninterp spec fn uppercased(s: Seq<char>) -> Seq<char>;

/// `str::to_uppercase`: the text in upper case as Unicode maps it. For ASCII
/// text that is letter by letter; what it is for other text is left to the
/// standard library and only named.
#[verifier::external_body]
pub(crate) fn to_upper(s: &str) -> (r: String)
    ensures
        r@ == uppercased(s@),
        is_ascii_text(s@) ==> r@ == s@.map_values(|c: char| ascii_upper(c)),
{
    s.to_uppercase()
}

/// What `char::is_alphanumeric` says of a character.
pub uninterp spec fn alphanumeric(c: char) -> bool;

/// `char::is_alphanumeric`: a letter or a number of any script. Among ASCII
/// characters those are the letters and the ten digits.
#[verifier::external_body]
pub(crate) fn is_alphanumeric(c: char) -> (r: bool)
    ensures
        r == alphanumeric(c),
        (c as u32) < 128 ==> r == (is_digit(c) || 'a' <= c <= 'z' || 'A' <= c <= 'Z'),
{
    c.is_alphanumeric()
}

/// How `str`'s `Debug` writes a text: quoted, with escapes.
pub uninterp spec fn quoted(s: Seq<char>) -> Seq<char>;

/// `format!` with `{:?}` on a `str`: the text between quotes, with the escapes
/// that `str::escape_debug` chooses.
#[verifier::external_body]
pub(crate) fn quote(s: &str) -> (r: String)
    ensures
        r@ == quoted(s@),
{
    format!("{s:?}")
}

// ── Splitting and joining ───────────────────────────────────────────────

/// The pieces between the separators, in order; one piece more than there are
/// separators.
pub open spec fn split_on(s: Seq<char>, sep: char) -> Seq<Seq<char>>
    decreases s.len(),
{
    if s.len() == 0 {
        seq![Seq::<char>::empty()]
    } else {
        let before = split_on(s.drop_last(), sep);
        if s.last() == sep {
            before.push(Seq::<char>::empty())
        } else {
            before.drop_last().push(before.last().push(s.last()))
        }
    }
}

/// The views of a list of strings.
pub open spec fn views(v: Seq<String>) -> Seq<Seq<char>> {
    v.map_values(|s: String| s@)
}

pub proof fn lemma_views_push(v: Seq<String>, s: String)
    ensures
        views(v.push(s)) == views(v).push(s@),
{
    assert(views(v.push(s)) =~= views(v).push(s@));
}

proof fn lemma_split_some(s: Seq<char>, sep: char)
    ensures
        split_on(s, sep).len() >= 1,
    decreases s.len(),
{
    if s.len() > 0 {
        lemma_split_some(s.drop_last(), sep);
    }
}

/// Two texts with a separator between them are split into the parts of the one
/// and those of the other.
pub proof fn lemma_split_sides(a: Seq<char>, sep: char, b: Seq<char>)
    ensures
        split_on(a.push(sep) + b, sep) == split_on(a, sep) + split_on(b, sep),
    decreases b.len(),
{
    let s = a.push(sep) + b;
    lemma_split_some(b, sep);
    if b.len() == 0 {
        assert(s =~= a.push(sep));
        assert(s.drop_last() =~= a);
        assert(split_on(s, sep) =~= split_on(a, sep) + split_on(b, sep));
    } else {
        assert(s.drop_last() =~= a.push(sep) + b.drop_last());
        lemma_split_sides(a, sep, b.drop_last());
        lemma_split_some(b.drop_last(), sep);
        assert(split_on(s, sep) =~= split_on(a, sep) + split_on(b, sep));
    }
}

/// A text without the separator is one part.
pub proof fn lemma_split_whole(s: Seq<char>, sep: char)
    requires
        !s.contains(sep),
    ensures
        split_on(s, sep) == seq![s],
    decreases s.len(),
{
    if s.len() > 0 {
        assert(s[s.len() - 1] == s.last());
        assert forall|j: int| 0 <= j < s.len() - 1 implies s.drop_last()[j] != sep by {
            assert(s[j] == s.drop_last()[j]);
        }
        lemma_split_whole(s.drop_last(), sep);
        assert(s.drop_last().push(s.last()) =~= s);
        assert(split_on(s, sep) =~= seq![s]);
    } else {
        assert(s =~= Seq::empty());
    }
}

pub fn split(s: &str, sep: char) -> (r: Vec<String>)
    ensures
        views(r@) == split_on(s@, sep),
        r@.len() >= 1,
{
    let v = chars_of(s);
    let mut out: Vec<String> = Vec::new();
    let mut piece = String::new();
    let mut i: usize = 0;
    assert(s@.take(0).len() == 0);
    assert(views(out@).push(piece@) =~= split_on(s@.take(0), sep));
    while i < v.len()
        invariant
            v@ == s@,
            i <= v@.len(),
            views(out@).push(piece@) == split_on(s@.take(i as int), sep),
        decreases v@.len() - i,
    {
        let c = v[i];
        let ghost done = s@.take(i as int);
        let ghost next = s@.take(i + 1);
        assert(next.drop_last() =~= done);
        assert(next.last() == c);
        proof {
            lemma_split_some(done, sep);
        }
        let ghost old_views = views(out@).push(piece@);
        if c == sep {
            proof {
                lemma_views_push(out@, piece);
            }
            out.push(piece);
            piece = String::new();
            assert(views(out@).push(piece@) =~= split_on(next, sep));
        } else {
            piece.push(c);
            assert(views(out@).push(piece@) =~= old_views.drop_last().push(
                old_views.last().push(c),
            ));
        }
        i = i + 1;
    }
    assert(s@.take(v@.len() as int) =~= s@);
    proof {
        lemma_views_push(out@, piece);
    }
    out.push(piece);
    out
}

/// The pieces one after another with `sep` between them.
pub open spec fn joined(parts: Seq<Seq<char>>, sep: Seq<char>) -> Seq<char>
    decreases parts.len(),
{
    if parts.len() == 0 {
        Seq::empty()
    } else if parts.len() == 1 {
        parts[0]
    } else {
        joined(parts.drop_last(), sep) + sep + parts.last()
    }
}

pub fn join(parts: &Vec<String>, sep: &str) -> (r: String)
    ensures
        r@ == joined(views(parts@), sep@),
{
    let mut out = String::new();
    let mut i: usize = 0;
    let ghost all = views(parts@);
    while i < parts.len()
        invariant
            all == views(parts@),
            i <= parts@.len(),
            out@ == joined(all.take(i as int), sep@),
        decreases parts@.len() - i,
    {
        assert(all.take(i + 1).drop_last() =~= all.take(i as int));
        assert(all.take(i + 1).last() == parts@[i as int]@);
        if i > 0 {
            out.append(sep);
        }
        out.append(parts[i].as_str());
        if i == 0 {
            assert(out@ =~= parts@[0]@);
        }
        i = i + 1;
    }
    assert(all.take(parts@.len() as int) =~= all);
    out
}

/// Where `sep` first stands in `s`, from `from` on; `s.len()` where it does not.
pub open spec fn first_at(s: Seq<char>, sep: char, from: int) -> int
    decreases s.len() - from,
{
    if from >= s.len() {
        s.len() as int
    } else if s[from] == sep {
        from
    } else {
        first_at(s, sep, from + 1)
    }
}

/// What stands before and what stands behind the first `sep`.
pub open spec fn split_once_at(s: Seq<char>, sep: char) -> Option<(Seq<char>, Seq<char>)> {
    let at = first_at(s, sep, 0);
    if at < s.len() {
        Some((s.take(at), s.skip(at + 1)))
    } else {
        None
    }
}

pub proof fn lemma_first_at(s: Seq<char>, sep: char, from: int)
    requires
        0 <= from <= s.len(),
    ensures
        from <= first_at(s, sep, from) <= s.len(),
        forall|j: int| from <= j < first_at(s, sep, from) ==> s[j] != sep,
        first_at(s, sep, from) < s.len() ==> s[first_at(s, sep, from)] == sep,
    decreases s.len() - from,
{
    if from < s.len() && s[from] != sep {
        lemma_first_at(s, sep, from + 1);
    }
}

pub fn split_once<'a>(s: &'a str, sep: char) -> (r: Option<(&'a str, &'a str)>)
    ensures
        match r {
            Some((a, b)) => split_once_at(s@, sep) == Some((a@, b@)),
            None => split_once_at(s@, sep) is None,
        },
{
    let v = chars_of(s);
    let mut i: usize = 0;
    while i < v.len()
        invariant
            v@ == s@,
            i <= v@.len(),
            first_at(s@, sep, 0) == first_at(s@, sep, i as int),
        decreases v@.len() - i,
    {
        if v[i] == sep {
            let a = s.substring_char(0, i);
            let b = s.substring_char(i + 1, v.len());
            assert(a@ =~= s@.take(i as int));
            assert(b@ =~= s@.skip(i + 1));
            return Some((a, b));
        }
        i = i + 1;
    }
    None
}

/// `s` with every `from` turned into `to`.
pub open spec fn replaced(s: Seq<char>, from: char, to: char) -> Seq<char> {
    s.map_values(
        |c: char|
            if c == from {
                to
            } else {
                c
            },
    )
}

pub fn replace(s: &str, from: char, to: char) -> (r: String)
    ensures
        r@ == replaced(s@, from, to),
{
    let v = chars_of(s);
    let mut out = String::new();
    let mut i: usize = 0;
    while i < v.len()
        invariant
            v@ == s@,
            i <= v@.len(),
            out@ =~= replaced(s@, from, to).take(i as int),
        decreases v@.len() - i,
    {
        if v[i] == from {
            out.push(to);
        } else {
            out.push(v[i]);
        }
        i = i + 1;
    }
    assert(replaced(s@, from, to).take(v@.len() as int) =~= replaced(s@, from, to));
    out
}

/// The characters that are digits, in order.
pub open spec fn digits_in(s: Seq<char>) -> Seq<char> {
    s.filter(|c: char| is_digit(c))
}

/// Only the digits of a text.
pub fn only_digits(s: &str) -> (r: String)
    ensures
        r@ == digits_in(s@),
{
    let v = chars_of(s);
    let mut out = String::new();
    let mut i: usize = 0;
    proof {
        reveal(Seq::filter);
    }
    assert(out@ =~= digits_in(s@.take(0)));
    while i < v.len()
        invariant
            v@ == s@,
            i <= v@.len(),
            out@ == digits_in(s@.take(i as int)),
        decreases v@.len() - i,
    {
        proof {
            reveal(Seq::filter);
        }
        assert(s@.take(i + 1).drop_last() =~= s@.take(i as int));
        if digit(v[i]) {
            out.push(v[i]);
        }
        i = i + 1;
    }
    assert(s@.take(v@.len() as int) =~= s@);
    out
}

} // verus!
