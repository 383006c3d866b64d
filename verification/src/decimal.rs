//! Decimal numbers as they are written, without rounding.

use vstd::prelude::*;
use vstd::string::*;
use crate::text::{
    all_digits, ascii_lower, before, chars_of, digit, digits_value, is_digit, lower_char, same,
    text_lt, text_of,
};

verus! {

/// A number: zero point `digits`, times ten to the `point`. The digits neither
/// start nor end with a zero; there are none where the number is zero.
#[derive(Debug)]
pub enum Decimal {
    Finite { negative: bool, digits: String, point: i64 },
    Infinite { negative: bool },
    NotANumber,
}

#[verifier::ext_equal]
pub enum DecimalView {
    Finite { negative: bool, digits: Seq<char>, point: int },
    Infinite { negative: bool },
    NotANumber,
}

impl View for Decimal {
    type V = DecimalView;

    open spec fn view(&self) -> DecimalView {
        match self {
            Decimal::Finite { negative, digits, point } => DecimalView::Finite {
                negative: *negative,
                digits: digits@,
                point: *point as int,
            },
            Decimal::Infinite { negative } => DecimalView::Infinite { negative: *negative },
            Decimal::NotANumber => DecimalView::NotANumber,
        }
    }
}

// ── Reading ─────────────────────────────────────────────────────────────

/// How many zeros a run of digits starts with.
pub open spec fn leading_zeros(s: Seq<char>) -> int
    decreases s.len(),
{
    if s.len() == 0 || s[0] != '0' {
        0
    } else {
        1 + leading_zeros(s.skip(1))
    }
}

/// A run of digits without the zeros at its end.
pub open spec fn without_end_zeros(s: Seq<char>) -> Seq<char>
    decreases s.len(),
{
    if s.len() == 0 || s.last() != '0' {
        s
    } else {
        without_end_zeros(s.drop_last())
    }
}

/// Beyond this many places before the point a number counts as infinite, and
/// with more zeros than the least behind it as zero.
pub const MOST_PLACES: i128 = 309;

pub const LEAST_PLACES: i128 = -323;

/// The number that digits with the point behind the first `point` of them make.
pub open spec fn normal(negative: bool, digits: Seq<char>, point: int) -> DecimalView {
    let lead = leading_zeros(digits);
    let kept = without_end_zeros(digits.skip(lead));
    if kept.len() == 0 || point - lead < LEAST_PLACES {
        DecimalView::Finite { negative, digits: Seq::empty(), point: 0 }
    } else if point - lead > MOST_PLACES {
        DecimalView::Infinite { negative }
    } else {
        DecimalView::Finite { negative, digits: kept, point: point - lead }
    }
}

/// Where the first of two characters stands, from a place on; behind the end
/// if neither does.
pub open spec fn first_of(s: Seq<char>, a: char, b: char, from: int) -> int
    decreases s.len() - from,
{
    if from >= s.len() {
        s.len() as int
    } else if s[from] == a || s[from] == b {
        from
    } else {
        first_of(s, a, b, from + 1)
    }
}

/// A whole number with or without a sign, at least one digit.
pub open spec fn exponent(s: Seq<char>) -> Option<int> {
    let signed = s.len() > 0 && (s[0] == '-' || s[0] == '+');
    let digits = if signed {
        s.skip(1)
    } else {
        s
    };
    if digits.len() == 0 || !all_digits(digits) {
        None
    } else if s[0] == '-' {
        Some(-digits_value(digits))
    } else {
        Some(digits_value(digits))
    }
}

/// Digits with at most one point among them, and at least one digit: all of
/// the digits, and how many stand before the point.
pub open spec fn mantissa(s: Seq<char>) -> Option<(Seq<char>, int)> {
    let p = first_of(s, '.', '.', 0);
    let whole = s.take(p);
    let part = if p < s.len() {
        s.skip(p + 1)
    } else {
        Seq::empty()
    };
    if all_digits(whole) && all_digits(part) && whole.len() + part.len() > 0 {
        Some((whole + part, whole.len() as int))
    } else {
        None
    }
}

/// A number without its sign.
pub open spec fn unsigned(s: Seq<char>, negative: bool) -> Option<DecimalView> {
    let low = s.map_values(|c: char| ascii_lower(c));
    if low == "inf"@ || low == "infinity"@ {
        Some(DecimalView::Infinite { negative })
    } else if low == "nan"@ {
        Some(DecimalView::NotANumber)
    } else {
        let e = first_of(s, 'e', 'E', 0);
        let power = if e < s.len() {
            exponent(s.skip(e + 1))
        } else {
            Some(0)
        };
        match (mantissa(s.take(e)), power) {
            (Some((digits, point)), Some(power)) => Some(normal(negative, digits, point + power)),
            _ => None,
        }
    }
}

/// The number that a text writes, if it writes one: with or without a sign,
/// digits with at most one point, and perhaps a power of ten.
pub open spec fn decimal_of(s: Seq<char>) -> Option<DecimalView> {
    if s.len() > 0 && (s[0] == '-' || s[0] == '+') {
        unsigned(s.skip(1), s[0] == '-')
    } else {
        unsigned(s, false)
    }
}

fn find_either(v: &Vec<char>, a: char, b: char, from: usize, to: usize) -> (r: usize)
    requires
        from <= to <= v@.len(),
    ensures
        r - from == first_of(v@.subrange(from as int, to as int), a, b, 0),
        from <= r <= to,
{
    let ghost s = v@.subrange(from as int, to as int);
    let mut i: usize = from;
    while i < to
        invariant
            from <= i <= to <= v@.len(),
            s == v@.subrange(from as int, to as int),
            first_of(s, a, b, 0) == first_of(s, a, b, i - from),
        decreases to - i,
    {
        assert(s[i - from] == v@[i as int]);
        if v[i] == a || v[i] == b {
            return i;
        }
        i = i + 1;
    }
    i
}

fn digits_only(v: &Vec<char>, from: usize, to: usize) -> (r: bool)
    requires
        from <= to <= v@.len(),
    ensures
        r == all_digits(v@.subrange(from as int, to as int)),
{
    let ghost s = v@.subrange(from as int, to as int);
    let mut i: usize = from;
    while i < to
        invariant
            from <= i <= to <= v@.len(),
            s == v@.subrange(from as int, to as int),
            forall|j: int| 0 <= j < i - from ==> is_digit(#[trigger] s[j]),
        decreases to - i,
    {
        assert(s[i - from] == v@[i as int]);
        if !digit(v[i]) {
            return false;
        }
        i = i + 1;
    }
    true
}

/// What a value beyond any length counts as.
const FAR: i128 = 0x1_0000_0000_0000_0000_0000_0000;

proof fn lemma_value_grows(s: Seq<char>, k: int)
    requires
        0 <= k <= s.len(),
        all_digits(s),
    ensures
        0 <= digits_value(s.take(k)) <= digits_value(s),
    decreases s.len(),
{
    if s.len() == 0 {
        assert(s.take(k) == s);
    } else if k == s.len() {
        assert(s.take(k) == s);
        lemma_value_grows(s.drop_last(), 0);
        assert(s.drop_last().take(0).len() == 0);
    } else {
        assert(s.drop_last().take(k) == s.take(k));
        lemma_value_grows(s.drop_last(), k);
    }
}

/// The value of some digits, or `FAR` if that is no more than it.
fn value_of(v: &Vec<char>, from: usize, to: usize) -> (r: i128)
    requires
        from <= to <= v@.len(),
        all_digits(v@.subrange(from as int, to as int)),
    ensures
        0 <= r <= FAR,
        r < FAR ==> r == digits_value(v@.subrange(from as int, to as int)),
        r == FAR ==> digits_value(v@.subrange(from as int, to as int)) >= FAR,
{
    let ghost s = v@.subrange(from as int, to as int);
    let mut out: i128 = 0;
    let mut i: usize = from;
    while i < to
        invariant
            from <= i <= to <= v@.len(),
            s == v@.subrange(from as int, to as int),
            all_digits(s),
            0 <= out < FAR,
            out == digits_value(s.take(i - from)),
        decreases to - i,
    {
        assert(s[i - from] == v@[i as int]);
        assert(is_digit(s[i - from]));
        assert(s.take(i - from + 1).drop_last() =~= s.take(i - from));
        let d: i128 = (v[i] as u32 - '0' as u32) as i128;
        out = 10 * out + d;
        if out >= FAR {
            proof {
                lemma_value_grows(s, i - from + 1);
            }
            return FAR;
        }
        i = i + 1;
    }
    assert(s.take(to - from) =~= s);
    out
}

fn read_exponent(v: &Vec<char>, from: usize) -> (r: Option<i128>)
    requires
        from <= v@.len(),
    ensures
        match r {
            Some(n) => exponent(v@.skip(from as int)) matches Some(e) && -FAR <= n <= FAR && (
            -FAR < n < FAR ==> n == e) && (n == FAR ==> e >= FAR) && (n == -FAR ==> e <= -FAR),
            None => exponent(v@.skip(from as int)) is None,
        },
{
    let ghost s = v@.skip(from as int);
    let end: usize = v.len();
    assert(s =~= v@.subrange(from as int, end as int));
    if from < end {
        assert(s[0] == v@[from as int]);
    }
    let negative = from < end && v[from] == '-';
    let signed = from < end && (v[from] == '-' || v[from] == '+');
    let start: usize = if signed {
        from + 1
    } else {
        from
    };
    let ghost digits = v@.subrange(start as int, end as int);
    proof {
        if signed {
            assert(s.skip(1) =~= digits);
        }
    }
    if start == end || !digits_only(v, start, end) {
        return None;
    }
    let n = value_of(v, start, end);
    if negative {
        Some(0 - n)
    } else {
        Some(n)
    }
}

fn normalised(negative: bool, digits: &Vec<char>, point: i128) -> (r: Decimal)
    requires
        -3 * FAR <= point <= 3 * FAR,
    ensures
        r@ == normal(negative, digits@, point as int),
{
    let end: usize = digits.len();
    let mut lead: usize = 0;
    assert(digits@.skip(0) =~= digits@);
    while lead < end && digits[lead] == '0'
        invariant
            lead <= end == digits@.len(),
            leading_zeros(digits@) == lead + leading_zeros(digits@.skip(lead as int)),
        decreases end - lead,
    {
        assert(digits@.skip(lead as int).skip(1) =~= digits@.skip(lead + 1));
        assert(digits@.skip(lead as int)[0] == digits@[lead as int]);
        lead = lead + 1;
    }
    proof {
        if lead < end {
            assert(digits@.skip(lead as int)[0] == digits@[lead as int]);
        }
    }
    let ghost rest = digits@.skip(lead as int);
    let mut last: usize = end;
    assert(digits@.subrange(lead as int, end as int) =~= rest);
    while last > lead && digits[last - 1] == '0'
        invariant
            lead <= last <= end == digits@.len(),
            without_end_zeros(rest) == without_end_zeros(
                digits@.subrange(lead as int, last as int),
            ),
        decreases last - lead,
    {
        let ghost here = digits@.subrange(lead as int, last as int);
        assert(here.last() == digits@[last - 1]);
        assert(here.drop_last() =~= digits@.subrange(lead as int, last - 1));
        last = last - 1;
    }
    proof {
        let here = digits@.subrange(lead as int, last as int);
        if last > lead {
            assert(here.last() == digits@[last - 1]);
        }
    }
    let places: i128 = point - lead as i128;
    if last == lead || places < LEAST_PLACES {
        let none = String::new();
        assert(none@ =~= Seq::<char>::empty());
        Decimal::Finite { negative, digits: none, point: 0 }
    } else if places > MOST_PLACES {
        Decimal::Infinite { negative }
    } else {
        Decimal::Finite { negative, digits: text_of(digits, lead, last), point: places as i64 }
    }
}

fn lowered(v: &Vec<char>) -> (r: String)
    ensures
        r@ == v@.map_values(|c: char| ascii_lower(c)),
{
    let mut out = String::new();
    let mut i: usize = 0;
    let ghost wanted = v@.map_values(|c: char| ascii_lower(c));
    assert(out@ =~= wanted.take(0));
    while i < v.len()
        invariant
            i <= v@.len(),
            wanted == v@.map_values(|c: char| ascii_lower(c)),
            out@ == wanted.take(i as int),
        decreases v@.len() - i,
    {
        out.push(lower_char(v[i]));
        assert(out@ =~= wanted.take(i + 1));
        i = i + 1;
    }
    assert(wanted.take(v@.len() as int) =~= wanted);
    out
}

fn read_unsigned(v: &Vec<char>, negative: bool) -> (r: Option<Decimal>)
    ensures
        match r {
            Some(d) => unsigned(v@, negative) == Some(d@),
            None => unsigned(v@, negative) is None,
        },
{
    let low = lowered(v);
    if same(low.as_str(), "inf") || same(low.as_str(), "infinity") {
        return Some(Decimal::Infinite { negative });
    }
    if same(low.as_str(), "nan") {
        return Some(Decimal::NotANumber);
    }
    let end: usize = v.len();
    assert(v@.subrange(0, end as int) =~= v@);
    let e = find_either(v, 'e', 'E', 0, end);
    let ghost m = v@.take(e as int);
    assert(v@.subrange(0, e as int) =~= m);
    let p = find_either(v, '.', '.', 0, e);
    let after: usize = if p < e {
        p + 1
    } else {
        e
    };
    let ghost whole = m.take(p as int);
    let ghost part = if p < m.len() {
        m.skip(p + 1)
    } else {
        Seq::empty()
    };
    assert(v@.subrange(0, p as int) =~= whole);
    assert(v@.subrange(after as int, e as int) =~= part);
    let power: i128 = if e < end {
        match read_exponent(v, e + 1) {
            Some(n) => n,
            None => return None,
        }
    } else {
        0
    };
    if !digits_only(v, 0, p) || !digits_only(v, after, e) || p + (e - after) == 0 {
        return None;
    }
    let mut digits: Vec<char> = Vec::new();
    let mut i: usize = 0;
    while i < e
        invariant
            i <= e <= v@.len(),
            p <= e,
            after == if p < e {
                p + 1
            } else {
                e as int
            },
            digits@ == if i <= p {
                v@.subrange(0, i as int)
            } else {
                v@.subrange(0, p as int) + v@.subrange(after as int, i as int)
            },
        decreases e - i,
    {
        if i != p {
            digits.push(v[i]);
        }
        i = i + 1;
        assert(digits@ =~= if i <= p {
            v@.subrange(0, i as int)
        } else {
            v@.subrange(0, p as int) + v@.subrange(after as int, i as int)
        });
    }
    assert(digits@ =~= whole + part);
    let point: i128 = p as i128 + power;
    let out = normalised(negative, &digits, point);
    proof {
        lemma_far(negative, digits@, p as int, power as int);
    }
    Some(out)
}

/// A power of ten that is far off makes a number infinite or zero, however far
/// off it is.
proof fn lemma_far(negative: bool, digits: Seq<char>, p: int, power: int)
    requires
        0 <= p <= 0xffff_ffff_ffff_ffff,
        0 <= digits.len() <= 0xffff_ffff_ffff_ffff,
    ensures
        forall|e: int|
            #![trigger normal(negative, digits, p + e)]
            e >= FAR ==> normal(negative, digits, p + e) == normal(negative, digits, p + FAR),
        forall|e: int|
            #![trigger normal(negative, digits, p + e)]
            e <= -FAR ==> normal(negative, digits, p + e) == normal(negative, digits, p - FAR),
{
    lemma_leading(digits);
}

proof fn lemma_leading(s: Seq<char>)
    ensures
        0 <= leading_zeros(s) <= s.len(),
        leading_zeros(s) < s.len() ==> s[leading_zeros(s)] != '0',
        forall|i: int| 0 <= i < leading_zeros(s) ==> #[trigger] s[i] == '0',
    decreases s.len(),
{
    if s.len() > 0 && s[0] == '0' {
        lemma_leading(s.skip(1));
        assert forall|i: int| 0 <= i < leading_zeros(s) implies #[trigger] s[i] == '0' by {
            if i > 0 {
                assert(s.skip(1)[i - 1] == '0');
            }
        }
    }
}

/// Reads a decimal number.
pub fn read_decimal(s: &str) -> (r: Option<Decimal>)
    ensures
        match r {
            Some(d) => decimal_of(s@) == Some(d@),
            None => decimal_of(s@) is None,
        },
{
    let v = chars_of(s);
    if v.len() > 0 && (v[0] == '-' || v[0] == '+') {
        let mut rest: Vec<char> = Vec::new();
        let mut i: usize = 1;
        while i < v.len()
            invariant
                1 <= i <= v@.len(),
                rest@ == v@.subrange(1, i as int),
            decreases v@.len() - i,
        {
            rest.push(v[i]);
            assert(rest@ =~= v@.subrange(1, i + 1));
            i = i + 1;
        }
        assert(rest@ =~= s@.skip(1));
        read_unsigned(&rest, v[0] == '-')
    } else {
        read_unsigned(&v, false)
    }
}

// ── Writing ─────────────────────────────────────────────────────────────

pub open spec fn zeros(n: int) -> Seq<char> {
    Seq::new(
        if n < 0 {
            0
        } else {
            n as nat
        },
        |i: int| '0',
    )
}

/// A number written out with all its places, and a point only where digits
/// stand behind it.
pub open spec fn decimal_text(d: DecimalView) -> Seq<char> {
    match d {
        DecimalView::NotANumber => "NaN"@,
        DecimalView::Infinite { negative } => if negative {
            "-inf"@
        } else {
            "inf"@
        },
        DecimalView::Finite { negative, digits, point } => {
            let sign = if negative {
                seq!['-']
            } else {
                Seq::empty()
            };
            if digits.len() == 0 {
                sign + seq!['0']
            } else if point <= 0 {
                sign + seq!['0', '.'] + zeros(-point) + digits
            } else if point >= digits.len() {
                sign + digits + zeros(point - digits.len())
            } else {
                sign + digits.take(point) + seq!['.'] + digits.skip(point)
            }
        },
    }
}

fn push_zeros(out: &mut String, n: u64)
    ensures
        final(out)@ == old(out)@ + zeros(n as int),
{
    let ghost start = out@;
    let mut i: u64 = 0;
    while i < n
        invariant
            i <= n,
            out@ == start + zeros(i as int),
        decreases n - i,
    {
        out.push('0');
        assert(out@ =~= start + zeros(i + 1));
        i = i + 1;
    }
}

fn push_chars(out: &mut String, v: &Vec<char>, from: usize, to: usize)
    requires
        from <= to <= v@.len(),
    ensures
        final(out)@ == old(out)@ + v@.subrange(from as int, to as int),
{
    let part = text_of(v, from, to);
    out.append(part.as_str());
}

impl Decimal {
    /// The number written out.
    pub fn to_text(&self) -> (r: String)
        ensures
            r@ == decimal_text(self@),
    {
        let (negative, digits, point) = match self {
            Decimal::NotANumber => return "NaN".to_string(),
            Decimal::Infinite { negative } => return if *negative {
                "-inf".to_string()
            } else {
                "inf".to_string()
            },
            Decimal::Finite { negative, digits, point } => (*negative, digits, *point),
        };
        let v = chars_of(digits.as_str());
        let len: usize = v.len();
        let mut out = String::new();
        if negative {
            out.push('-');
        }
        let ghost sign = out@;
        assert(sign =~= if negative {
            seq!['-']
        } else {
            Seq::empty()
        });
        if len == 0 {
            out.push('0');
            assert(out@ =~= sign + seq!['0']);
        } else if point <= 0 {
            out.push('0');
            out.push('.');
            assert(out@ =~= sign + seq!['0', '.']);
            push_zeros(&mut out, (0 - point as i128) as u64);
            push_chars(&mut out, &v, 0, len);
            assert(v@.subrange(0, len as int) =~= v@);
        } else if point as u128 >= len as u128 {
            push_chars(&mut out, &v, 0, len);
            assert(v@.subrange(0, len as int) =~= v@);
            push_zeros(&mut out, (point as u128 - len as u128) as u64);
        } else {
            push_chars(&mut out, &v, 0, point as usize);
            assert(v@.subrange(0, point as int) =~= v@.take(point as int));
            let ghost head = out@;
            out.push('.');
            assert(out@ =~= head + seq!['.']);
            push_chars(&mut out, &v, point as usize, len);
            assert(v@.subrange(point as int, len as int) =~= v@.skip(point as int));
        }
        out
    }
}

// ── Order ───────────────────────────────────────────────────────────────

/// Whether one number without its sign is less than another.
pub open spec fn smaller(a: Seq<char>, ap: int, b: Seq<char>, bp: int) -> bool {
    if a.len() == 0 || b.len() == 0 {
        a.len() == 0 && b.len() > 0
    } else {
        ap < bp || (ap == bp && text_lt(a, b))
    }
}

/// Whether one number is less than another; what is no number is not less than
/// anything, nor anything than it.
pub open spec fn decimal_lt(a: DecimalView, b: DecimalView) -> bool {
    match (a, b) {
        (DecimalView::NotANumber, _) => false,
        (_, DecimalView::NotANumber) => false,
        (DecimalView::Infinite { negative }, DecimalView::Infinite { negative: other }) => negative
            && !other,
        (DecimalView::Infinite { negative }, _) => negative,
        (_, DecimalView::Infinite { negative }) => !negative,
        (
            DecimalView::Finite { negative: an, digits: a, point: ap },
            DecimalView::Finite { negative: bn, digits: b, point: bp },
        ) => if an && !bn {
            a.len() > 0 || b.len() > 0
        } else if !an && bn {
            false
        } else if an {
            smaller(b, bp, a, ap)
        } else {
            smaller(a, ap, b, bp)
        },
    }
}

fn is_smaller(a: &str, ap: i64, b: &str, bp: i64) -> (r: bool)
    ensures
        r == smaller(a@, ap as int, b@, bp as int),
{
    if a.is_empty() || b.is_empty() {
        a.is_empty() && !b.is_empty()
    } else {
        ap < bp || (ap == bp && before(a, b))
    }
}

impl Decimal {
    /// Whether this number is less than another.
    pub fn is_less(&self, other: &Decimal) -> (r: bool)
        ensures
            r == decimal_lt(self@, other@),
    {
        match (self, other) {
            (Decimal::NotANumber, _) => false,
            (_, Decimal::NotANumber) => false,
            (Decimal::Infinite { negative }, Decimal::Infinite { negative: right }) => *negative
                && !*right,
            (Decimal::Infinite { negative }, _) => *negative,
            (_, Decimal::Infinite { negative }) => !*negative,
            (
                Decimal::Finite { negative: an, digits: a, point: ap },
                Decimal::Finite { negative: bn, digits: b, point: bp },
            ) => if *an && !*bn {
                !a.as_str().is_empty() || !b.as_str().is_empty()
            } else if !*an && *bn {
                false
            } else if *an {
                is_smaller(b.as_str(), *bp, a.as_str(), *ap)
            } else {
                is_smaller(a.as_str(), *ap, b.as_str(), *bp)
            },
        }
    }

    /// The number as a fraction: exact for one of up to eighteen places before
    /// and behind the point, with further places cut off; the largest number
    /// there is where it has more places before the point, and zero where it is
    /// no number.
    pub fn share(&self) -> (r: (i64, i64))
        ensures
            r == share_of(self@),
            r.1 > 0,
    {
        match self {
            Decimal::NotANumber => (0, 1),
            Decimal::Infinite { negative } => (with_sign(*negative, i64::MAX), 1),
            Decimal::Finite { negative, digits, point } => {
                let v = chars_of(digits.as_str());
                if v.len() == 0 || *point <= -18 {
                    return (0, 1);
                }
                if *point > 18 {
                    return (with_sign(*negative, i64::MAX), 1);
                }
                let room: usize = if *point < 0 {
                    (18 + *point) as usize
                } else {
                    18
                };
                let used: usize = if v.len() < room {
                    v.len()
                } else {
                    room
                };
                let value = leading_value(&v, used);
                if used as i64 >= *point {
                    (with_sign(*negative, value), ten_to((used as i64 - *point) as usize))
                } else {
                    let gap: usize = (*point - used as i64) as usize;
                    let factor = ten_to(gap);
                    proof {
                        lemma_powers_add(used as int, gap as int);
                        lemma_power(gap as int);
                        lemma_power(used + gap);
                        assert(0 <= value * factor <= power(used as int) * factor)
                            by (nonlinear_arith)
                            requires
                                0 <= value <= power(used as int),
                                0 <= factor,
                        ;
                    }
                    (with_sign(*negative, value * factor), 1)
                }
            },
        }
    }
}

/// A number with a sign put before it.
pub open spec fn signed(negative: bool, n: int) -> i64 {
    if negative {
        (-n) as i64
    } else {
        n as i64
    }
}

fn with_sign(negative: bool, n: i64) -> (r: i64)
    requires
        n >= 0,
    ensures
        r == signed(negative, n as int),
{
    if negative {
        0 - n
    } else {
        n
    }
}

fn ten_to(n: usize) -> (r: i64)
    requires
        n <= 18,
    ensures
        r == power(n as int),
        r > 0,
{
    let mut out: i64 = 1;
    let mut i: usize = 0;
    while i < n
        invariant
            i <= n <= 18,
            out == power(i as int),
        decreases n - i,
    {
        proof {
            lemma_power(i as int);
        }
        out = out * 10;
        i = i + 1;
    }
    proof {
        lemma_power(n as int);
    }
    out
}

fn leading_value(v: &Vec<char>, used: usize) -> (r: i64)
    requires
        used <= v@.len(),
        used <= 18,
    ensures
        r == taken_value(v@.take(used as int)),
        0 <= r <= power(used as int),
{
    let mut num: i64 = 0;
    let mut k: usize = 0;
    assert(v@.take(0) =~= Seq::<char>::empty());
    while k < used
        invariant
            k <= used <= v@.len(),
            used <= 18,
            0 <= num < power(k as int),
            num == taken_value(v@.take(k as int)),
        decreases used - k,
    {
        proof {
            lemma_power(k as int);
            assert(v@.take(k + 1).drop_last() =~= v@.take(k as int));
        }
        let c = v[k];
        let d: i64 = if digit(c) {
            (c as u32 - '0' as u32) as i64
        } else {
            0
        };
        num = num * 10 + d;
        k = k + 1;
    }
    num
}

pub open spec fn power(n: int) -> int
    decreases n,
{
    if n <= 0 {
        1
    } else {
        10 * power(n - 1)
    }
}

proof fn lemma_power_grows(a: int, b: int)
    requires
        0 <= a <= b,
    ensures
        1 <= power(a) <= power(b),
    decreases b,
{
    if a < b {
        lemma_power_grows(a, b - 1);
    } else if a > 0 {
        lemma_power_grows(a - 1, a - 1);
    }
}

pub proof fn lemma_powers_add(a: int, b: int)
    requires
        0 <= a,
        0 <= b,
    ensures
        power(a) * power(b) == power(a + b),
    decreases b,
{
    if b > 0 {
        lemma_powers_add(a, b - 1);
        assert(power(a) * (10 * power(b - 1)) == 10 * (power(a) * power(b - 1)))
            by (nonlinear_arith);
    } else {
        assert(power(a) * 1 == power(a));
    }
}

pub proof fn lemma_power(n: int)
    requires
        0 <= n <= 18,
    ensures
        1 <= power(n) <= 1_000_000_000_000_000_000,
        n < 18 ==> power(n + 1) == 10 * power(n) && power(n) <= 100_000_000_000_000_000,
{
    reveal_with_fuel(power, 19);
    assert(power(17) == 100_000_000_000_000_000);
    assert(power(18) == 1_000_000_000_000_000_000);
    lemma_power_grows(n, 18);
    if n < 18 {
        lemma_power_grows(n, 17);
    }
}

/// The value of some digits; what is no digit counts as zero.
pub open spec fn taken_value(s: Seq<char>) -> int
    decreases s.len(),
{
    if s.len() == 0 {
        0
    } else {
        10 * taken_value(s.drop_last()) + (if is_digit(s.last()) {
            s.last() as int - '0' as int
        } else {
            0
        })
    }
}

/// A number as a fraction.
pub open spec fn share_of(d: DecimalView) -> (i64, i64) {
    match d {
        DecimalView::NotANumber => (0, 1),
        DecimalView::Infinite { negative } => (signed(negative, i64::MAX as int), 1),
        DecimalView::Finite { negative, digits, point } => if digits.len() == 0 || point <= -18 {
            (0, 1)
        } else if point > 18 {
            (signed(negative, i64::MAX as int), 1)
        } else {
            let room = if point < 0 {
                18 + point
            } else {
                18
            };
            let used = if digits.len() < room {
                digits.len() as int
            } else {
                room
            };
            let value = taken_value(digits.take(used));
            if used >= point {
                (signed(negative, value), power(used - point) as i64)
            } else {
                (signed(negative, value * power(point - used)), 1)
            }
        },
    }
}

// ── Reading back ────────────────────────────────────────────────────────

impl DecimalView {
    /// Written in the one way in which a number is kept.
    pub open spec fn normal_form(self) -> bool {
        match self {
            DecimalView::Finite { negative, digits, point } => {
                &&& all_digits(digits)
                &&& digits.len() == 0 ==> point == 0
                &&& digits.len() > 0 ==> digits[0] != '0' && digits.last() != '0' && LEAST_PLACES
                    <= point <= MOST_PLACES
            },
            _ => true,
        }
    }
}

proof fn lemma_first_of(s: Seq<char>, a: char, b: char, from: int, p: int)
    requires
        0 <= from <= p <= s.len(),
        forall|i: int| from <= i < p ==> #[trigger] s[i] != a && s[i] != b,
        p < s.len() ==> s[p] == a || s[p] == b,
    ensures
        first_of(s, a, b, from) == p,
    decreases s.len() - from,
{
    if from < p {
        lemma_first_of(s, a, b, from + 1, p);
    }
}

pub proof fn lemma_leading_is(s: Seq<char>, k: int)
    requires
        0 <= k <= s.len(),
        forall|i: int| 0 <= i < k ==> #[trigger] s[i] == '0',
        k < s.len() ==> s[k] != '0',
    ensures
        leading_zeros(s) == k,
{
    lemma_leading(s);
    let n = leading_zeros(s);
    if n < k {
        assert(s[n] == '0');
    }
    if k < n {
        assert(s[k] == '0');
    }
}

pub proof fn lemma_end_zeros(d: Seq<char>, m: int)
    requires
        m >= 0,
        d.len() > 0 ==> d.last() != '0',
    ensures
        without_end_zeros(d + zeros(m)) == d,
    decreases m,
{
    if m == 0 {
        assert(d + zeros(0) =~= d);
    } else {
        assert((d + zeros(m)).drop_last() =~= d + zeros(m - 1));
        assert((d + zeros(m)).last() == '0');
        lemma_end_zeros(d, m - 1);
    }
}

/// Digits before and behind a point make the number that they are the digits
/// of.
pub proof fn lemma_plain(whole: Seq<char>, part: Seq<char>, dotted: bool, negative: bool)
    requires
        all_digits(whole),
        all_digits(part),
        whole.len() > 0,
        !dotted ==> part.len() == 0,
    ensures
        ({
            let s = if dotted {
                whole + seq!['.'] + part
            } else {
                whole
            };
            unsigned(s, negative) == Some(normal(negative, whole + part, whole.len() as int))
        }),
{
    let s = if dotted {
        whole + seq!['.'] + part
    } else {
        whole
    };
    let low = s.map_values(|c: char| ascii_lower(c));
    assert(is_digit(whole[0]));
    assert(s[0] == whole[0] && low[0] == ascii_lower(s[0]));
    reveal_strlit("inf");
    reveal_strlit("infinity");
    reveal_strlit("nan");
    assert(low != "inf"@ && low != "infinity"@ && low != "nan"@) by {
        assert("inf"@[0] == 'i' && "infinity"@[0] == 'i' && "nan"@[0] == 'n');
    }
    assert forall|i: int| 0 <= i < s.len() implies #[trigger] s[i] != 'e' && s[i] != 'E' by {
        if i < whole.len() {
            assert(is_digit(whole[i]));
        } else if i > whole.len() {
            assert(is_digit(part[i - whole.len() - 1]));
        }
    }
    lemma_first_of(s, 'e', 'E', 0, s.len() as int);
    let m = s.take(s.len() as int);
    assert(m =~= s);
    assert forall|i: int| 0 <= i < whole.len() implies #[trigger] s[i] != '.' by {
        assert(is_digit(whole[i]));
    }
    lemma_first_of(m, '.', '.', 0, whole.len() as int);
    assert(m.take(whole.len() as int) =~= whole);
    if dotted {
        assert(m.skip(whole.len() as int + 1) =~= part);
    } else {
        assert(part =~= Seq::<char>::empty());
    }
}

/// What stands before the point when a number is written out.
spec fn whole_of(digits: Seq<char>, point: int) -> Seq<char> {
    if digits.len() == 0 || point <= 0 {
        seq!['0']
    } else if point >= digits.len() {
        digits + zeros(point - digits.len())
    } else {
        digits.take(point)
    }
}

/// What stands behind it.
spec fn part_of(digits: Seq<char>, point: int) -> Seq<char> {
    if digits.len() == 0 || point >= digits.len() {
        Seq::empty()
    } else if point <= 0 {
        zeros(-point) + digits
    } else {
        digits.skip(point)
    }
}

proof fn lemma_whole_digits(digits: Seq<char>, point: int)
    requires
        all_digits(digits),
    ensures
        all_digits(whole_of(digits, point)),
        whole_of(digits, point).len() > 0,
{
    let whole = whole_of(digits, point);
    assert forall|i: int| 0 <= i < whole.len() implies is_digit(#[trigger] whole[i]) by {
        if digits.len() > 0 && point > 0 && i < digits.len() {
            assert(whole[i] == digits[i]);
        }
    }
}

proof fn lemma_part_digits(digits: Seq<char>, point: int)
    requires
        all_digits(digits),
    ensures
        all_digits(part_of(digits, point)),
{
    let part = part_of(digits, point);
    assert forall|i: int| 0 <= i < part.len() implies is_digit(#[trigger] part[i]) by {
        if point <= 0 {
            if i >= -point {
                assert(part[i] == digits[i + point]);
            }
        } else {
            assert(part[i] == digits[i + point]);
        }
    }
}

proof fn lemma_same_number(negative: bool, digits: Seq<char>, point: int)
    requires
        (DecimalView::Finite { negative, digits, point }).normal_form(),
    ensures
        normal(
            negative,
            whole_of(digits, point) + part_of(digits, point),
            whole_of(digits, point).len() as int,
        ) == (DecimalView::Finite { negative, digits, point }),
{
    let all = whole_of(digits, point) + part_of(digits, point);
    let len = digits.len() as int;
    lemma_end_zeros(digits, 0);
    assert(digits + zeros(0) =~= digits);
    if len == 0 {
        lemma_leading_is(all, 1);
        assert(all.skip(1) =~= Seq::<char>::empty());
        assert(digits =~= Seq::<char>::empty());
    } else if point <= 0 {
        let k = 1 - point;
        assert(all[k] == digits[0]);
        lemma_leading_is(all, k);
        assert(all.skip(k) =~= digits);
    } else if point >= len {
        assert(all =~= digits + zeros(point - len));
        lemma_leading_is(all, 0);
        assert(all.skip(0) =~= all);
        lemma_end_zeros(digits, point - len);
    } else {
        assert(all =~= digits);
        lemma_leading_is(all, 0);
        assert(all.skip(0) =~= all);
    }
}

proof fn lemma_finite_reads_back(negative: bool, digits: Seq<char>, point: int)
    requires
        (DecimalView::Finite { negative, digits, point }).normal_form(),
    ensures
        decimal_of(decimal_text(DecimalView::Finite { negative, digits, point })) == Some(
            DecimalView::Finite { negative, digits, point },
        ),
{
    let text = decimal_text(DecimalView::Finite { negative, digits, point });
    let whole = whole_of(digits, point);
    let part = part_of(digits, point);
    let dotted = digits.len() > 0 && point < digits.len();
    let body = if dotted {
        whole + seq!['.'] + part
    } else {
        whole
    };
    lemma_whole_digits(digits, point);
    lemma_part_digits(digits, point);
    lemma_plain(whole, part, dotted, negative);
    lemma_same_number(negative, digits, point);
    if negative {
        assert(text =~= seq!['-'] + body);
        assert(text[0] == '-');
        assert(text.skip(1) =~= body);
    } else {
        assert(text =~= body);
        assert(is_digit(whole[0]));
        assert(text[0] == whole[0]);
    }
}

/// A number that is written out reads back as the same number.
pub proof fn a_written_number_reads_back(d: DecimalView)
    requires
        d.normal_form(),
    ensures
        decimal_of(decimal_text(d)) == Some(d),
{
    match d {
        DecimalView::NotANumber => {
            reveal_strlit("NaN");
            reveal_strlit("nan");
            reveal_strlit("inf");
            reveal_strlit("infinity");
            let low = "NaN"@.map_values(|c: char| ascii_lower(c));
            assert(low =~= "nan"@);
            assert("nan"@[0] == 'n' && "inf"@[0] == 'i' && "infinity"@[0] == 'i');
        },
        DecimalView::Infinite { negative } => {
            reveal_strlit("inf");
            reveal_strlit("-inf");
            let low = "inf"@.map_values(|c: char| ascii_lower(c));
            assert(low =~= "inf"@);
            assert("-inf"@.skip(1) =~= "inf"@);
        },
        DecimalView::Finite { negative, digits, point } => {
            lemma_finite_reads_back(negative, digits, point);
        },
    }
}

/// A number that was read is in the form in which numbers are kept.
pub proof fn a_number_that_was_read_is_in_normal_form(s: Seq<char>)
    ensures
        decimal_of(s) matches Some(d) ==> d.normal_form(),
{
    let body = if s.len() > 0 && (s[0] == '-' || s[0] == '+') {
        s.skip(1)
    } else {
        s
    };
    let negative = s.len() > 0 && s[0] == '-';
    let e = first_of(body, 'e', 'E', 0);
    let power = if e < body.len() {
        exponent(body.skip(e + 1))
    } else {
        Some(0)
    };
    if let (Some((digits, point)), Some(power)) = (mantissa(body.take(e)), power) {
        assert(all_digits(digits));
        lemma_normal(negative, digits, point + power);
        lemma_normal(false, digits, point + power);
    }
}

proof fn lemma_normal(negative: bool, digits: Seq<char>, point: int)
    requires
        all_digits(digits),
    ensures
        normal(negative, digits, point).normal_form(),
{
    lemma_leading(digits);
    let lead = leading_zeros(digits);
    let rest = digits.skip(lead);
    lemma_trailing(rest);
    let kept = without_end_zeros(rest);
    if kept.len() > 0 {
        assert(kept[0] == rest[0] && rest[0] == digits[lead]);
        assert forall|i: int| 0 <= i < kept.len() implies is_digit(#[trigger] kept[i]) by {
            assert(kept[i] == rest[i] && rest[i] == digits[lead + i]);
            assert(is_digit(digits[lead + i]));
        }
    }
}

proof fn lemma_trailing(s: Seq<char>)
    ensures
        without_end_zeros(s).len() <= s.len(),
        without_end_zeros(s) == s.take(without_end_zeros(s).len() as int),
        without_end_zeros(s).len() > 0 ==> without_end_zeros(s).last() != '0',
    decreases s.len(),
{
    if s.len() > 0 && s.last() == '0' {
        lemma_trailing(s.drop_last());
        let n = without_end_zeros(s).len() as int;
        assert(s.drop_last().take(n) =~= s.take(n));
    } else {
        assert(s.take(s.len() as int) =~= s);
    }
}

} // verus!
