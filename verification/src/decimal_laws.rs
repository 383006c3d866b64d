//! What decimal numbers are worth, and how they compare.

use vstd::arithmetic::power::pow;
use vstd::prelude::*;
use crate::decimal::{
    decimal_lt, decimal_of, lemma_end_zeros, lemma_leading_is, lemma_plain, normal, power, share_of,
    taken_value, zeros, DecimalView,
};
use crate::health_laws::{comes_before, texts_are_in_dictionary_order};
use crate::text::{all_digits, digits_value, is_digit};

verus! {

/// A number with digits behind a point stands for those digits, with the point
/// where it is; a sign in front is its sign.
pub proof fn a_decimal_stands_for_its_digits(whole: Seq<char>, part: Seq<char>)
    requires
        all_digits(whole),
        all_digits(part),
        whole.len() > 0,
    ensures
        decimal_of(whole + seq!['.'] + part) == Some(
            normal(false, whole + part, whole.len() as int),
        ),
        decimal_of(seq!['-'] + (whole + seq!['.'] + part)) == Some(
            normal(true, whole + part, whole.len() as int),
        ),
        decimal_of(whole) == Some(normal(false, whole, whole.len() as int)),
{
    let s = whole + seq!['.'] + part;
    lemma_plain(whole, part, true, false);
    lemma_plain(whole, part, true, true);
    lemma_plain(whole, Seq::empty(), false, false);
    assert(whole + Seq::<char>::empty() =~= whole);
    assert(is_digit(whole[0]));
    assert(s[0] == whole[0]);
    assert((seq!['-'] + s).skip(1) =~= s);
}

/// Zeros in front of the first digit and behind the last do not change a number,
/// as long as the point stays where it is.
pub proof fn zeros_at_the_ends_do_not_count(
    negative: bool,
    digits: Seq<char>,
    point: int,
    front: nat,
    back: nat,
)
    requires
        digits.len() > 0,
        digits[0] != '0',
        digits.last() != '0',
        -323 <= point <= 309,
    ensures
        normal(negative, zeros(front as int) + digits + zeros(back as int), front + point) == (
        DecimalView::Finite { negative, digits, point }),
{
    let s = zeros(front as int) + digits + zeros(back as int);
    lemma_leading_is(s, front as int);
    assert(s.skip(front as int) =~= digits + zeros(back as int));
    lemma_end_zeros(digits, back as int);
}

/// Of two numbers above zero the one with more places before the point is the
/// greater; with as many, the one whose digits come later in a dictionary.
pub proof fn the_greater_number_has_more_places(
    a: Seq<char>,
    ap: int,
    b: Seq<char>,
    bp: int,
)
    requires
        a.len() > 0,
        b.len() > 0,
    ensures
        ({
            let x = DecimalView::Finite { negative: false, digits: a, point: ap };
            let y = DecimalView::Finite { negative: false, digits: b, point: bp };
            let zero = DecimalView::Finite { negative: false, digits: Seq::empty(), point: 0 };
            &&& ap < bp ==> decimal_lt(x, y) && !decimal_lt(y, x)
            &&& ap == bp ==> (decimal_lt(x, y) <==> comes_before(a, b))
            &&& decimal_lt(zero, x) && !decimal_lt(x, zero)
        }),
{
    texts_are_in_dictionary_order(a, b);
}

/// A number below zero is less than one above it, and of two below zero the one
/// that is the greater without its sign is the less.
pub proof fn a_sign_turns_the_order_round(a: Seq<char>, ap: int, b: Seq<char>, bp: int)
    requires
        a.len() > 0,
        b.len() > 0,
    ensures
        ({
            let x = DecimalView::Finite { negative: false, digits: a, point: ap };
            let y = DecimalView::Finite { negative: false, digits: b, point: bp };
            let minus_x = DecimalView::Finite { negative: true, digits: a, point: ap };
            let minus_y = DecimalView::Finite { negative: true, digits: b, point: bp };
            &&& decimal_lt(minus_x, y) && !decimal_lt(y, minus_x)
            &&& decimal_lt(minus_x, minus_y) == decimal_lt(y, x)
        }),
{
}

/// What is infinite is above or below every other number, and what is no number
/// is neither less nor greater than any.
pub proof fn infinity_is_beyond_every_number(d: DecimalView)
    ensures
        d is Finite ==> decimal_lt(d, DecimalView::Infinite { negative: false }) && !decimal_lt(
            DecimalView::Infinite { negative: false },
            d,
        ) && decimal_lt(DecimalView::Infinite { negative: true }, d) && !decimal_lt(
            d,
            DecimalView::Infinite { negative: true },
        ),
        !decimal_lt(d, DecimalView::NotANumber),
        !decimal_lt(DecimalView::NotANumber, d),
{
}

/// A number as a fraction is its digits over ten to the places behind the point,
/// or its digits and as many zeros as are missing before it; so far as it has no
/// more than eighteen places on either side.
pub proof fn a_decimal_is_a_fraction_of_its_digits(negative: bool, digits: Seq<char>, point: int)
    requires
        all_digits(digits),
        0 < digits.len() <= 18,
        0 <= point <= 18,
    ensures
        ({
            let (n, d) = share_of(DecimalView::Finite { negative, digits, point });
            let value = if negative {
                -digits_value(digits)
            } else {
                digits_value(digits)
            };
            &&& digits.len() >= point ==> n == value && d == pow(10, (digits.len() - point) as nat)
            &&& digits.len() < point ==> n == value * pow(10, (point - digits.len()) as nat) && d
                == 1
        }),
{
    assert(digits.take(digits.len() as int) =~= digits);
    lemma_taken(digits);
    lemma_bound(digits);
    lemma_pow((digits.len() - point) as int);
    lemma_pow((point - digits.len()) as int);
    crate::decimal::lemma_power(digits.len() as int);
    if digits.len() >= point {
        crate::decimal::lemma_power(digits.len() - point);
    } else {
        let k = point - digits.len();
        crate::decimal::lemma_power(k);
        crate::decimal::lemma_power(point);
        crate::decimal::lemma_powers_add(digits.len() as int, k);
        let v = digits_value(digits);
        let p = power(digits.len() as int);
        let q = power(k);
        assert(0 <= v * q < p * q) by (nonlinear_arith)
            requires
                0 <= v < p,
                q >= 1,
        ;
        assert((-v) * q == -(v * q)) by (nonlinear_arith);
    }
}

proof fn lemma_taken(s: Seq<char>)
    requires
        all_digits(s),
    ensures
        taken_value(s) == digits_value(s),
    decreases s.len(),
{
    if s.len() > 0 {
        assert(is_digit(s[s.len() - 1]));
        assert forall|i: int| 0 <= i < s.drop_last().len() implies is_digit(
            #[trigger] s.drop_last()[i],
        ) by {
            assert(is_digit(s[i]));
        }
        lemma_taken(s.drop_last());
    }
}

proof fn lemma_bound(s: Seq<char>)
    requires
        all_digits(s),
    ensures
        0 <= digits_value(s) < power(s.len() as int),
    decreases s.len(),
{
    if s.len() > 0 {
        assert(is_digit(s[s.len() - 1]));
        assert forall|i: int| 0 <= i < s.drop_last().len() implies is_digit(
            #[trigger] s.drop_last()[i],
        ) by {
            assert(is_digit(s[i]));
        }
        lemma_bound(s.drop_last());
    }
}

proof fn lemma_pow(n: int)
    ensures
        n >= 0 ==> power(n) == pow(10, n as nat),
    decreases n,
{
    reveal(pow);
    if n > 0 {
        lemma_pow(n - 1);
    }
}

} // verus!
