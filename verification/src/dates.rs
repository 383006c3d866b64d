//! Calendar days, as numbers that can be subtracted.

use chrono::{Datelike, NaiveDate};
use vstd::prelude::*;
use vstd::string::*;
use vstd::utf8::{decode_utf8, encode_utf8, is_char_boundary};

verus! {

/// How a date is written: year, month and day.
pub const DATE_FORMAT: &'static str = "%Y-%m-%d";

/// The day that a text written in a format names, counted from the first day
/// of the common era.
pub uninterp spec fn parsed_day(s: Seq<char>, format: Seq<char>) -> Option<i32>;

/// `NaiveDate::parse_from_str`, and `num_days_from_ce` of what it read: the
/// same text in the same format always names the same day, or none. Which
/// texts name a day is left to chrono.
#[verifier::external_body]
fn parse_day(s: &str, format: &str) -> (r: Option<i32>)
    ensures
        r == parsed_day(s@, format@),
{
    NaiveDate::parse_from_str(s, format).ok().map(|d| d.num_days_from_ce())
}

/// A day written out as year-month-day.
pub uninterp spec fn written_day(day: i32) -> Option<Seq<char>>;

/// `NaiveDate::from_num_days_from_ce_opt`, and what `to_string` writes for the
/// day: the same number is always written the same way, and one outside
/// chrono's calendar is not written at all.
#[verifier::external_body]
fn write_day(day: i32) -> (r: Option<String>)
    ensures
        match r {
            Some(s) => written_day(day) == Some(s@),
            None => written_day(day) is None,
        },
{
    NaiveDate::from_num_days_from_ce_opt(day).map(|d| d.to_string())
}

/// The part of a timestamp that holds its date: the first ten bytes, or all of
/// a shorter text. None where the tenth byte ends in the middle of a character.
pub open spec fn date_head(text: Seq<char>) -> Option<Seq<char>> {
    let bytes = encode_utf8(text);
    if bytes.len() < 10 {
        Some(text)
    } else if is_char_boundary(bytes, 10) {
        Some(decode_utf8(bytes.subrange(0, 10)))
    } else {
        None
    }
}

pub fn head_of_date<'a>(text: &'a str) -> (r: Option<&'a str>)
    ensures
        match r {
            Some(s) => date_head(text@) == Some(s@),
            None => date_head(text@) is None,
        },
{
    broadcast use vstd::utf8::encode_utf8_decode_utf8;

    if text.as_bytes().len() < 10 {
        Some(text)
    } else if text.is_char_boundary(10) {
        let (head, _) = text.split_at(10);
        assert(decode_utf8(head.spec_bytes()) == head@);
        Some(head)
    } else {
        None
    }
}

/// The day of a timestamp.
pub open spec fn day_of(text: Seq<char>) -> Option<i32> {
    match date_head(text) {
        Some(head) => parsed_day(head, DATE_FORMAT@),
        None => None,
    }
}

/// The day that a timestamp begins with, if it begins with one.
pub fn as_date(text: &str) -> (r: Option<i32>)
    ensures
        r == day_of(text@),
{
    match head_of_date(text) {
        Some(head) => parse_day(head, DATE_FORMAT),
        None => None,
    }
}

/// A day written out, empty where the calendar does not reach it.
pub open spec fn day_text(day: i32) -> Seq<char> {
    match written_day(day) {
        Some(s) => s,
        None => Seq::empty(),
    }
}

pub fn day_string(day: i32) -> (r: String)
    ensures
        r@ == day_text(day),
{
    match write_day(day) {
        Some(s) => s,
        None => String::new(),
    }
}

} // verus!
