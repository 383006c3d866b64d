//! What is typed into a form, and what it is taken for.

use vstd::prelude::*;
use crate::db::{lemma_has, DbView};
use crate::helpers::{
    field_value, id_range, id_spec, ids_of, local_or, near, paging, part_ids, positive,
    reading_fault, shown_pages, unsigned, with_gaps, FieldValueView,
};
use crate::text::{joined, parsed_int, split_on, split_once_at, trimmed};
use crate::text_laws::{a_text_is_split_at_the_first, the_pieces_make_the_text};

verus! {

// ── Numbers of batteries ────────────────────────────────────────────────

/// Whether a part of a list names a battery: as its number, or as one between
/// the two ends of a range, whichever of them is the higher.
pub open spec fn names(part: Seq<char>, n: i64) -> bool {
    let p = trimmed(part);
    ||| !p.contains('-') && parsed_int(p) == Some(n)
    ||| exists|a: Seq<char>, b: Seq<char>| #[trigger]
        is_between(p, a, b, n)
}

/// Whether a text is a range from one end to the other that a number lies in.
pub open spec fn is_between(p: Seq<char>, a: Seq<char>, b: Seq<char>, n: i64) -> bool {
    &&& p == a.push('-') + b
    &&& !a.contains('-')
    &&& parsed_int(trimmed(a)) matches Some(x) && (parsed_int(trimmed(b)) matches Some(y) && (x <= n
        <= y || y <= n <= x))
}

proof fn lemma_part(part: Seq<char>, n: i64)
    requires
        part_ids(part) is Ok,
    ensures
        part_ids(part)->Ok_0.contains(n) <==> names(part, n),
{
    let p = trimmed(part);
    let ids = part_ids(part)->Ok_0;
    a_text_is_split_at_the_first(p, '-');
    if p.len() == 0 {
        assert forall|a: Seq<char>, b: Seq<char>| !#[trigger] is_between(p, a, b, n) by {
            assert((a.push('-') + b).len() > 0);
        }
        assert(parsed_int(p) is None);
        assert(ids.len() == 0);
    } else if let Some((a, b)) = split_once_at(p, '-') {
        assert(p[a.len() as int] == '-');
        let x = parsed_int(trimmed(a))->0;
        let y = parsed_int(trimmed(b))->0;
        let lo = if x <= y {
            x
        } else {
            y
        };
        let hi = if x <= y {
            y
        } else {
            x
        };
        assert(ids == id_range(lo, hi));
        if lo <= n <= hi {
            assert(ids[n - lo] == n);
            assert(is_between(p, a, b, n));
        }
        if names(part, n) {
            let (c, d) = choose|c: Seq<char>, d: Seq<char>| #[trigger] is_between(p, c, d, n);
            if c.len() < a.len() {
                assert(p[c.len() as int] == '-');
                assert(a[c.len() as int] == '-');
            }
            if c.len() > a.len() {
                assert(c[a.len() as int] == p[a.len() as int]);
            }
            assert(c =~= a) by {
                assert(p.take(a.len() as int) =~= a);
                assert(p.take(c.len() as int) =~= c);
            }
            assert(d =~= b) by {
                assert(p.skip(a.len() as int + 1) =~= b);
                assert(p.skip(c.len() as int + 1) =~= d);
            }
        }
        if ids.contains(n) {
            let k = ids.index_of(n);
            assert(ids[k] == lo + k);
        }
    } else {
        assert(!p.contains('-'));
        assert forall|a: Seq<char>, b: Seq<char>| !#[trigger] is_between(p, a, b, n) by {
            if p == a.push('-') + b {
                assert(p[a.len() as int] == '-');
            }
        }
        assert(ids == seq![parsed_int(p)->0]);
        assert(ids[0] == parsed_int(p)->0);
    }
}

/// A list of numbers with commas between them names the batteries that its parts
/// name, and no others.
pub proof fn a_list_names_what_its_parts_name(raw: Seq<char>, n: i64)
    requires
        id_spec(raw) is Ok,
    ensures
        joined(split_on(raw, ','), seq![',']) == raw,
        id_spec(raw)->Ok_0.contains(n) <==> exists|i: int|
            0 <= i < split_on(raw, ',').len() && names(#[trigger] split_on(raw, ',')[i], n),
{
    the_pieces_make_the_text(raw, ',');
    lemma_parts(split_on(raw, ','), n);
}

proof fn lemma_parts(parts: Seq<Seq<char>>, n: i64)
    requires
        ids_of(parts) is Ok,
    ensures
        ids_of(parts)->Ok_0.contains(n) <==> exists|i: int|
            0 <= i < parts.len() && names(#[trigger] parts[i], n),
    decreases parts.len(),
{
    if parts.len() > 0 {
        let d = parts.drop_last();
        lemma_parts(d, n);
        lemma_part(parts.last(), n);
        let before = ids_of(d)->Ok_0;
        let more = part_ids(parts.last())->Ok_0;
        let all = ids_of(parts)->Ok_0;
        assert(all == before + more);
        if before.contains(n) {
            let k = before.index_of(n);
            assert(all[k] == n);
            let i = choose|i: int| 0 <= i < d.len() && names(#[trigger] d[i], n);
            assert(names(parts[i], n));
        }
        if more.contains(n) {
            let k = more.index_of(n);
            assert(all[before.len() + k] == n);
            assert(names(parts[parts.len() - 1], n));
        }
        if all.contains(n) {
            let k = all.index_of(n);
            if k < before.len() {
                assert(before[k] == n);
            } else {
                assert(more[k - before.len()] == n);
            }
        }
        if exists|i: int| 0 <= i < parts.len() && names(#[trigger] parts[i], n) {
            let i = choose|i: int| 0 <= i < parts.len() && names(#[trigger] parts[i], n);
            if i < d.len() {
                assert(names(d[i], n));
            }
        }
    }
}

/// A range of more than two hundred numbers is refused, and so is anything that
/// is no number; every other part is taken.
pub proof fn a_part_is_a_number_or_a_short_range(part: Seq<char>)
    ensures
        part_ids(part) is Ok <==> ({
            let p = trimmed(part);
            ||| p.len() == 0
            ||| !p.contains('-') && parsed_int(p) is Some
            ||| exists|a: Seq<char>, b: Seq<char>|
                #![trigger a.push('-') + b]
                p == a.push('-') + b && !a.contains('-') && (parsed_int(trimmed(a)) matches Some(x)
                    && (parsed_int(trimmed(b)) matches Some(y) && x - y < 200 && y - x < 200))
        }),
{
    let p = trimmed(part);
    a_text_is_split_at_the_first(p, '-');
    if let Some((a, b)) = split_once_at(p, '-') {
        assert(p[a.len() as int] == '-');
        assert forall|c: Seq<char>, d: Seq<char>|
            #![trigger c.push('-') + d]
            p == c.push('-') + d && !c.contains('-') implies c == a && d == b by {
            if c.len() < a.len() {
                assert(p[c.len() as int] == '-');
                assert(a[c.len() as int] == '-');
            }
            if c.len() > a.len() {
                assert(c[a.len() as int] == p[a.len() as int]);
            }
            assert(p.take(a.len() as int) =~= a);
            assert(p.take(c.len() as int) =~= c);
            assert(p.skip(a.len() as int + 1) =~= b);
            assert(p.skip(c.len() as int + 1) =~= d);
        }
        assert(p == a.push('-') + b);
    } else {
        assert forall|c: Seq<char>, d: Seq<char>|
            #![trigger c.push('-') + d]
            p != c.push('-') + d by {
            if p == c.push('-') + d {
                assert(p[c.len() as int] == '-');
            }
        }
    }
}

/// A number that has to be there is above zero, whatever the white space around
/// it.
pub proof fn a_count_is_above_zero(raw: Seq<char>, n: i64)
    ensures
        positive(raw) == Some(n) <==> n > 0 && parsed_int(trimmed(raw)) == Some(n),
{
}

/// A reading may be left out; one that is there is a whole number and not
/// negative.
pub proof fn a_value_may_be_left_out(raw: Seq<char>, label: Seq<char>)
    ensures
        match unsigned(raw, label) {
            Ok(None) => trimmed(raw).len() == 0,
            Ok(Some(n)) => n >= 0 && trimmed(raw).len() > 0 && parsed_int(trimmed(raw)) == Some(n),
            Err(_) => trimmed(raw).len() > 0 && (parsed_int(trimmed(raw)) matches Some(n) ==> n < 0),
        },
{
}

// ── Readings ────────────────────────────────────────────────────────────

/// A purchase needs nothing. Any other reading needs a value and the instrument
/// it came from, which has to be there, and a capacity needs the current that it
/// was measured at; a procedure need not be given, but has to be there if it is.
pub proof fn a_reading_says_how_it_was_taken(
    d: DbView,
    kind: Seq<char>,
    capacity_mah: Option<i64>,
    ir_mohm: Option<i64>,
    instrument_id: Option<i64>,
    mode_id: Option<i64>,
    discharge_ma: Option<i64>,
    charge_ma: Option<i64>,
)
    ensures
        reading_fault(
            d,
            kind,
            capacity_mah,
            ir_mohm,
            instrument_id,
            mode_id,
            discharge_ma,
            charge_ma,
        ) is None <==> kind == "bought"@ || {
            &&& capacity_mah is Some || ir_mohm is Some || discharge_ma is Some || charge_ma is Some
            &&& capacity_mah is Some ==> discharge_ma is Some
            &&& instrument_id matches Some(k) && exists|i: int|
                0 <= i < d.instruments.len() && (#[trigger] d.instruments[i]).id == k
            &&& mode_id matches Some(k) ==> exists|i: int|
                0 <= i < d.modes.len() && (#[trigger] d.modes[i]).id == k
        },
{
    if let Some(k) = instrument_id {
        lemma_has(d.instruments, k);
    }
    if let Some(k) = mode_id {
        lemma_has(d.modes, k);
    }
}

// ── Pages and paths ─────────────────────────────────────────────────────

/// Of the pages, the first and the last are shown and those no more than two
/// away from the one that is open.
pub proof fn pages_around_are_shown(page: i64, pages: i64, n: i64)
    requires
        1 <= page <= pages,
        pages > 1,
        1 <= n <= pages,
    ensures
        paging(page as int, pages as int).contains(n) <==> n == 1 || n == pages || -2 <= n - page
            <= 2,
{
    let s = shown_pages(page as int, pages as int);
    let around = near(page as int, pages as int, page - 2);
    crate::helpers::lemma_near(page as int, pages as int, page - 2, n);
    crate::helpers::lemma_with_gaps(s, n);
    assert(s[0] == 1 && s[s.len() - 1] == pages);
    if around.contains(n) {
        let k = around.index_of(n);
        assert(s[k + 1] == n);
    }
    if s.contains(n) {
        let k = s.index_of(n);
        if 0 < k < s.len() - 1 {
            assert(around[k - 1] == n);
        }
    }
}

/// Whether a row of page numbers goes up by one at a place, with a gap where it
/// goes up by more and only there.
pub open spec fn goes_on(w: Seq<i64>, i: int) -> bool {
    if w[i] == 0 {
        0 < i && w[i - 1] > 0 && w[i - 1] + 1 < w[i + 1]
    } else {
        w[i + 1] == 0 || w[i + 1] == w[i] + 1
    }
}

pub open spec fn goes_up(w: Seq<i64>) -> bool {
    forall|i: int| 0 <= i < w.len() - 1 ==> #[trigger] goes_on(w, i)
}

/// The page numbers go up by one, with a gap wherever some are left out and
/// nowhere else.
pub proof fn pages_left_out_leave_a_gap(page: i64, pages: i64)
    requires
        1 <= page <= pages,
        pages > 1,
    ensures
        goes_up(paging(page as int, pages as int)),
{
    let around = near(page as int, pages as int, page - 2);
    let s = shown_pages(page as int, pages as int);
    lemma_near_ascends(page as int, pages as int, page - 2);
    assert forall|i: int, j: int| 0 <= i < j < s.len() implies 0 < #[trigger] s[i]
        < #[trigger] s[j] by {
        if 0 < i {
            assert(s[i] == around[i - 1]);
        }
        if j < s.len() - 1 {
            assert(s[j] == around[j - 1]);
        }
    }
    lemma_gaps(s);
}

proof fn lemma_near_ascends(page: int, pages: int, n: int)
    requires
        pages <= i64::MAX,
        n >= -1,
    ensures
        forall|i: int|
            0 <= i < near(page, pages, n).len() ==> n <= #[trigger] near(page, pages, n)[i] < pages
                && near(page, pages, n)[i] > 1,
        forall|i: int, j: int|
            0 <= i < j < near(page, pages, n).len() ==> #[trigger] near(page, pages, n)[i]
                < #[trigger] near(page, pages, n)[j],
    decreases page + 3 - n,
{
    if n <= page + 2 {
        lemma_near_ascends(page, pages, n + 1);
        let rest = near(page, pages, n + 1);
        let all = near(page, pages, n);
        if 1 < n < pages {
            assert forall|i: int| 0 <= i < all.len() implies n <= #[trigger] all[i] < pages && all[i]
                > 1 by {
                if i > 0 {
                    assert(all[i] == rest[i - 1]);
                }
            }
            assert forall|i: int, j: int| 0 <= i < j < all.len() implies #[trigger] all[i]
                < #[trigger] all[j] by {
                assert(all[j] == rest[j - 1]);
                if i > 0 {
                    assert(all[i] == rest[i - 1]);
                }
            }
        }
    }
}

proof fn lemma_gaps(s: Seq<i64>)
    requires
        forall|i: int, j: int|
            0 <= i < j < s.len() ==> 0 < #[trigger] s[i] < #[trigger] s[j],
        s.len() > 1,
    ensures
        goes_up(with_gaps(s)),
        with_gaps(s).len() > 0,
        with_gaps(s).last() == s.last(),
        s.last() > 0,
    decreases s.len(),
{
    let d = s.drop_last();
    let w = with_gaps(s);
    let rest = with_gaps(d);
    assert(s[0] < s[s.len() - 1]);
    assert(s[s.len() - 2] < s[s.len() - 1]);
    if d.len() > 1 {
        assert forall|i: int, j: int| 0 <= i < j < d.len() implies 0 < #[trigger] d[i]
            < #[trigger] d[j] by {
            assert(d[i] == s[i] && d[j] == s[j]);
        }
        lemma_gaps(d);
    }
    assert(rest.len() > 0 && rest.last() == d.last());
    let n = rest.len() as int;
    assert(forall|i: int| 0 <= i < n ==> w[i] == rest[i]);
    assert forall|i: int| 0 <= i < w.len() - 1 implies #[trigger] goes_on(w, i) by {
        if i < n - 1 {
            assert(goes_on(rest, i));
        }
    }
}

/// A path leads back to this site: it begins with one slash. Any other is not
/// followed.
pub proof fn only_a_local_path_is_followed(raw: Seq<char>, fallback: Seq<char>)
    ensures
        local_or(raw, fallback) == (if raw.len() > 0 && raw[0] == '/' && (raw.len() == 1 || raw[1]
            != '/') {
            raw
        } else {
            fallback
        }),
{
}

/// A field that holds a number goes back as one, and any other as the text.
pub proof fn a_number_goes_back_as_one(s: Seq<char>)
    ensures
        field_value(s) == (match parsed_int(s) {
            Some(n) => FieldValueView::Number(n),
            None => FieldValueView::Text(s),
        }),
{
}

} // verus!
