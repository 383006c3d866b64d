//! The small things that the pages' templates ask for.

use vstd::prelude::*;
use vstd::string::*;
use crate::text::{
    chars_of, join, joined, lemma_views_push, same, split, split_on, text_of, to_upper,
    uppercased, views,
};

verus! {

// ── Texts ───────────────────────────────────────────────────────────────

/// A word with its first letter as a capital.
pub open spec fn capitalised(word: Seq<char>) -> Seq<char> {
    if word.len() == 0 {
        word
    } else {
        uppercased(word.take(1)) + word.skip(1)
    }
}

/// A text with the first letter of every word as a capital.
pub open spec fn titled(text: Seq<char>) -> Seq<char> {
    joined(split_on(text, ' ').map_values(|w: Seq<char>| capitalised(w)), " "@)
}

fn capitalise(word: &str) -> (r: String)
    ensures
        r@ == capitalised(word@),
{
    let v = chars_of(word);
    if v.len() == 0 {
        return word.to_string();
    }
    let first = text_of(&v, 0, 1);
    let rest = text_of(&v, 1, v.len());
    assert(v@.subrange(0, 1) =~= word@.take(1));
    assert(v@.subrange(1, v@.len() as int) =~= word@.skip(1));
    let mut out = to_upper(first.as_str());
    out.append(rest.as_str());
    out
}

pub fn title_case(text: &str) -> (r: String)
    ensures
        r@ == titled(text@),
{
    let words = split(text, ' ');
    let ghost all = split_on(text@, ' ').map_values(|w: Seq<char>| capitalised(w));
    let mut out: Vec<String> = Vec::new();
    let mut i: usize = 0;
    assert(views(out@) =~= all.take(0));
    while i < words.len()
        invariant
            i <= words@.len(),
            views(words@) == split_on(text@, ' '),
            all == split_on(text@, ' ').map_values(|w: Seq<char>| capitalised(w)),
            views(out@) == all.take(i as int),
        decreases words@.len() - i,
    {
        let ghost before = out@;
        assert(views(words@)[i as int] == words@[i as int]@);
        out.push(capitalise(words[i].as_str()));
        proof {
            lemma_views_push(before, out@.last());
            assert(all.take(i + 1) =~= all.take(i as int).push(all[i as int]));
        }
        i = i + 1;
    }
    assert(views(words@).len() == words@.len());
    assert(all.take(i as int) =~= all);
    join(&out, " ")
}

/// The first ten characters of a timestamp, which are its date.
pub open spec fn date_part(text: Seq<char>) -> Seq<char> {
    if text.len() < 10 {
        text
    } else {
        text.take(10)
    }
}

pub fn date10(text: &str) -> (r: String)
    ensures
        r@ == date_part(text@),
{
    let v = chars_of(text);
    if v.len() < 10 {
        return text.to_string();
    }
    let r = text_of(&v, 0, 10);
    assert(v@.subrange(0, 10) =~= text@.take(10));
    r
}

/// The address of a file that comes with the program.
pub fn static_url(name: &str) -> (r: String)
    ensures
        r@ == "/"@ + name@,
{
    let mut m = "/".to_string();
    m.append(name);
    m
}

/// A text in Markdown as HTML, read with or without tables, strikethrough and
/// footnotes.
pub uninterp spec fn markdown_html(
    text: Seq<char>,
    tables: bool,
    strikethrough: bool,
    footnotes: bool,
) -> Seq<char>;

/// `pulldown_cmark::html::push_html` of a `Parser` with these extensions: the
/// same text read with the same extensions always gives the same HTML. What
/// HTML that is, is left to the crate.
#[verifier::external_body]
fn markdown_to_html(text: &str, tables: bool, strikethrough: bool, footnotes: bool) -> (r: String)
    ensures
        r@ == markdown_html(text@, tables, strikethrough, footnotes),
{
    let mut options = pulldown_cmark::Options::empty();
    options.set(pulldown_cmark::Options::ENABLE_TABLES, tables);
    options.set(pulldown_cmark::Options::ENABLE_STRIKETHROUGH, strikethrough);
    options.set(pulldown_cmark::Options::ENABLE_FOOTNOTES, footnotes);
    let parser = pulldown_cmark::Parser::new_ext(text, options);
    let mut out = String::new();
    pulldown_cmark::html::push_html(&mut out, parser);
    out
}

/// A description in Markdown as HTML, with tables, strikethrough and footnotes;
/// an empty one stays empty.
pub fn markdown(text: &str) -> (r: String)
    ensures
        r@ == (if text@.len() == 0 {
            text@
        } else {
            markdown_html(text@, true, true, true)
        }),
{
    if text.is_empty() {
        return text.to_string();
    }
    markdown_to_html(text, true, true, true)
}

// ── Icons ───────────────────────────────────────────────────────────────

/// The names of the icons there are.
pub open spec fn icon_names() -> Seq<Seq<char>> {
    seq![
        "add"@,
        "alert"@,
        "batch-location"@,
        "batch-measure"@,
        "delete"@,
        "edit"@,
        "filter"@,
        "gauge"@,
        "grid"@,
        "info"@,
        "move-down"@,
        "move-up"@,
        "print"@,
        "restore"@,
        "scan"@,
        "settings"@,
        "table"@,
    ]
}

fn icons() -> (r: Vec<&'static str>)
    ensures
        crate::config::str_views(r@) == icon_names(),
{
    let r = vec![
        "add",
        "alert",
        "batch-location",
        "batch-measure",
        "delete",
        "edit",
        "filter",
        "gauge",
        "grid",
        "info",
        "move-down",
        "move-up",
        "print",
        "restore",
        "scan",
        "settings",
        "table",
    ];
    assert(crate::config::str_views(r@) =~= icon_names());
    r
}

/// The file with the drawing of an icon; none for a name that is no icon's.
pub fn svg(name: &str) -> (r: Option<String>)
    ensures
        crate::rows::opt_text(r) == (if icon_names().contains(name@) {
            Some(name@ + ".svg"@)
        } else {
            None
        }),
{
    let list = icons();
    let ghost all = crate::config::str_views(list@);
    let mut i: usize = 0;
    while i < list.len()
        invariant
            i <= list@.len(),
            all == crate::config::str_views(list@),
            all == icon_names(),
            forall|j: int| 0 <= j < i ==> all[j] != name@,
        decreases list@.len() - i,
    {
        assert(all[i as int] == list@[i as int]@);
        if same(list[i], name) {
            assert(icon_names().contains(name@));
            let mut m = name.to_string();
            m.append(".svg");
            return Some(m);
        }
        i = i + 1;
    }
    assert(all.len() == list@.len());
    None
}

/// Whether a text goes on with another one at a place.
pub open spec fn goes_on(text: Seq<char>, part: Seq<char>, at: int) -> bool {
    at + part.len() <= text.len() && text.subrange(at, at + part.len()) == part
}

/// Where a part first stands in a text, from a place on; behind its end if it
/// does not.
pub open spec fn first_place(text: Seq<char>, part: Seq<char>, from: int) -> int
    decreases text.len() - from,
{
    if from >= text.len() {
        text.len() as int
    } else if goes_on(text, part, from) {
        from
    } else {
        first_place(text, part, from + 1)
    }
}

/// A drawing with a class on it.
pub open spec fn with_class(svg: Seq<char>, class: Seq<char>) -> Seq<char> {
    let at = first_place(svg, "<svg "@, 0);
    if class.len() == 0 || at >= svg.len() {
        svg
    } else {
        svg.take(at) + ("<svg class=\""@ + class + "\" "@) + svg.skip(at + "<svg "@.len())
    }
}

fn part_at(text: &Vec<char>, part: &Vec<char>, at: usize) -> (r: bool)
    requires
        at <= text@.len(),
    ensures
        r == goes_on(text@, part@, at as int),
{
    let total: usize = text.len();
    if part.len() > total - at {
        return false;
    }
    let mut i: usize = 0;
    while i < part.len()
        invariant
            i <= part@.len(),
            total == text@.len(),
            at + part@.len() <= total,
            forall|j: int| 0 <= j < i ==> text@[at + j] == part@[j],
        decreases part@.len() - i,
    {
        if text[at + i] != part[i] {
            assert(text@.subrange(at as int, at + part@.len())[i as int] == text@[at + i]);
            return false;
        }
        i = i + 1;
    }
    assert(text@.subrange(at as int, at + part@.len()) =~= part@);
    true
}

/// An icon's drawing with a class put on it, where one is named.
pub fn icon(svg: &str, class: &str) -> (r: String)
    ensures
        r@ == with_class(svg@, class@),
{
    if class.is_empty() {
        return svg.to_string();
    }
    let text = chars_of(svg);
    let part = chars_of("<svg ");
    let mut i: usize = 0;
    while i < text.len()
        invariant
            i <= text@.len(),
            text@ == svg@,
            part@ == "<svg "@,
            class@.len() > 0,
            first_place(svg@, "<svg "@, 0) == first_place(svg@, "<svg "@, i as int),
        decreases text@.len() - i,
    {
        if part_at(&text, &part, i) {
            let mut out = text_of(&text, 0, i);
            assert(text@.subrange(0, i as int) =~= svg@.take(i as int));
            let mut tag = "<svg class=\"".to_string();
            tag.append(class);
            tag.append("\" ");
            out.append(tag.as_str());
            let rest = text_of(&text, i + part.len(), text.len());
            assert(text@.subrange(i + part@.len(), text@.len() as int) =~= svg@.skip(
                i + part@.len(),
            ));
            out.append(rest.as_str());
            return out;
        }
        i = i + 1;
    }
    svg.to_string()
}

// ── The window ──────────────────────────────────────────────────────────

/// Where the window goes, and how big its inner area is.
#[derive(Debug, Clone, Copy, PartialEq, Eq, Structural)]
pub struct Placement {
    pub x: i32,
    pub y: i32,
    pub inner_width: u32,
    pub inner_height: u32,
}

pub open spec fn less_frame(outer: int, frame: int) -> int {
    if outer < frame {
        0
    } else {
        outer - frame
    }
}

/// Where a window of half the width begins that stands in the middle.
pub open spec fn left_edge(area_x: int, area_width: int) -> int {
    area_x + (area_width - area_width / 2) / 2
}

/// Half the width of the work area and all of its height, in the middle. The
/// frame is what the window's border takes: a window is sized by its inside,
/// so the frame comes off.
pub fn placement(
    area_x: i32,
    area_y: i32,
    area_width: u32,
    area_height: u32,
    frame_width: u32,
    frame_height: u32,
) -> (r: Placement)
    requires
        area_x + (area_width - area_width / 2) / 2 <= i32::MAX,
    ensures
        r.x == area_x + (area_width - area_width / 2) / 2,
        r.x == left_edge(area_x as int, area_width as int),
        r.y == area_y,
        r.inner_width == less_frame(area_width as int / 2, frame_width as int),
        r.inner_height == less_frame(area_height as int, frame_height as int),
{
    let width = area_width / 2;
    let side = (area_width - width) / 2;
    Placement {
        x: area_x + side as i32,
        y: area_y,
        inner_width: if width < frame_width {
            0
        } else {
            width - frame_width
        },
        inner_height: if area_height < frame_height {
            0
        } else {
            area_height - frame_height
        },
    }
}

} // verus!
