//! What texts look like on a page, and where the window stands.

use vstd::prelude::*;
use crate::filters::{
    capitalised, date_part, first_place, goes_on, left_edge, less_frame, titled, with_class,
};
use crate::text::{joined, lemma_split_sides, lemma_split_whole, split_on, uppercased};

verus! {

/// A word in a title has its first letter in capitals and is else as it was.
pub proof fn a_title_capitalises_a_word(word: Seq<char>)
    requires
        word.len() > 0,
        !word.contains(' '),
    ensures
        titled(word) == uppercased(word.take(1)) + word.skip(1),
{
    lemma_split_whole(word, ' ');
    let f = |w: Seq<char>| capitalised(w);
    assert(seq![word].map_values(f) =~= seq![capitalised(word)]);
}

/// A title of two texts with a space between them is the titles of the two with
/// a space between them.
pub proof fn a_title_goes_word_by_word(a: Seq<char>, b: Seq<char>)
    ensures
        titled(a.push(' ') + b) == titled(a).push(' ') + titled(b),
{
    let f = |w: Seq<char>| capitalised(w);
    lemma_split_sides(a, ' ', b);
    let x = split_on(a, ' ').map_values(f);
    let y = split_on(b, ' ').map_values(f);
    assert((split_on(a, ' ') + split_on(b, ' ')).map_values(f) =~= x + y);
    crate::text_laws::the_pieces_make_the_text(a, ' ');
    crate::text_laws::the_pieces_make_the_text(b, ' ');
    reveal_strlit(" ");
    assert(" "@ =~= seq![' ']);
    lemma_joined_sides(x, y);
    assert(titled(a).push(' ') + titled(b) =~= titled(a) + " "@ + titled(b));
}

proof fn lemma_joined_sides(x: Seq<Seq<char>>, y: Seq<Seq<char>>)
    requires
        x.len() > 0,
        y.len() > 0,
    ensures
        joined(x + y, " "@) == joined(x, " "@) + " "@ + joined(y, " "@),
    decreases y.len(),
{
    let d = y.drop_last();
    assert((x + y).drop_last() =~= x + d);
    if d.len() > 0 {
        lemma_joined_sides(x, d);
        assert(joined(x + y, " "@) =~= joined(x, " "@) + " "@ + joined(y, " "@));
    } else {
        assert(x + d =~= x);
    }
}

/// Of a moment the first ten characters are shown, which are its day, or all of
/// it where it has no more.
pub proof fn a_day_is_the_first_ten_characters(text: Seq<char>)
    ensures
        text.len() >= 10 ==> date_part(text).len() == 10 && date_part(text) == text.subrange(0, 10),
        text.len() < 10 ==> date_part(text) == text,
{
}

/// A class stands in the first tag of a drawing, and all else is as it was.
pub proof fn a_class_stands_in_the_first_tag(before: Seq<char>, after: Seq<char>, class: Seq<char>)
    requires
        class.len() > 0,
        forall|i: int| 0 <= i < before.len() ==> !#[trigger] goes_on(
            before + "<svg "@ + after,
            "<svg "@,
            i,
        ),
    ensures
        with_class(before + "<svg "@ + after, class) == before + ("<svg class=\""@ + class + "\" "@)
            + after,
{
    let svg = before + "<svg "@ + after;
    reveal_strlit("<svg ");
    let n = before.len() as int;
    assert(svg.subrange(n, n + 5) =~= "<svg "@);
    lemma_first(svg, 0, n);
    assert(svg.take(n) =~= before);
    assert(svg.skip(n + 5) =~= after);
}

proof fn lemma_first(svg: Seq<char>, from: int, n: int)
    requires
        0 <= from <= n < svg.len(),
        goes_on(svg, "<svg "@, n),
        forall|i: int| from <= i < n ==> !#[trigger] goes_on(svg, "<svg "@, i),
    ensures
        first_place(svg, "<svg "@, from) == n,
    decreases n - from,
{
    if from < n {
        assert(!goes_on(svg, "<svg "@, from));
        lemma_first(svg, from + 1, n);
    }
}

/// The window stands in the middle: as far from the one side as from the other,
/// but for a point that cannot be shared.
pub proof fn the_window_stands_in_the_middle(area_x: int, area_width: int)
    requires
        area_width >= 0,
    ensures
        ({
            let left = left_edge(area_x, area_width) - area_x;
            let right = area_width - area_width / 2 - left;
            0 <= left <= right <= left + 1
        }),
{
}

/// The frame of a window comes off its size, as far as there is any.
pub proof fn the_frame_comes_off(outer: int, frame: int)
    ensures
        outer >= frame ==> less_frame(outer, frame) + frame == outer,
        outer < frame ==> less_frame(outer, frame) == 0,
{
}

} // verus!
