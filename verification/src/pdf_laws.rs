//! What a reader finds in a file of labels.

use vstd::prelude::*;
use vstd::utf8::encode_utf8;
use crate::labels::Raster;
use crate::num::half_away;
use crate::pdf::{
    bytes, complete, drawing, filled_sheet, finished, kids, lemma_bytes_append, lemma_sheet_edges,
    page_dict, page_number, page_numbers_do_not_drift, pages_of, pdf_file, picture_names,
    points_text, with_dict, with_images, with_page, with_pages, with_room_across, with_room_down,
    with_stream, xref_entries, Draft, PageView, PdfLayout, PlacementView,
};
use crate::text::{int_text, nat_text, zero_filled};

verus! {

// ── Lengths ─────────────────────────────────────────────────────────────

pub open spec fn numeral(d: int) -> char {
    (48 + d) as u32 as char
}

/// A number of thousandths, written with three decimals.
pub open spec fn thousandths_text(n: nat) -> Seq<char> {
    nat_text(n / 1000) + seq![
        '.',
        numeral((n / 100 % 10) as int),
        numeral((n / 10 % 10) as int),
        numeral((n % 10) as int),
    ]
}

/// A length is written in points, to the nearest thousandth: 635 of the units
/// that lengths are kept in are one point.
pub proof fn lengths_are_written_in_points(length: int)
    requires
        length >= 0,
    ensures
        exists|n: nat| #[trigger]
            points_text(length) == thousandths_text(n) && -127 <= 2 * (127 * n - 200 * length)
                <= 127,
{
    let n = half_away(200 * length, 127);
    let q = (400 * length + 127) / 254;
    assert(n == q);
    assert(n >= 0 && -127 <= 2 * (127 * n - 200 * length) <= 127);
    lemma_thousandths(n as nat);
    assert(points_text(length) =~= thousandths_text(n as nat)) by {
        reveal_strlit(".");
    }
}

/// A dot of the printer is four tenths of a point: a 180th of an inch.
pub proof fn a_dot_is_four_tenths_of_a_point(dots: nat)
    ensures
        points_text((254 * dots) as int) == thousandths_text(400 * dots),
{
    lengths_are_written_in_points((254 * dots) as int);
    let n = choose|n: nat| #[trigger]
        points_text((254 * dots) as int) == thousandths_text(n) && -127 <= 2 * (127 * n - 200 * (254
            * dots)) <= 127;
    assert(n == 400 * dots);
}

proof fn lemma_two_digits(m: nat)
    requires
        10 <= m < 100,
    ensures
        nat_text(m) == seq![numeral((m / 10) as int), numeral((m % 10) as int)],
{
    assert(nat_text(m / 10) == seq![numeral((m / 10) as int)]);
    assert(nat_text(m) =~= seq![numeral((m / 10) as int), numeral((m % 10) as int)]);
}

proof fn lemma_three_digits(m: nat)
    requires
        m < 1000,
    ensures
        zero_filled(nat_text(m), 3) == seq![
            numeral((m / 100) as int),
            numeral((m / 10 % 10) as int),
            numeral((m % 10) as int),
        ],
{
    let z = zero_filled(nat_text(m), 3);
    if m < 10 {
        assert(nat_text(m) == seq![numeral(m as int)]);
        assert(z =~= seq!['0', '0', numeral(m as int)]);
    } else if m < 100 {
        lemma_two_digits(m);
        assert(z =~= seq!['0', numeral((m / 10) as int), numeral((m % 10) as int)]);
    } else {
        let h = m / 10;
        lemma_two_digits(h);
        assert(nat_text(m) == nat_text(h).push(numeral((m % 10) as int)));
        assert(h / 10 == m / 100);
        assert(z =~= seq![
            numeral((h / 10) as int),
            numeral((h % 10) as int),
            numeral((m % 10) as int),
        ]);
    }
}

proof fn lemma_places(n: nat)
    ensures
        n % 1000 / 100 == n / 100 % 10,
        n % 1000 / 10 % 10 == n / 10 % 10,
        n % 1000 % 10 == n % 10,
{
    let k = n / 1000;
    let m = n % 1000;
    let a = m / 100;
    let r = m % 100;
    let b = r / 10;
    let c = r % 10;
    assert(n == 1000 * k + 100 * a + 10 * b + c && a < 10 && b < 10 && c < 10);
    assert(m == 100 * a + 10 * b + c);
    assert(n / 100 == 10 * k + a);
    assert(n / 10 == 100 * k + 10 * a + b);
    assert(m / 10 == 10 * a + b);
}

proof fn lemma_thousandths(n: nat)
    ensures
        zero_filled(nat_text(n % 1000), 3) == seq![
            numeral((n / 100 % 10) as int),
            numeral((n / 10 % 10) as int),
            numeral((n % 10) as int),
        ],
{
    let m = n % 1000;
    lemma_three_digits(m);
    lemma_places(n);
}

// ── Objects ─────────────────────────────────────────────────────────────

/// What an object of a file looks like.
pub open spec fn object(number: int, body: Seq<u8>) -> Seq<u8> {
    encode_utf8(int_text(number) + " 0 obj\n"@) + body + encode_utf8("endobj\n"@)
}

/// A stream of bytes with a dictionary that tells its length.
pub open spec fn stream(dict: Seq<char>, data: Seq<u8>) -> Seq<u8> {
    encode_utf8(
        "<< "@ + dict + " /Length "@ + int_text(data.len() as int) + " >>\nstream\n"@,
    ) + data + encode_utf8("\nendstream\n"@)
}

/// Whether object `number` stands in a file where the table says.
pub open spec fn stands(file: Seq<u8>, at: Seq<int>, number: int, body: Seq<u8>) -> bool {
    let whole = object(number, body);
    &&& 1 <= number <= at.len()
    &&& 0 <= at[number - 1]
    &&& at[number - 1] + whole.len() <= file.len()
    &&& file.subrange(at[number - 1], at[number - 1] + whole.len() as int) == whole
}

/// A picture in grey, a byte for each dot, row by row from the top: black where
/// the label has ink, else white.
pub open spec fn picture(label: Raster) -> Seq<u8> {
    stream(
        "/Type /XObject /Subtype /Image /Width "@ + int_text(label.width as int) + " /Height "@
            + int_text(label.height as int) + " /ColorSpace /DeviceGray /BitsPerComponent 8"@,
        Seq::new(
            (label.width * label.height) as nat,
            |i: int|
                {
                    let y = i / label.width as int;
                    let x = i % label.width as int;
                    if label.pixels@[y * label.width + x] {
                        0u8
                    } else {
                        255u8
                    }
                },
        ),
    )
}

/// The order to draw picture `i` of a page: its width and height, and how far
/// from the left and from the bottom its lower left corner lies.
pub open spec fn order(p: PlacementView, i: int) -> Seq<char> {
    "q "@ + points_text(p.width) + " 0 0 "@ + points_text(p.height) + " "@ + points_text(p.x)
        + " "@ + points_text(p.y) + " cm /Im"@ + int_text(i) + " Do Q\n"@
}

/// Whether a page stands in a file under a number: with its size, and behind it
/// the orders to draw its pictures, one after the other, and the pictures.
#[verifier::opaque]
pub open spec fn shows(
    file: Seq<u8>,
    at: Seq<int>,
    number: int,
    page: PageView,
    labels: Seq<Raster>,
) -> bool {
    let names = Seq::new(
        page.placements.len(),
        |i: int| "/Im"@ + int_text(i) + " "@ + int_text(number + 2 + i) + " 0 R "@,
    );
    let orders = Seq::new(page.placements.len(), |i: int| order(page.placements[i], i));
    &&& stands(
        file,
        at,
        number,
        encode_utf8(
            "<< "@ + ("/Type /Page /Parent 2 0 R /MediaBox [0 0 "@ + points_text(page.width) + " "@
                + points_text(page.height) + "] /Resources << /XObject << "@ + names.flatten()
                + ">> >> /Contents "@ + int_text(number + 1) + " 0 R"@) + " >>\n"@,
        ),
    )
    &&& stands(file, at, number + 1, stream(Seq::empty(), encode_utf8(orders.flatten())))
    &&& forall|i: int|
        0 <= i < page.placements.len() ==> #[trigger] stands(
            file,
            at,
            number + 2 + i,
            picture(labels[page.placements[i].label]),
        )
}

/// The line of the table for an object that starts at a place: ten digits, and
/// that the object is in use.
pub open spec fn entry(at: int) -> Seq<u8> {
    encode_utf8(zero_filled(nat_text(at as nat), 10) + " 00000 n \n"@)
}

/// Whether some bytes are a file with this body and these objects, its table and
/// the place of the table at the end.
pub open spec fn is_file(file: Seq<u8>, body: Seq<u8>, at: Seq<int>) -> bool {
    let size = int_text(at.len() as int + 1);
    file == body + encode_utf8("xref\n0 "@ + size + "\n"@) + encode_utf8(
        "0000000000 65535 f \n"@,
    ) + at.map_values(|x: int| entry(x)).flatten() + encode_utf8(
        "trailer\n<< /Size "@ + size + " /Root "@ + int_text(1) + " 0 R >>\nstartxref\n"@
            + int_text(body.len() as int) + "\n%%EOF"@,
    )
}

/// The list of pages, by the numbers of their objects.
pub open spec fn list_of(numbers: Seq<int>) -> Seq<u8> {
    encode_utf8(
        "<< /Type /Pages /Kids ["@ + numbers.map_values(|n: int| int_text(n) + " 0 R "@).flatten()
            + "] /Count "@ + int_text(numbers.len() as int) + " >>\n"@,
    )
}

/// A reader of the file finds, by way of the table at its end, the catalog, the
/// list of pages, and every page in its turn, which draws the pictures of its
/// labels where they were placed.
pub proof fn a_file_shows_its_pages(labels: Seq<Raster>, layout: PdfLayout)
    ensures
        exists|body: Seq<u8>, at: Seq<int>, numbers: Seq<int>|
            #![trigger is_file(pdf_file(labels, layout), body, at), list_of(numbers)]
            {
                let file = pdf_file(labels, layout);
                let pages = pages_of(labels, layout);
                &&& is_file(file, body, at)
                &&& file.take(15) == seq![
                    0x25u8,
                    0x50,
                    0x44,
                    0x46,
                    0x2d,
                    0x31,
                    0x2e,
                    0x34,
                    0x0a,
                    0x25,
                    0xe2,
                    0xe3,
                    0xcf,
                    0xd3,
                    0x0a,
                ]
                &&& stands(file, at, 1, encode_utf8("<< /Type /Catalog /Pages 2 0 R >>\n"@))
                &&& stands(file, at, 2, list_of(numbers))
                &&& numbers.len() == pages.len()
                &&& forall|k: int|
                    0 <= k < pages.len() ==> shows(
                        file,
                        at,
                        #[trigger] numbers[k],
                        pages[k],
                        labels,
                    )
            },
{
    let pages = pages_of(labels, layout);
    let d = complete(labels, pages);
    let file = pdf_file(labels, layout);
    let numbers = Seq::new(pages.len(), |k: int| page_number(pages, k));
    lemma_is_file(d);
    lemma_first_two(labels, pages);
    lemma_finished(d);
    let whole = object(1, encode_utf8("<< /Type /Catalog /Pages 2 0 R >>\n"@));
    lemma_stands_on(
        d.buf,
        file,
        d.objects,
        1,
        encode_utf8("<< /Type /Catalog /Pages 2 0 R >>\n"@),
    );
    lemma_stands_on(d.buf, file, d.objects, 2, list_of(numbers));
    assert(file.take(15) =~= d.buf.take(15));
    assert forall|k: int| 0 <= k < pages.len() implies shows(
        file,
        d.objects,
        #[trigger] numbers[k],
        pages[k],
        labels,
    ) by {
        lemma_page_shown(labels, pages, k, d, file);
    }
    assert(is_file(file, d.buf, d.objects));
}

proof fn lemma_stands_on(
    a: Seq<u8>,
    file: Seq<u8>,
    at: Seq<int>,
    number: int,
    body: Seq<u8>,
)
    requires
        stands(a, at, number, body),
        a.len() <= file.len(),
        file.take(a.len() as int) == a,
    ensures
        stands(file, at, number, body),
{
    let x = at[number - 1];
    let y = x + object(number, body).len() as int;
    assert(file.subrange(x, y) =~= file.take(a.len() as int).subrange(x, y));
}

proof fn lemma_finished(d: Draft)
    ensures
        d.buf.len() <= finished(d, 1).len(),
        finished(d, 1).take(d.buf.len() as int) == d.buf,
{
    assert(finished(d, 1).take(d.buf.len() as int) =~= d.buf);
}

proof fn lemma_is_file(d: Draft)
    ensures
        is_file(finished(d, 1), d.buf, d.objects),
{
    lemma_entries(d.objects, d.objects.len() as int);
    assert(d.objects.take(d.objects.len() as int) =~= d.objects);
}

/// The catalog and the list of pages, and the mark that the file begins with.
proof fn lemma_first_two(labels: Seq<Raster>, pages: Seq<PageView>)
    ensures
        ({
            let d = complete(labels, pages);
            let numbers = Seq::new(pages.len(), |k: int| page_number(pages, k));
            &&& d.objects.len() >= 2
            &&& d.buf.len() >= 15
            &&& d.buf.take(15) == crate::pdf::header()
            &&& stands(
                d.buf,
                d.objects,
                1,
                encode_utf8("<< /Type /Catalog /Pages 2 0 R >>\n"@),
            )
            &&& stands(d.buf, d.objects, 2, list_of(numbers))
        }),
{
    let n = pages.len() as int;
    let d = complete(labels, pages);
    let numbers = Seq::new(pages.len(), |k: int| page_number(pages, k));
    let base = with_pages(labels, pages, n);
    lemma_grows(labels, pages, 0, n);
    lemma_kids(pages, n);
    assert(numbers.take(n) =~= numbers);
    lemma_catalog();
    lemma_list(kids(pages, n), n);
    let a = object(1, encode_utf8("<< /Type /Catalog /Pages 2 0 R >>\n"@));
    let b = object(2, list_of(numbers));
    assert(d.buf =~= base.buf + a + b);
    let x = base.buf.len() as int;
    assert(d.buf.subrange(x, x + a.len() as int) =~= a);
    assert(d.buf.subrange(x + a.len() as int, x + a.len() as int + b.len() as int) =~= b);
    assert(base.buf.take(15) =~= crate::pdf::header());
    assert(d.buf.take(15) =~= base.buf.take(15));
}

// ── Where labels stand ──────────────────────────────────────────────────

/// With a page for each label, page `i` is exactly as large as label `i`, which
/// fills it: what is drawn is what the page holds, at its own size.
pub proof fn a_page_of_its_own_is_filled(labels: Seq<Raster>, layout: PdfLayout, i: int)
    requires
        layout is Pages || labels.len() == 1,
        0 <= i < labels.len(),
    ensures
        ({
            let pages = pages_of(labels, layout);
            &&& pages.len() == labels.len()
            &&& pages[i].width == 254 * labels[i].width
            &&& pages[i].height == 254 * labels[i].height
            &&& pages[i].placements.len() == 1
            &&& pages[i].placements[0].label == i
            &&& pages[i].placements[0].x == 0
            &&& pages[i].placements[0].y == 0
            &&& pages[i].placements[0].width == pages[i].width
            &&& pages[i].placements[0].height == pages[i].height
        }),
{
}

/// On a sheet, one label lies beside or below another that came before it, with
/// three millimetres between them.
pub open spec fn apart(p: PlacementView, q: PlacementView) -> bool {
    p.x + p.width + 3 * 1800 <= q.x || q.y + q.height + 3 * 1800 <= p.y
}

/// Of several labels on a sheet none touches another.
pub proof fn labels_on_a_sheet_do_not_touch(labels: Seq<Raster>, k: int, i: int, j: int)
    requires
        labels.len() > 1,
        0 <= k < pages_of(labels, PdfLayout::Grid).len(),
        0 <= i < j < pages_of(labels, PdfLayout::Grid)[k].placements.len(),
    ensures
        ({
            let page = pages_of(labels, PdfLayout::Grid)[k];
            apart(page.placements[i], page.placements[j])
        }),
{
    lemma_sheet(labels, labels.len() as int);
    let s = filled_sheet(labels, labels.len() as int);
    assert(well_set(s.pages[k]));
    assert(apart(s.pages[k].placements[i], s.pages[k].placements[j]));
}

/// Every sheet is an A4 page, and the labels on it have their own size and keep
/// ten millimetres from its edges, unless they are too large for that.
pub proof fn a_sheet_is_of_a4(labels: Seq<Raster>, k: int, i: int)
    requires
        labels.len() > 1,
        0 <= k < pages_of(labels, PdfLayout::Grid).len(),
        0 <= i < pages_of(labels, PdfLayout::Grid)[k].placements.len(),
    ensures
        ({
            let page = pages_of(labels, PdfLayout::Grid)[k];
            let p = page.placements[i];
            &&& page.width == 210 * 1800
            &&& page.height == 297 * 1800
            &&& p.x >= 10 * 1800
            &&& p.y + p.height <= page.height - 10 * 1800
            &&& p.x + p.width <= page.width - 10 * 1800 || p.x == 10 * 1800
            &&& p.y >= 10 * 1800 || p.y + p.height == page.height - 10 * 1800
            &&& 0 <= p.label < labels.len()
            &&& p.width == 254 * labels[p.label].width
            &&& p.height == 254 * labels[p.label].height
        }),
{
    lemma_sheet(labels, labels.len() as int);
    let s = filled_sheet(labels, labels.len() as int);
    assert(well_set(s.pages[k]));
    crate::pdf::labels_stay_inside_the_sheet(labels, labels.len() as int, k, i);
}

/// A label stands right behind the one before it, three millimetres away and at
/// the same height, wherever it fits there; a sheet that is begun is not left
/// while it has room.
pub proof fn a_label_stands_behind_the_one_before(labels: Seq<Raster>, n: int)
    requires
        0 < n < labels.len(),
    ensures
        ({
            let s = filled_sheet(labels, n);
            let t = filled_sheet(labels, n + 1);
            let p = s.pages.last().placements.last();
            let q = t.pages.last().placements.last();
            &&& p.label == n - 1
            &&& q.label == n
            &&& p.x + p.width + 3 * 1800 + q.width <= 200 * 1800 && p.y + p.height - q.height >= 10
                * 1800 ==> {
                &&& t.pages.len() == s.pages.len()
                &&& q.x == p.x + p.width + 3 * 1800
                &&& q.y + q.height == p.y + p.height
            }
            &&& t.pages.len() > s.pages.len() ==> {
                &&& t.pages.len() == s.pages.len() + 1
                &&& q.x == 10 * 1800
                &&& q.y + q.height == 287 * 1800
            }
        }),
{
    lemma_sheet_edges(labels, n - 1);
    lemma_sheet_edges(labels, n);
    crate::pdf::lemma_sheet_has_page(labels, n - 1);
    crate::pdf::lemma_sheet_has_page(labels, n);
}

spec fn well_set(page: PageView) -> bool {
    &&& page.width == 378000
    &&& page.height == 534600
    &&& forall|i: int|
        0 <= i < page.placements.len() ==> (#[trigger] page.placements[i]).y
            + page.placements[i].height <= 534600 - 18000
    &&& forall|i: int, j: int|
        0 <= i < j < page.placements.len() ==> apart(
            #[trigger] page.placements[i],
            #[trigger] page.placements[j],
        )
}

/// The last page of a sheet: its labels are in the row that is being filled, or
/// above it.
proof fn lemma_sheet(labels: Seq<Raster>, n: int)
    requires
        0 <= n <= labels.len(),
    ensures
        ({
            let s = filled_sheet(labels, n);
            &&& s.pages.len() > 0
            &&& forall|k: int| 0 <= k < s.pages.len() ==> well_set(#[trigger] s.pages[k])
            &&& forall|i: int|
                0 <= i < s.pages.last().placements.len() ==> {
                    let p = #[trigger] s.pages.last().placements[i];
                    (p.x + p.width + 5400 <= s.x && p.y + p.height == 534600 - s.top && p.height
                        <= s.row) || p.y >= 534600 - s.top + 5400
                }
        }),
    decreases n,
{
    lemma_sheet_edges(labels, n);
    if n > 0 {
        lemma_sheet(labels, n - 1);
        lemma_sheet_edges(labels, n - 1);
        let s = filled_sheet(labels, n - 1);
        let width = 254 * labels[n - 1].width;
        let height = 254 * labels[n - 1].height;
        let u = with_room_across(s, width);
        let t = with_room_down(u, height);
        let e = filled_sheet(labels, n);
        let q = e.pages.last().placements.last();
        assert(t.pages.len() > 0 && e.pages.len() == t.pages.len());
        assert forall|i: int| 0 <= i < t.pages.last().placements.len() implies {
            let p = #[trigger] t.pages.last().placements[i];
            (p.x + p.width + 5400 <= t.x && p.y + p.height == 534600 - t.top && p.height <= t.row)
                || p.y >= 534600 - t.top + 5400
        } by {
            if t.pages.len() == s.pages.len() {
                assert(t.pages.last().placements[i] == s.pages.last().placements[i]);
            }
        }
        assert forall|k: int| 0 <= k < e.pages.len() implies well_set(#[trigger] e.pages[k]) by {
            if k < e.pages.len() - 1 {
                assert(e.pages[k] == t.pages[k]);
                assert(t.pages[k] == s.pages[k]);
            } else {
                let page = e.pages[k];
                let old = t.pages.last();
                assert(well_set(old)) by {
                    if t.pages.len() == s.pages.len() {
                        assert(old == s.pages[s.pages.len() - 1]);
                    }
                }
                assert(page.placements =~= old.placements.push(q));
                assert forall|i: int, j: int| 0 <= i < j < page.placements.len() implies apart(
                    #[trigger] page.placements[i],
                    #[trigger] page.placements[j],
                ) by {
                    assert(page.placements[i] == old.placements[i]);
                    if j < old.placements.len() {
                        assert(page.placements[j] == old.placements[j]);
                    }
                }
                assert forall|i: int| 0 <= i < page.placements.len() implies (
                #[trigger] page.placements[i]).y + page.placements[i].height <= 534600 - 18000 by {
                    if i < old.placements.len() {
                        assert(page.placements[i] == old.placements[i]);
                    }
                }
            }
        }
        assert forall|i: int| 0 <= i < e.pages.last().placements.len() implies {
            let p = #[trigger] e.pages.last().placements[i];
            (p.x + p.width + 5400 <= e.x && p.y + p.height == 534600 - e.top && p.height <= e.row)
                || p.y >= 534600 - e.top + 5400
        } by {
            if i < t.pages.last().placements.len() {
                assert(e.pages.last().placements[i] == t.pages.last().placements[i]);
            }
        }
    }
}

// ── Proofs ──────────────────────────────────────────────────────────────

/// Whether a draft was carried on from another; the first two objects are
/// written last.
spec fn carries_on(d: Draft, e: Draft) -> bool {
    &&& d.buf.len() <= e.buf.len()
    &&& e.buf.take(d.buf.len() as int) == d.buf
    &&& d.objects.len() <= e.objects.len()
    &&& forall|i: int| 2 <= i < d.objects.len() ==> #[trigger] e.objects[i] == d.objects[i]
}

proof fn lemma_carries_on(d: Draft, e: Draft, f: Draft)
    requires
        carries_on(d, e),
        carries_on(e, f),
    ensures
        carries_on(d, f),
{
    assert(f.buf.take(d.buf.len() as int) =~= e.buf.take(d.buf.len() as int));
    assert forall|i: int| 2 <= i < d.objects.len() implies #[trigger] f.objects[i]
        == d.objects[i] by {
        assert(e.objects[i] == d.objects[i]);
    }
}

proof fn lemma_stays(d: Draft, e: Draft, number: int, body: Seq<u8>)
    requires
        stands(d.buf, d.objects, number, body),
        carries_on(d, e),
        number >= 3,
    ensures
        stands(e.buf, e.objects, number, body),
{
    let a = d.objects[number - 1];
    let b = a + object(number, body).len() as int;
    assert(e.objects[number - 1] == a);
    assert(e.buf.subrange(a, b) =~= e.buf.take(d.buf.len() as int).subrange(a, b));
}

proof fn lemma_dict_stands(d: Draft, dict: Seq<char>)
    requires
        d.objects.len() >= 2,
    ensures
        ({
            let e = with_dict(d, dict);
            &&& carries_on(d, e)
            &&& e.objects.len() == d.objects.len() + 1
            &&& stands(
                e.buf,
                e.objects,
                d.objects.len() as int + 1,
                encode_utf8("<< "@ + dict + " >>\n"@),
            )
        }),
{
    let e = with_dict(d, dict);
    let n = d.objects.len() as int + 1;
    let whole = object(n, encode_utf8("<< "@ + dict + " >>\n"@));
    assert(e.buf =~= d.buf + whole);
    assert(e.buf.take(d.buf.len() as int) =~= d.buf);
    assert(e.buf.subrange(d.buf.len() as int, d.buf.len() as int + whole.len()) =~= whole);
}

proof fn lemma_stream_stands(d: Draft, dict: Seq<char>, data: Seq<u8>)
    requires
        d.objects.len() >= 2,
    ensures
        ({
            let e = with_stream(d, dict, data);
            &&& carries_on(d, e)
            &&& e.objects.len() == d.objects.len() + 1
            &&& stands(e.buf, e.objects, d.objects.len() as int + 1, stream(dict, data))
        }),
{
    let e = with_stream(d, dict, data);
    let n = d.objects.len() as int + 1;
    let whole = object(n, stream(dict, data));
    assert(e.buf =~= d.buf + whole);
    assert(e.buf.take(d.buf.len() as int) =~= d.buf);
    assert(e.buf.subrange(d.buf.len() as int, d.buf.len() as int + whole.len()) =~= whole);
}

proof fn lemma_images_stand(d: Draft, labels: Seq<Raster>, placements: Seq<PlacementView>, n: int)
    requires
        d.objects.len() >= 2,
        0 <= n <= placements.len(),
    ensures
        ({
            let e = with_images(d, labels, placements, n);
            &&& carries_on(d, e)
            &&& e.objects.len() == d.objects.len() + n
            &&& forall|i: int|
                0 <= i < n ==> #[trigger] stands(
                    e.buf,
                    e.objects,
                    d.objects.len() + 1 + i,
                    picture(labels[placements[i].label]),
                )
        }),
    decreases n,
{
    let e = with_images(d, labels, placements, n);
    if n > 0 {
        let c = with_images(d, labels, placements, n - 1);
        let label = labels[placements[n - 1].label];
        lemma_images_stand(d, labels, placements, n - 1);
        let dict = "/Type /XObject /Subtype /Image /Width "@ + int_text(label.width as int)
            + " /Height "@ + int_text(label.height as int)
            + " /ColorSpace /DeviceGray /BitsPerComponent 8"@;
        lemma_stream_stands(c, dict, label.shades());
        lemma_carries_on(d, c, e);
        assert(label.shades() =~= Seq::new(
            (label.width * label.height) as nat,
            |i: int|
                {
                    let y = i / label.width as int;
                    let x = i % label.width as int;
                    if label.pixels@[y * label.width + x] {
                        0u8
                    } else {
                        255u8
                    }
                },
        ));
        assert forall|i: int| 0 <= i < n implies #[trigger] stands(
            e.buf,
            e.objects,
            d.objects.len() + 1 + i,
            picture(labels[placements[i].label]),
        ) by {
            if i < n - 1 {
                assert(stands(
                    c.buf,
                    c.objects,
                    d.objects.len() + 1 + i,
                    picture(labels[placements[i].label]),
                ));
                lemma_stays(
                    c,
                    e,
                    d.objects.len() + 1 + i,
                    picture(labels[placements[i].label]),
                );
            }
        }
    } else {
        assert(e.buf.take(d.buf.len() as int) =~= d.buf);
    }
}

proof fn lemma_names(first: int, n: int)
    requires
        0 <= n,
    ensures
        picture_names(first, n) == Seq::new(
            n as nat,
            |i: int| "/Im"@ + int_text(i) + " "@ + int_text(first + i) + " 0 R "@,
        ).flatten(),
    decreases n,
{
    let f = |i: int| "/Im"@ + int_text(i) + " "@ + int_text(first + i) + " 0 R "@;
    let s = Seq::new(n as nat, f);
    s.lemma_flatten_and_flatten_alt_are_equivalent();
    if n > 0 {
        lemma_names(first, n - 1);
        let t = Seq::new((n - 1) as nat, f);
        t.lemma_flatten_and_flatten_alt_are_equivalent();
        assert(s.drop_last() =~= t);
        assert(s.last() == f(n - 1));
        assert(picture_names(first, n) =~= s.flatten());
    } else {
        assert(s.flatten() =~= Seq::empty());
    }
}

proof fn lemma_join<T>(a: Seq<T>, b: Seq<T>, c: Seq<T>)
    ensures
        a + b + c == a + (b + c),
{
    assert(a + b + c =~= a + (b + c));
}

proof fn lemma_orders(placements: Seq<PlacementView>, n: int)
    requires
        0 <= n <= placements.len(),
    ensures
        drawing(placements, n) == Seq::new(n as nat, |i: int| order(placements[i], i)).flatten(),
    decreases n,
{
    let f = |i: int| order(placements[i], i);
    let s = Seq::new(n as nat, f);
    s.lemma_flatten_and_flatten_alt_are_equivalent();
    if n > 0 {
        lemma_orders(placements, n - 1);
        let t = Seq::new((n - 1) as nat, f);
        t.lemma_flatten_and_flatten_alt_are_equivalent();
        assert(s.drop_last() =~= t);
        assert(s.last() == f(n - 1));
        let p = placements[n - 1];
        let d = drawing(placements, n - 1);
        let o1 = "q "@;
        let o2 = o1 + points_text(p.width);
        let o3 = o2 + " 0 0 "@;
        let o4 = o3 + points_text(p.height);
        let o5 = o4 + " "@;
        let o6 = o5 + points_text(p.x);
        let o7 = o6 + " "@;
        let o8 = o7 + points_text(p.y);
        let o9 = o8 + " cm /Im"@;
        let o10 = o9 + int_text(n - 1);
        lemma_join(d, o1, points_text(p.width));
        lemma_join(d, o2, " 0 0 "@);
        lemma_join(d, o3, points_text(p.height));
        lemma_join(d, o4, " "@);
        lemma_join(d, o5, points_text(p.x));
        lemma_join(d, o6, " "@);
        lemma_join(d, o7, points_text(p.y));
        lemma_join(d, o8, " cm /Im"@);
        lemma_join(d, o9, int_text(n - 1));
        lemma_join(d, o10, " Do Q\n"@);
    } else {
        assert(s.flatten() =~= Seq::empty());
    }
}

proof fn lemma_kids(pages: Seq<PageView>, n: int)
    requires
        0 <= n <= pages.len(),
    ensures
        kids(pages, n) == Seq::new(pages.len(), |k: int| page_number(pages, k)).take(n).map_values(
            |n: int| int_text(n) + " 0 R "@,
        ).flatten(),
    decreases n,
{
    let all = Seq::new(pages.len(), |k: int| page_number(pages, k));
    let g = |n: int| int_text(n) + " 0 R "@;
    let s = all.take(n).map_values(g);
    s.lemma_flatten_and_flatten_alt_are_equivalent();
    if n > 0 {
        lemma_kids(pages, n - 1);
        let t = all.take(n - 1).map_values(g);
        t.lemma_flatten_and_flatten_alt_are_equivalent();
        assert(s.drop_last() =~= t);
        assert(s.last() == g(page_number(pages, n - 1)));
        assert(kids(pages, n) =~= s.flatten());
    } else {
        assert(s.flatten() =~= Seq::empty());
    }
}

proof fn lemma_entries(objects: Seq<int>, n: int)
    requires
        0 <= n <= objects.len(),
    ensures
        xref_entries(objects, n) == objects.take(n).map_values(|x: int| entry(x)).flatten(),
    decreases n,
{
    let g = |x: int| entry(x);
    let s = objects.take(n).map_values(g);
    s.lemma_flatten_and_flatten_alt_are_equivalent();
    if n > 0 {
        lemma_entries(objects, n - 1);
        let t = objects.take(n - 1).map_values(g);
        t.lemma_flatten_and_flatten_alt_are_equivalent();
        assert(s.drop_last() =~= t);
        assert(s.last() == g(objects[n - 1]));
        assert(xref_entries(objects, n) =~= s.flatten());
    } else {
        assert(s.flatten() =~= Seq::empty());
    }
}

/// What a page adds to a draft.
proof fn lemma_page_stands(d: Draft, labels: Seq<Raster>, page: PageView, number: int)
    requires
        d.objects.len() >= 2,
        number == d.objects.len() + 1,
    ensures
        ({
            let e = with_page(d, labels, page, number);
            carries_on(d, e) && shows(e.buf, e.objects, number, page, labels)
        }),
{
    reveal(shows);
    let n = page.placements.len() as int;
    let dict = page_dict(page, number);
    let a = with_dict(d, dict);
    let data = bytes(drawing(page.placements, n));
    let b = with_stream(a, Seq::empty(), data);
    let e = with_page(d, labels, page, number);
    lemma_dict_stands(d, dict);
    lemma_stream_stands(a, Seq::empty(), data);
    lemma_images_stand(b, labels, page.placements, n);
    lemma_carries_on(a, b, e);
    lemma_carries_on(d, a, e);
    lemma_names(number + 2, n);
    lemma_orders(page.placements, n);
    let names = Seq::new(
        page.placements.len(),
        |i: int| "/Im"@ + int_text(i) + " "@ + int_text(number + 2 + i) + " 0 R "@,
    );
    assert(names =~= Seq::new(
        n as nat,
        |i: int| "/Im"@ + int_text(i) + " "@ + int_text(number + 2 + i) + " 0 R "@,
    ));
    let orders = Seq::new(page.placements.len(), |i: int| order(page.placements[i], i));
    assert(orders =~= Seq::new(n as nat, |i: int| order(page.placements[i], i)));
    lemma_stays(a, e, number, encode_utf8("<< "@ + dict + " >>\n"@));
    lemma_stays(b, e, number + 1, stream(Seq::empty(), data));
    assert forall|i: int| 0 <= i < page.placements.len() implies #[trigger] stands(
        e.buf,
        e.objects,
        number + 2 + i,
        picture(labels[page.placements[i].label]),
    ) by {
        assert(stands(
            e.buf,
            e.objects,
            b.objects.len() + 1 + i,
            picture(labels[page.placements[i].label]),
        ));
    }
}

proof fn lemma_grows(labels: Seq<Raster>, pages: Seq<PageView>, j: int, k: int)
    requires
        0 <= j <= k <= pages.len(),
    ensures
        carries_on(with_pages(labels, pages, j), with_pages(labels, pages, k)),
    decreases k - j,
{
    let d = with_pages(labels, pages, j);
    let e = with_pages(labels, pages, k);
    if j < k {
        lemma_grows(labels, pages, j, k - 1);
        let c = with_pages(labels, pages, k - 1);
        page_numbers_do_not_drift(labels, pages, k - 1);
        crate::pdf::lemma_page_number_bound(pages, 0, k - 1);
        lemma_page_stands(c, labels, pages[k - 1], page_number(pages, k - 1));
        lemma_carries_on(d, c, e);
    } else {
        assert(e.buf.take(d.buf.len() as int) =~= d.buf);
    }
}

proof fn lemma_shows_on(
    d: Draft,
    e: Draft,
    number: int,
    page: PageView,
    labels: Seq<Raster>,
)
    requires
        shows(d.buf, d.objects, number, page, labels),
        carries_on(d, e),
        number >= 3,
    ensures
        shows(e.buf, e.objects, number, page, labels),
{
    reveal(shows);
    let names = Seq::new(
        page.placements.len(),
        |i: int| "/Im"@ + int_text(i) + " "@ + int_text(number + 2 + i) + " 0 R "@,
    );
    let orders = Seq::new(page.placements.len(), |i: int| order(page.placements[i], i));
    let body = encode_utf8(
        "<< "@ + ("/Type /Page /Parent 2 0 R /MediaBox [0 0 "@ + points_text(page.width) + " "@
            + points_text(page.height) + "] /Resources << /XObject << "@ + names.flatten()
            + ">> >> /Contents "@ + int_text(number + 1) + " 0 R"@) + " >>\n"@,
    );
    assert(stands(d.buf, d.objects, number, body));
    lemma_stays(d, e, number, body);
    lemma_stays(d, e, number + 1, stream(Seq::empty(), encode_utf8(orders.flatten())));
    assert forall|i: int| 0 <= i < page.placements.len() implies #[trigger] stands(
        e.buf,
        e.objects,
        number + 2 + i,
        picture(labels[page.placements[i].label]),
    ) by {
        assert(stands(
            d.buf,
            d.objects,
            number + 2 + i,
            picture(labels[page.placements[i].label]),
        ));
        lemma_stays(d, e, number + 2 + i, picture(labels[page.placements[i].label]));
    }
}

#[verifier::spinoff_prover]
proof fn lemma_whole(labels: Seq<Raster>, pages: Seq<PageView>, d: Draft, file: Seq<u8>)
    requires
        d == complete(labels, pages),
        d.buf.len() <= file.len(),
        file.take(d.buf.len() as int) == d.buf,
    ensures
        carries_on(
            with_pages(labels, pages, pages.len() as int),
            Draft { buf: file, objects: d.objects },
        ),
{
    let base = with_pages(labels, pages, pages.len() as int);
    let a = bytes("1 0 obj\n<< /Type /Catalog /Pages 2 0 R >>\nendobj\n"@);
    let b = bytes(
        "2 0 obj\n<< /Type /Pages /Kids ["@ + kids(pages, pages.len() as int) + "] /Count "@
            + int_text(pages.len() as int) + " >>\nendobj\n"@,
    );
    page_numbers_do_not_drift(labels, pages, pages.len() as int);
    crate::pdf::lemma_page_number_bound(pages, 0, pages.len() as int);
    lemma_written_last(base, a, b, d, file);
}

proof fn lemma_written_last(base: Draft, a: Seq<u8>, b: Seq<u8>, d: Draft, file: Seq<u8>)
    requires
        base.objects.len() >= 2,
        d.buf == base.buf + a + b,
        d.objects == base.objects.update(0, base.buf.len() as int).update(
            1,
            (base.buf + a).len() as int,
        ),
        d.buf.len() <= file.len(),
        file.take(d.buf.len() as int) == d.buf,
    ensures
        carries_on(base, Draft { buf: file, objects: d.objects }),
{
    lemma_begins(base.buf, a, b, file);
    assert forall|i: int| 2 <= i < base.objects.len() implies #[trigger] d.objects[i]
        == base.objects[i] by {
    }
}

proof fn lemma_begins(base: Seq<u8>, a: Seq<u8>, b: Seq<u8>, file: Seq<u8>)
    requires
        (base + a + b).len() <= file.len(),
        file.take((base + a + b).len() as int) == base + a + b,
    ensures
        base.len() <= file.len(),
        file.take(base.len() as int) == base,
{
    let all = base + a + b;
    assert forall|i: int| 0 <= i < base.len() implies file[i] == base[i] by {
        assert(file.take(all.len() as int)[i] == all[i]);
    }
    assert(file.take(base.len() as int) =~= base);
}

#[verifier::spinoff_prover]
proof fn lemma_page_shown(
    labels: Seq<Raster>,
    pages: Seq<PageView>,
    k: int,
    d: Draft,
    file: Seq<u8>,
)
    requires
        0 <= k < pages.len(),
        d == complete(labels, pages),
        d.buf.len() <= file.len(),
        file.take(d.buf.len() as int) == d.buf,
    ensures
        shows(file, d.objects, page_number(pages, k), pages[k], labels),
{
    let n = pages.len() as int;
    let number = page_number(pages, k);
    page_numbers_do_not_drift(labels, pages, k);
    crate::pdf::lemma_page_number_bound(pages, 0, k);
    let c = with_pages(labels, pages, k);
    lemma_page_stands(c, labels, pages[k], number);
    let e = with_pages(labels, pages, k + 1);
    assert(e == with_page(c, labels, pages[k], number));
    lemma_grows(labels, pages, k + 1, n);
    let base = with_pages(labels, pages, n);
    lemma_shows_on(e, base, number, pages[k], labels);
    let whole = Draft { buf: file, objects: d.objects };
    lemma_whole(labels, pages, d, file);
    lemma_shows_on(base, whole, number, pages[k], labels);
}

proof fn lemma_catalog()
    ensures
        bytes("1 0 obj\n<< /Type /Catalog /Pages 2 0 R >>\nendobj\n"@) == object(
            1,
            encode_utf8("<< /Type /Catalog /Pages 2 0 R >>\n"@),
        ),
{
    reveal_strlit("1 0 obj\n<< /Type /Catalog /Pages 2 0 R >>\nendobj\n");
    reveal_strlit(" 0 obj\n");
    reveal_strlit("<< /Type /Catalog /Pages 2 0 R >>\n");
    reveal_strlit("endobj\n");
    assert(int_text(1) =~= seq!['1']);
    let a = int_text(1) + " 0 obj\n"@;
    let b = "<< /Type /Catalog /Pages 2 0 R >>\n"@;
    let c = "endobj\n"@;
    assert("1 0 obj\n<< /Type /Catalog /Pages 2 0 R >>\nendobj\n"@ =~= a + b + c);
    lemma_bytes_append(a, b);
    lemma_bytes_append(a + b, c);
}

proof fn lemma_list(kids: Seq<char>, n: int)
    ensures
        bytes(
            "2 0 obj\n<< /Type /Pages /Kids ["@ + kids + "] /Count "@ + int_text(n)
                + " >>\nendobj\n"@,
        ) == object(
            2,
            encode_utf8(
                "<< /Type /Pages /Kids ["@ + kids + "] /Count "@ + int_text(n) + " >>\n"@,
            ),
        ),
{
    reveal_strlit("2 0 obj\n<< /Type /Pages /Kids [");
    reveal_strlit("<< /Type /Pages /Kids [");
    reveal_strlit(" 0 obj\n");
    reveal_strlit(" >>\nendobj\n");
    reveal_strlit(" >>\n");
    reveal_strlit("endobj\n");
    assert(int_text(2) =~= seq!['2']);
    let a = int_text(2) + " 0 obj\n"@;
    let c = "endobj\n"@;
    assert("2 0 obj\n<< /Type /Pages /Kids ["@ =~= a + "<< /Type /Pages /Kids ["@);
    assert(" >>\nendobj\n"@ =~= " >>\n"@ + c);
    let b = "<< /Type /Pages /Kids ["@ + kids + "] /Count "@ + int_text(n) + " >>\n"@;
    assert("2 0 obj\n<< /Type /Pages /Kids ["@ + kids + "] /Count "@ + int_text(n)
        + " >>\nendobj\n"@ =~= a + b + c);
    lemma_bytes_append(a, b);
    lemma_bytes_append(a + b, c);
}

} // verus!
