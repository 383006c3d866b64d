//! A PDF file of labels: the way to print them without the label printer.
//!
//! A label is a grey picture, drawn at its own size on a page of that size or
//! among others on a sheet. There is no compression and there are no fonts.

use vstd::prelude::*;
use vstd::string::*;
use vstd::utf8::encode_utf8;
use crate::labels::Raster;
use crate::num::{half_away, round_half_away};
use crate::text::{
    int_text, nat_text, push_int, push_nat, push_zero_filled, zero_filled,
};

verus! {

// Lengths are whole numbers of 635ths of a point: a dot of the printer (a
// 180th of an inch) is 254 of them, a millimetre is 1800.

pub const DOT: i128 = 254;

pub const PAGE_WIDTH: i128 = 378000;

pub const PAGE_HEIGHT: i128 = 534600;

pub const MARGIN: i128 = 18000;

pub const GAP: i128 = 5400;

/// How several labels share a file. A single label is always one page sized
/// exactly to it, whatever the layout: that only matters once there is more
/// than one.
#[derive(Debug, Clone, Copy, PartialEq, Eq, Structural)]
pub enum PdfLayout {
    /// One page for each label, as large as the label.
    Pages,
    /// Labels side by side and below each other on A4 pages.
    Grid,
}

/// A length in points, with three decimals.
pub open spec fn points_text(length: int) -> Seq<char> {
    let thousandths = half_away(200 * length, 127);
    let size = if thousandths < 0 {
        -thousandths
    } else {
        thousandths
    };
    let sign = if thousandths < 0 {
        seq!['-']
    } else {
        Seq::empty()
    };
    sign + nat_text((size / 1000) as nat) + "."@ + zero_filled(nat_text((size % 1000) as nat), 3)
}

fn push_points(out: &mut String, length: i128)
    requires
        -0x1_0000_0000_0000_0000_0000_0000_0000 < length < 0x1_0000_0000_0000_0000_0000_0000_0000,
    ensures
        final(out)@ == old(out)@ + points_text(length as int),
{
    let ghost start = out@;
    let thousandths = round_half_away(200 * length, 127);
    let size: u128 = if thousandths < 0 {
        out.push('-');
        (0 - thousandths) as u128
    } else {
        thousandths as u128
    };
    push_nat(out, size / 1000);
    out.append(".");
    push_zero_filled(out, size % 1000, 3);
    assert(out@ =~= start + points_text(length as int));
}

// ── Where the labels stand ──────────────────────────────────────────────

/// A label on a page: which one, where its lower left corner is and how large
/// it is.
#[derive(Clone, Copy)]
struct Placement {
    label: usize,
    x: i128,
    y: i128,
    width: i128,
    height: i128,
}

pub struct PlacementView {
    pub label: int,
    pub x: int,
    pub y: int,
    pub width: int,
    pub height: int,
}

struct Page {
    width: i128,
    height: i128,
    placements: Vec<Placement>,
}

#[verifier::ext_equal]
pub struct PageView {
    pub width: int,
    pub height: int,
    pub placements: Seq<PlacementView>,
}

impl Placement {
    spec fn model(self) -> PlacementView {
        PlacementView {
            label: self.label as int,
            x: self.x as int,
            y: self.y as int,
            width: self.width as int,
            height: self.height as int,
        }
    }

    spec fn bounded(self) -> bool {
        &&& -0x1_0000_0000_0000_0000_0000_0000_0000 < self.x
            < 0x1_0000_0000_0000_0000_0000_0000_0000
        &&& -0x1_0000_0000_0000_0000_0000_0000_0000 < self.y
            < 0x1_0000_0000_0000_0000_0000_0000_0000
        &&& 0 <= self.width < 0x1_0000_0000_0000_0000
        &&& 0 <= self.height < 0x1_0000_0000_0000_0000
    }
}

impl Page {
    spec fn model(self) -> PageView {
        PageView {
            width: self.width as int,
            height: self.height as int,
            placements: placement_models(self.placements@),
        }
    }

    /// Its lengths can be written out, and its labels are among the first
    /// `labels`.
    spec fn bounded(self, labels: int) -> bool {
        &&& 0 <= self.width < 0x1_0000_0000_0000_0000
        &&& 0 <= self.height < 0x1_0000_0000_0000_0000
        &&& forall|i: int|
            0 <= i < self.placements@.len() ==> (#[trigger] self.placements@[i]).bounded()
                && self.placements@[i].label < labels
    }
}

spec fn placement_models(s: Seq<Placement>) -> Seq<PlacementView> {
    s.map_values(|p: Placement| p.model())
}

spec fn page_models(s: Seq<Page>) -> Seq<PageView> {
    s.map_values(|p: Page| p.model())
}

spec fn pages_bounded(s: Seq<Page>, labels: int) -> bool {
    forall|i: int| 0 <= i < s.len() ==> (#[trigger] s[i]).bounded(labels)
}

/// A page with one label, exactly as large as it.
pub open spec fn own_page(label: int, width: int, height: int) -> PageView {
    PageView {
        width: DOT * width,
        height: DOT * height,
        placements: seq![
            PlacementView { label, x: 0, y: 0, width: DOT * width, height: DOT * height },
        ],
    }
}

pub open spec fn own_pages(labels: Seq<Raster>) -> Seq<PageView> {
    Seq::new(
        labels.len(),
        |i: int| own_page(i, labels[i].width as int, labels[i].height as int),
    )
}

fn pages_layout(labels: &Vec<Raster>) -> (r: Vec<Page>)
    ensures
        page_models(r@) == own_pages(labels@),
        pages_bounded(r@, labels@.len() as int),
{
    let mut pages: Vec<Page> = Vec::new();
    let mut i: usize = 0;
    while i < labels.len()
        invariant
            i <= labels@.len(),
            page_models(pages@) == own_pages(labels@).take(i as int),
            pages_bounded(pages@, labels@.len() as int),
        decreases labels@.len() - i,
    {
        let width: i128 = DOT * labels[i].width as i128;
        let height: i128 = DOT * labels[i].height as i128;
        let placed = Placement { label: i, x: 0, y: 0, width, height };
        let mut placements: Vec<Placement> = Vec::new();
        placements.push(placed);
        let page = Page { width, height, placements };
        let ghost before = pages@;
        pages.push(page);
        proof {
            assert(placement_models(page.placements@) =~= own_page(
                i as int,
                labels@[i as int].width as int,
                labels@[i as int].height as int,
            ).placements);
            assert(page_models(pages@) =~= page_models(before).push(page.model()));
            assert(page_models(pages@) =~= own_pages(labels@).take(i + 1));
        }
        i = i + 1;
    }
    assert(own_pages(labels@).take(labels@.len() as int) =~= own_pages(labels@));
    pages
}

/// A sheet that is being filled: the pages so far, and on the last one where
/// the next label goes, from the left and from the top, and how high the row
/// is.
#[verifier::ext_equal]
pub struct Sheet {
    pub pages: Seq<PageView>,
    pub x: int,
    pub top: int,
    pub row: int,
}

pub open spec fn fresh_page() -> PageView {
    PageView { width: PAGE_WIDTH as int, height: PAGE_HEIGHT as int, placements: Seq::empty() }
}

pub open spec fn empty_sheet() -> Sheet {
    Sheet { pages: seq![fresh_page()], x: MARGIN as int, top: MARGIN as int, row: 0 }
}

/// Begins a new row where a label of this width does not fit behind others.
pub open spec fn with_room_across(s: Sheet, width: int) -> Sheet {
    if s.x + width > PAGE_WIDTH - MARGIN && s.x > MARGIN {
        Sheet { x: MARGIN as int, top: s.top + s.row + GAP, row: 0, ..s }
    } else {
        s
    }
}

/// Begins a new page where a label of this height does not fit below others.
pub open spec fn with_room_down(s: Sheet, height: int) -> Sheet {
    if s.top + height > PAGE_HEIGHT - MARGIN && s.top > MARGIN {
        Sheet {
            pages: s.pages.push(fresh_page()),
            x: MARGIN as int,
            top: MARGIN as int,
            row: 0,
        }
    } else {
        s
    }
}

pub open spec fn with_placement(pages: Seq<PageView>, p: PlacementView) -> Seq<PageView> {
    pages.drop_last().push(
        PageView { placements: pages.last().placements.push(p), ..pages.last() },
    )
}

/// Puts one more label on the sheet.
pub open spec fn with_label(s: Sheet, label: int, width: int, height: int) -> Sheet {
    let t = with_room_down(with_room_across(s, width), height);
    Sheet {
        pages: with_placement(
            t.pages,
            PlacementView { label, x: t.x, y: PAGE_HEIGHT - t.top - height, width, height },
        ),
        x: t.x + width + GAP,
        top: t.top,
        row: if t.row < height {
            height
        } else {
            t.row
        },
    }
}

/// The sheet with the first `n` labels on it.
pub open spec fn filled_sheet(labels: Seq<Raster>, n: int) -> Sheet
    decreases n,
{
    if n <= 0 {
        empty_sheet()
    } else {
        with_label(
            filled_sheet(labels, n - 1),
            n - 1,
            DOT * labels[n - 1].width,
            DOT * labels[n - 1].height,
        )
    }
}

pub proof fn lemma_sheet_has_page(labels: Seq<Raster>, n: int)
    ensures
        filled_sheet(labels, n).pages.len() > 0,
    decreases n,
{
    if n > 0 {
        lemma_sheet_has_page(labels, n - 1);
    }
}

fn fresh() -> (r: Page)
    ensures
        r.model() == fresh_page(),
        r.bounded(0),
{
    let r = Page { width: PAGE_WIDTH, height: PAGE_HEIGHT, placements: Vec::new() };
    assert(placement_models(r.placements@) =~= Seq::<PlacementView>::empty());
    r
}

/// Labels flow from left to right and wrap to a new row, or to a new page where
/// a row would not fit: a sheet of stickers, not a precision layout.
fn grid_layout(labels: &Vec<Raster>) -> (r: Vec<Page>)
    ensures
        page_models(r@) == filled_sheet(labels@, labels@.len() as int).pages,
        pages_bounded(r@, labels@.len() as int),
{
    let mut pages: Vec<Page> = Vec::new();
    pages.push(fresh());
    let mut x: i128 = MARGIN;
    let mut top: i128 = MARGIN;
    let mut row: i128 = 0;
    let mut i: usize = 0;
    assert(page_models(pages@) =~= empty_sheet().pages);
    while i < labels.len()
        invariant
            i <= labels@.len(),
            pages@.len() > 0,
            pages_bounded(pages@, labels@.len() as int),
            (Sheet {
                pages: page_models(pages@),
                x: x as int,
                top: top as int,
                row: row as int,
            }) == filled_sheet(labels@, i as int),
            0 <= x <= 0x200_0000_0000 * (i + 1),
            0 <= top <= 0x200_0000_0000 * (i + 1),
            0 <= row <= 0x100_0000_0000,
        decreases labels@.len() - i,
    {
        let ghost start = filled_sheet(labels@, i as int);
        let width: i128 = DOT * labels[i].width as i128;
        let height: i128 = DOT * labels[i].height as i128;
        if x + width > PAGE_WIDTH - MARGIN && x > MARGIN {
            x = MARGIN;
            top = top + row + GAP;
            row = 0;
        }
        if top + height > PAGE_HEIGHT - MARGIN && top > MARGIN {
            let ghost before = pages@;
            pages.push(fresh());
            assert(page_models(pages@) =~= page_models(before).push(fresh_page()));
            x = MARGIN;
            top = MARGIN;
            row = 0;
        }
        let ghost t = with_room_down(with_room_across(start, width as int), height as int);
        assert(t == (Sheet {
            pages: page_models(pages@),
            x: x as int,
            top: top as int,
            row: row as int,
        }));
        let placed = Placement { label: i, x, y: PAGE_HEIGHT - top - height, width, height };
        let ghost before = pages@;
        let mut last = match pages.pop() {
            Some(p) => p,
            None => fresh(),
        };
        let ghost old_last = last;
        assert(before == pages@.push(last));
        assert(old_last.bounded(labels@.len() as int)) by {
            assert(before[before.len() - 1].bounded(labels@.len() as int));
        }
        last.placements.push(placed);
        proof {
            assert(placement_models(last.placements@) =~= placement_models(
                old_last.placements@,
            ).push(placed.model()));
            assert(last.bounded(labels@.len() as int)) by {
                assert forall|k: int| 0 <= k < last.placements@.len() implies (
                #[trigger] last.placements@[k]).bounded() && last.placements@[k].label
                    < labels@.len() by {
                    if k < old_last.placements@.len() {
                        assert(last.placements@[k] == old_last.placements@[k]);
                    }
                }
            }
        }
        let ghost rest = pages@;
        pages.push(last);
        proof {
            assert forall|k: int| 0 <= k < pages@.len() implies (#[trigger] pages@[k]).bounded(
                labels@.len() as int,
            ) by {
                if k < rest.len() {
                    assert(pages@[k] == before[k]);
                }
            }
            assert(page_models(before).drop_last() =~= page_models(rest));
            assert(page_models(before).last() == old_last.model());
            assert(page_models(pages@) =~= with_placement(page_models(before), placed.model()));
        }
        x = x + width + GAP;
        if row < height {
            row = height;
        }
        i = i + 1;
    }
    pages
}

// ── The file ────────────────────────────────────────────────────────────

/// A text as the bytes of a file.
pub open spec fn bytes(text: Seq<char>) -> Seq<u8> {
    encode_utf8(text)
}

/// A file that is being written: its bytes, and where each object starts.
/// Objects are numbered from one.
#[verifier::ext_equal]
pub struct Draft {
    pub buf: Seq<u8>,
    pub objects: Seq<int>,
}

pub open spec fn header() -> Seq<u8> {
    seq![
        0x25u8, 0x50, 0x44, 0x46, 0x2d, 0x31, 0x2e, 0x34, 0x0a, 0x25, 0xe2, 0xe3, 0xcf, 0xd3, 0x0a,
    ]
}

/// What an object of this number starts with.
pub open spec fn marker(number: int) -> Seq<u8> {
    bytes(int_text(number) + " 0 obj\n"@)
}

pub open spec fn begun(d: Draft) -> Draft {
    Draft {
        buf: d.buf + marker(d.objects.len() as int + 1),
        objects: d.objects.push(d.buf.len() as int),
    }
}

pub open spec fn with_text(d: Draft, text: Seq<char>) -> Draft {
    Draft { buf: d.buf + bytes(text), ..d }
}

pub open spec fn ended(d: Draft) -> Draft {
    with_text(d, "endobj\n"@)
}

pub open spec fn with_dict(d: Draft, dict: Seq<char>) -> Draft {
    ended(with_text(begun(d), "<< "@ + dict + " >>\n"@))
}

pub open spec fn with_stream(d: Draft, dict: Seq<char>, data: Seq<u8>) -> Draft {
    let opened = with_text(
        begun(d),
        "<< "@ + dict + " /Length "@ + int_text(data.len() as int) + " >>\nstream\n"@,
    );
    ended(with_text(Draft { buf: opened.buf + data, ..opened }, "\nendstream\n"@))
}

/// A label as a grey picture, black where there is ink.
pub open spec fn with_image(d: Draft, label: Raster) -> Draft {
    with_stream(
        d,
        "/Type /XObject /Subtype /Image /Width "@ + int_text(label.width as int) + " /Height "@
            + int_text(label.height as int) + " /ColorSpace /DeviceGray /BitsPerComponent 8"@,
        label.shades(),
    )
}

/// The bytes of a draft, and where its objects start.
struct PdfWriter {
    buf: Vec<u8>,
    objects: Vec<usize>,
}

fn push_bytes(out: &mut Vec<u8>, more: &[u8])
    ensures
        final(out)@ == old(out)@ + more@,
{
    let ghost start = out@;
    let mut i: usize = 0;
    assert(out@ =~= start + more@.take(0));
    while i < more.len()
        invariant
            i <= more@.len(),
            out@ == start + more@.take(i as int),
        decreases more@.len() - i,
    {
        out.push(more[i]);
        assert(out@ =~= start + more@.take(i + 1));
        i = i + 1;
    }
    assert(more@.take(more@.len() as int) =~= more@);
}

impl PdfWriter {
    spec fn model(&self) -> Draft {
        Draft { buf: self.buf@, objects: self.objects@.map_values(|n: usize| n as int) }
    }

    fn new() -> (r: Self)
        ensures
            r.model() == (Draft { buf: header(), objects: Seq::empty() }),
    {
        let buf: Vec<u8> = vec![
            0x25, 0x50, 0x44, 0x46, 0x2d, 0x31, 0x2e, 0x34, 0x0a, 0x25, 0xe2, 0xe3, 0xcf, 0xd3, 0x0a,
        ];
        assert(buf@ =~= header());
        let r = PdfWriter { buf, objects: Vec::new() };
        assert(r.model() =~= Draft { buf: header(), objects: Seq::empty() });
        r
    }

    fn write(&mut self, s: &str)
        ensures
            final(self).model() == with_text(old(self).model(), s@),
            final(self).objects == old(self).objects,
    {
        push_bytes(&mut self.buf, s.as_bytes());
    }

    /// Starts the object with the next number.
    fn begin_object(&mut self)
        ensures
            final(self).model() == begun(old(self).model()),
    {
        let ghost before = self.model();
        let ghost offsets = self.objects@;
        self.objects.push(self.buf.len());
        let mut line = String::new();
        push_int(&mut line, self.objects.len() as i128);
        line.append(" 0 obj\n");
        assert(line@ =~= int_text(before.objects.len() as int + 1) + " 0 obj\n"@);
        assert(self.model().objects =~= before.objects.push(before.buf.len() as int));
        self.write(line.as_str());
    }

    fn end_object(&mut self)
        ensures
            final(self).model() == ended(old(self).model()),
            final(self).objects == old(self).objects,
    {
        self.write("endobj\n");
    }

    /// Writes a whole object with a stream. `dict` is its dictionary without
    /// the length of the data.
    fn write_stream_object(&mut self, dict: &str, data: &Vec<u8>)
        ensures
            final(self).model() == with_stream(old(self).model(), dict@, data@),
    {
        self.begin_object();
        let mut line = "<< ".to_string();
        line.append(dict);
        line.append(" /Length ");
        push_int(&mut line, data.len() as i128);
        line.append(" >>\nstream\n");
        self.write(line.as_str());
        push_bytes(&mut self.buf, data.as_slice());
        self.write("\nendstream\n");
        self.end_object();
    }

    fn write_dict_object(&mut self, dict: &str)
        ensures
            final(self).model() == with_dict(old(self).model(), dict@),
    {
        self.begin_object();
        let mut line = "<< ".to_string();
        line.append(dict);
        line.append(" >>\n");
        self.write(line.as_str());
        self.end_object();
    }

    fn write_image_object(&mut self, label: &Raster)
        requires
            label.wf(),
        ensures
            final(self).model() == with_image(old(self).model(), *label),
    {
        let data = label.grey_bytes();
        let mut dict = "/Type /XObject /Subtype /Image /Width ".to_string();
        push_int(&mut dict, label.width as i128);
        dict.append(" /Height ");
        push_int(&mut dict, label.height as i128);
        dict.append(" /ColorSpace /DeviceGray /BitsPerComponent 8");
        self.write_stream_object(dict.as_str(), &data);
    }

    /// Writes the table of objects and the trailer, and hands out the file.
    fn finish(self, catalog: u128) -> (r: Vec<u8>)
        requires
            catalog <= u32::MAX,
        ensures
            r@ == finished(self.model(), catalog as int),
    {
        let mut w = self;
        let ghost start = w.model();
        let xref_offset = w.buf.len();
        let total = w.objects.len();
        let mut line = "xref\n0 ".to_string();
        push_int(&mut line, total as i128 + 1);
        line.append("\n");
        w.write(line.as_str());
        w.write("0000000000 65535 f \n");
        let ghost head = w.model();
        let mut i: usize = 0;
        assert(w.model().buf =~= head.buf + xref_entries(start.objects, 0));
        while i < total
            invariant
                i <= total,
                total == w.objects@.len(),
                w.objects@ == self.objects@,
                start.objects == self.objects@.map_values(|n: usize| n as int),
                w.model().buf == head.buf + xref_entries(start.objects, i as int),
            decreases total - i,
        {
            let mut entry = String::new();
            push_zero_filled(&mut entry, w.objects[i] as u128, 10);
            entry.append(" 00000 n \n");
            assert(entry@ =~= zero_filled(nat_text(start.objects[i as int] as nat), 10)
                + " 00000 n \n"@);
            let ghost before = w.model();
            w.write(entry.as_str());
            assert(w.model().buf =~= head.buf + xref_entries(start.objects, i + 1));
            i = i + 1;
        }
        let mut tail = "trailer\n<< /Size ".to_string();
        push_int(&mut tail, total as i128 + 1);
        tail.append(" /Root ");
        push_int(&mut tail, catalog as i128);
        tail.append(" 0 R >>\nstartxref\n");
        push_int(&mut tail, xref_offset as i128);
        tail.append("\n%%EOF");
        w.write(tail.as_str());
        w.buf
    }
}

/// The entries of the table for the first `n` objects: where each starts, in
/// ten digits.
pub open spec fn xref_entries(objects: Seq<int>, n: int) -> Seq<u8>
    decreases n,
{
    if n <= 0 {
        Seq::empty()
    } else {
        xref_entries(objects, n - 1) + bytes(
            zero_filled(nat_text(objects[n - 1] as nat), 10) + " 00000 n \n"@,
        )
    }
}

pub open spec fn finished(d: Draft, catalog: int) -> Seq<u8> {
    let size = int_text(d.objects.len() as int + 1);
    d.buf + bytes("xref\n0 "@ + size + "\n"@) + bytes("0000000000 65535 f \n"@) + xref_entries(
        d.objects,
        d.objects.len() as int,
    ) + bytes(
        "trailer\n<< /Size "@ + size + " /Root "@ + int_text(catalog) + " 0 R >>\nstartxref\n"@
            + int_text(d.buf.len() as int) + "\n%%EOF"@,
    )
}

// ── Pages ───────────────────────────────────────────────────────────────

/// The number of the object of page `k`. A page takes an object for itself, one
/// for its content and one for each picture on it, in that order; the first two
/// objects of the file are kept for the catalog and the list of pages.
pub open spec fn page_number(pages: Seq<PageView>, k: int) -> int
    decreases k,
{
    if k <= 0 {
        3
    } else {
        page_number(pages, k - 1) + 2 + pages[k - 1].placements.len()
    }
}

/// The names of the first `n` pictures of a page whose first is object `first`.
pub open spec fn picture_names(first: int, n: int) -> Seq<char>
    decreases n,
{
    if n <= 0 {
        Seq::empty()
    } else {
        picture_names(first, n - 1) + "/Im"@ + int_text(n - 1) + " "@ + int_text(first + n - 1)
            + " 0 R "@
    }
}

/// How the first `n` pictures of a page are drawn.
pub open spec fn drawing(placements: Seq<PlacementView>, n: int) -> Seq<char>
    decreases n,
{
    if n <= 0 {
        Seq::empty()
    } else {
        let p = placements[n - 1];
        drawing(placements, n - 1) + "q "@ + points_text(p.width) + " 0 0 "@ + points_text(p.height)
            + " "@ + points_text(p.x) + " "@ + points_text(p.y) + " cm /Im"@ + int_text(n - 1)
            + " Do Q\n"@
    }
}

pub open spec fn page_dict(page: PageView, number: int) -> Seq<char> {
    "/Type /Page /Parent 2 0 R /MediaBox [0 0 "@ + points_text(page.width) + " "@ + points_text(
        page.height,
    ) + "] /Resources << /XObject << "@ + picture_names(number + 2, page.placements.len() as int)
        + ">> >> /Contents "@ + int_text(number + 1) + " 0 R"@
}

pub open spec fn with_images(
    d: Draft,
    labels: Seq<Raster>,
    placements: Seq<PlacementView>,
    n: int,
) -> Draft
    decreases n,
{
    if n <= 0 {
        d
    } else {
        with_image(
            with_images(d, labels, placements, n - 1),
            labels[placements[n - 1].label],
        )
    }
}

/// A draft with one more page, whose object has the given number.
pub open spec fn with_page(d: Draft, labels: Seq<Raster>, page: PageView, number: int) -> Draft {
    let n = page.placements.len() as int;
    with_images(
        with_stream(
            with_dict(d, page_dict(page, number)),
            Seq::empty(),
            bytes(drawing(page.placements, n)),
        ),
        labels,
        page.placements,
        n,
    )
}

/// The draft after the first `k` pages.
pub open spec fn with_pages(labels: Seq<Raster>, pages: Seq<PageView>, k: int) -> Draft
    decreases k,
{
    if k <= 0 {
        Draft { buf: header(), objects: seq![0, 0] }
    } else {
        with_page(
            with_pages(labels, pages, k - 1),
            labels,
            pages[k - 1],
            page_number(pages, k - 1),
        )
    }
}

/// The list of the first `k` pages.
pub open spec fn kids(pages: Seq<PageView>, k: int) -> Seq<char>
    decreases k,
{
    if k <= 0 {
        Seq::empty()
    } else {
        kids(pages, k - 1) + int_text(page_number(pages, k - 1)) + " 0 R "@
    }
}

/// The draft with all pages, and with the catalog and the list of pages, the
/// first two objects, behind them.
pub open spec fn complete(labels: Seq<Raster>, pages: Seq<PageView>) -> Draft {
    let body = with_pages(labels, pages, pages.len() as int);
    let first = Draft {
        buf: body.buf + bytes("1 0 obj\n<< /Type /Catalog /Pages 2 0 R >>\nendobj\n"@),
        objects: body.objects.update(0, body.buf.len() as int),
    };
    Draft {
        buf: first.buf + bytes(
            "2 0 obj\n<< /Type /Pages /Kids ["@ + kids(pages, pages.len() as int) + "] /Count "@
                + int_text(pages.len() as int) + " >>\nendobj\n"@,
        ),
        objects: first.objects.update(1, first.buf.len() as int),
    }
}

/// The pages of a file: each label on one of its own, or several labels side by
/// side on sheets.
pub open spec fn pages_of(labels: Seq<Raster>, layout: PdfLayout) -> Seq<PageView> {
    if layout is Pages || labels.len() <= 1 {
        own_pages(labels)
    } else {
        filled_sheet(labels, labels.len() as int).pages
    }
}

/// The PDF file of some labels.
pub open spec fn pdf_file(labels: Seq<Raster>, layout: PdfLayout) -> Seq<u8> {
    finished(complete(labels, pages_of(labels, layout)), 1)
}

pub proof fn lemma_with_images_objects(
    d: Draft,
    labels: Seq<Raster>,
    placements: Seq<PlacementView>,
    n: int,
)
    requires
        n >= 0,
    ensures
        with_images(d, labels, placements, n).objects.len() == d.objects.len() + n,
    decreases n,
{
    if n > 0 {
        lemma_with_images_objects(d, labels, placements, n - 1);
    }
}

/// Page `k` gets the number that its list and its pictures were given ahead of
/// time.
pub proof fn page_numbers_do_not_drift(labels: Seq<Raster>, pages: Seq<PageView>, k: int)
    requires
        k >= 0,
    ensures
        with_pages(labels, pages, k).objects.len() + 1 == page_number(pages, k),
    decreases k,
{
    if k > 0 {
        page_numbers_do_not_drift(labels, pages, k - 1);
        let page = pages[k - 1];
        let d = with_stream(
            with_dict(
                with_pages(labels, pages, k - 1),
                page_dict(page, page_number(pages, k - 1)),
            ),
            Seq::empty(),
            bytes(drawing(page.placements, page.placements.len() as int)),
        );
        lemma_with_images_objects(d, labels, page.placements, page.placements.len() as int);
    }
}

fn write_page(w: &mut PdfWriter, labels: &Vec<Raster>, page: &Page, number: u128)
    requires
        page.bounded(labels@.len() as int),
        number <= 0x1_0000_0000_0000_0000_0000_0000_0000,
        forall|i: int| 0 <= i < labels@.len() ==> (#[trigger] labels@[i]).wf(),
    ensures
        final(w).model() == with_page(old(w).model(), labels@, page.model(), number as int),
{
    let ghost placements = page.model().placements;
    let mut names = String::new();
    let mut content = String::new();
    let total = page.placements.len();
    let mut i: usize = 0;
    assert(names@ =~= picture_names(number + 2, 0));
    assert(content@ =~= drawing(placements, 0));
    while i < total
        invariant
            i <= total,
            total == page.placements@.len(),
            placements == placement_models(page.placements@),
            page.bounded(labels@.len() as int),
            number <= 0x1_0000_0000_0000_0000_0000_0000_0000,
            names@ == picture_names(number + 2, i as int),
            content@ == drawing(placements, i as int),
        decreases total - i,
    {
        let p = &page.placements[i];
        assert(page.placements@[i as int].bounded());
        assert(placements[i as int] == p.model());
        names.append("/Im");
        push_int(&mut names, i as i128);
        names.append(" ");
        push_int(&mut names, number as i128 + 2 + i as i128);
        names.append(" 0 R ");
        content.append("q ");
        push_points(&mut content, p.width);
        content.append(" 0 0 ");
        push_points(&mut content, p.height);
        content.append(" ");
        push_points(&mut content, p.x);
        content.append(" ");
        push_points(&mut content, p.y);
        content.append(" cm /Im");
        push_int(&mut content, i as i128);
        content.append(" Do Q\n");
        i = i + 1;
    }
    let mut dict = "/Type /Page /Parent 2 0 R /MediaBox [0 0 ".to_string();
    push_points(&mut dict, page.width);
    dict.append(" ");
    push_points(&mut dict, page.height);
    dict.append("] /Resources << /XObject << ");
    dict.append(names.as_str());
    dict.append(">> >> /Contents ");
    push_int(&mut dict, number as i128 + 1);
    dict.append(" 0 R");
    w.write_dict_object(dict.as_str());
    let mut data: Vec<u8> = Vec::new();
    push_bytes(&mut data, content.as_str().as_bytes());
    assert(data@ =~= bytes(content@));
    proof {
        reveal_strlit("");
    }
    assert(""@ =~= Seq::<char>::empty());
    w.write_stream_object("", &data);
    let ghost base = w.model();
    let mut k: usize = 0;
    while k < total
        invariant
            k <= total,
            total == page.placements@.len(),
            placements == placement_models(page.placements@),
            page.bounded(labels@.len() as int),
            forall|i: int| 0 <= i < labels@.len() ==> (#[trigger] labels@[i]).wf(),
            w.model() == with_images(base, labels@, placements, k as int),
        decreases total - k,
    {
        assert(page.placements@[k as int].bounded());
        assert(placements[k as int] == page.placements@[k as int].model());
        let label = page.placements[k].label;
        assert(labels@[label as int].wf());
        w.write_image_object(&labels[label]);
        k = k + 1;
    }
}

/// The labels on the first `k` pages, in the order they are drawn.
pub open spec fn placed(pages: Seq<PageView>, k: int) -> Seq<int>
    decreases k,
{
    if k <= 0 {
        Seq::empty()
    } else {
        placed(pages, k - 1) + pages[k - 1].placements.map_values(|p: PlacementView| p.label)
    }
}

proof fn lemma_placed_prefix(a: Seq<PageView>, b: Seq<PageView>, k: int)
    requires
        k <= a.len(),
        k <= b.len(),
        forall|i: int| 0 <= i < k ==> a[i] == b[i],
    ensures
        placed(a, k) == placed(b, k),
    decreases k,
{
    if k > 0 {
        lemma_placed_prefix(a, b, k - 1);
    }
}

proof fn lemma_placed_on_sheet(labels: Seq<Raster>, n: int)
    requires
        0 <= n <= labels.len(),
    ensures
        placed(
            filled_sheet(labels, n).pages,
            filled_sheet(labels, n).pages.len() as int,
        ) == Seq::new(n as nat, |i: int| i),
    decreases n,
{
    lemma_sheet_has_page(labels, n);
    if n == 0 {
        let pages = empty_sheet().pages;
        assert(placed(pages, 0) =~= Seq::<int>::empty());
        assert(pages[0].placements.map_values(|p: PlacementView| p.label) =~= Seq::<int>::empty());
        assert(placed(pages, 1) =~= Seq::new(0, |i: int| i));
    } else {
        lemma_placed_on_sheet(labels, n - 1);
        lemma_sheet_has_page(labels, n - 1);
        let s = filled_sheet(labels, n - 1);
        let width = DOT * labels[n - 1].width;
        let height = DOT * labels[n - 1].height;
        let u = with_room_across(s, width);
        let t = with_room_down(u, height);
        let p = PlacementView {
            label: n - 1,
            x: t.x,
            y: PAGE_HEIGHT - t.top - height,
            width,
            height,
        };
        let m = t.pages.len() as int;
        if m > s.pages.len() {
            lemma_placed_prefix(s.pages, t.pages, m - 1);
            assert(t.pages[m - 1] == fresh_page());
            assert(fresh_page().placements.map_values(|p: PlacementView| p.label) =~= Seq::<
                int,
            >::empty());
            assert(placed(t.pages, m) =~= placed(s.pages, m - 1));
        }
        let after = with_placement(t.pages, p);
        lemma_placed_prefix(t.pages, after, m - 1);
        assert(after[m - 1].placements == t.pages[m - 1].placements.push(p));
        assert(after[m - 1].placements.map_values(|p: PlacementView| p.label)
            =~= t.pages[m - 1].placements.map_values(|p: PlacementView| p.label).push(n - 1));
        assert(placed(after, m) =~= placed(t.pages, m).push(n - 1));
        assert(filled_sheet(labels, n).pages == after);
        assert(placed(after, m) =~= Seq::new(n as nat, |i: int| i));
    }
}

proof fn lemma_placed_on_own_pages(labels: Seq<Raster>, k: int)
    requires
        0 <= k <= labels.len(),
    ensures
        placed(own_pages(labels), k) == Seq::new(k as nat, |i: int| i),
    decreases k,
{
    if k == 0 {
        assert(placed(own_pages(labels), 0) =~= Seq::new(0, |i: int| i));
    } else {
        lemma_placed_on_own_pages(labels, k - 1);
        assert(own_pages(labels)[k - 1].placements.map_values(|p: PlacementView| p.label)
            =~= seq![k - 1]);
        assert(placed(own_pages(labels), k) =~= Seq::new(k as nat, |i: int| i));
    }
}

/// Every label stands on exactly one page of either layout, in its order.
pub proof fn every_label_is_placed_once(labels: Seq<Raster>, layout: PdfLayout)
    ensures
        placed(pages_of(labels, layout), pages_of(labels, layout).len() as int) == Seq::new(
            labels.len(),
            |i: int| i,
        ),
{
    if layout is Pages || labels.len() <= 1 {
        lemma_placed_on_own_pages(labels, labels.len() as int);
    } else {
        lemma_placed_on_sheet(labels, labels.len() as int);
    }
}

/// A single label is one page sized exactly to it, and no labels are no pages,
/// whatever the layout.
pub proof fn the_layout_matters_only_for_several(labels: Seq<Raster>, layout: PdfLayout)
    requires
        labels.len() <= 1,
    ensures
        pdf_file(labels, layout) == pdf_file(labels, PdfLayout::Pages),
        pages_of(labels, layout).len() == labels.len(),
        labels.len() == 1 ==> pages_of(labels, layout)[0] == own_page(
            0,
            labels[0].width as int,
            labels[0].height as int,
        ),
{
}

pub proof fn lemma_page_number_bound(pages: Seq<PageView>, j: int, k: int)
    requires
        0 <= j <= k,
    ensures
        3 <= page_number(pages, j) <= page_number(pages, k),
        page_number(pages, k) == 3 + 2 * k + placed(pages, k).len(),
    decreases k,
{
    if k > 0 {
        if j < k {
            lemma_page_number_bound(pages, j, k - 1);
        } else {
            lemma_page_number_bound(pages, k - 1, k - 1);
        }
    }
}

fn write_pages(labels: &Vec<Raster>, pages: &Vec<Page>) -> (r: (PdfWriter, String))
    requires
        pages_bounded(pages@, labels@.len() as int),
        forall|i: int| 0 <= i < labels@.len() ==> (#[trigger] labels@[i]).wf(),
        placed(page_models(pages@), pages@.len() as int).len() == labels@.len(),
    ensures
        r.0.model() == with_pages(labels@, page_models(pages@), pages@.len() as int),
        r.1@ == kids(page_models(pages@), pages@.len() as int),
{
    let ghost models = page_models(pages@);
    let ghost total = pages@.len() as int;
    let mut w = PdfWriter::new();
    assert(w.model().objects.len() == w.objects@.len());
    w.objects.push(0);
    w.objects.push(0);
    assert(w.model().objects =~= seq![0int, 0int]);
    let mut numbers = String::new();
    let mut next: u128 = 3;
    let mut k: usize = 0;
    let most: usize = labels.len();
    assert(numbers@ =~= kids(models, 0));
    while k < pages.len()
        invariant
            k <= pages@.len(),
            total == pages@.len(),
            most == labels@.len(),
            placed(models, total).len() == labels@.len(),
            models == page_models(pages@),
            pages_bounded(pages@, labels@.len() as int),
            forall|i: int| 0 <= i < labels@.len() ==> (#[trigger] labels@[i]).wf(),
            w.model() == with_pages(labels@, models, k as int),
            numbers@ == kids(models, k as int),
            next == page_number(models, k as int),
        decreases pages@.len() - k,
    {
        let page = &pages[k];
        let count: usize = pages.len();
        proof {
            assert(pages@[k as int].bounded(labels@.len() as int));
            assert(models[k as int] == page.model());
            lemma_page_number_bound(models, k as int, total);
            lemma_page_number_bound(models, k + 1, total);
        }
        write_page(&mut w, labels, page, next);
        push_int(&mut numbers, next as i128);
        numbers.append(" 0 R ");
        next = next + 2 + page.placements.len() as u128;
        k = k + 1;
    }
    (w, numbers)
}

/// The labels as a PDF file, one label to a page or several tiled on each A4
/// page. No labels give an empty file: one without pages that still opens.
pub fn render_labels_pdf(labels: &Vec<Raster>, layout: PdfLayout) -> (r: Vec<u8>)
    requires
        forall|i: int| 0 <= i < labels@.len() ==> (#[trigger] labels@[i]).wf(),
    ensures
        r@ == pdf_file(labels@, layout),
{
    let pages = if labels.len() <= 1 {
        pages_layout(labels)
    } else {
        match layout {
            PdfLayout::Pages => pages_layout(labels),
            PdfLayout::Grid => grid_layout(labels),
        }
    };
    let ghost models = page_models(pages@);
    proof {
        every_label_is_placed_once(labels@, layout);
        page_numbers_do_not_drift(labels@, models, models.len() as int);
        lemma_page_number_bound(models, 0, models.len() as int);
    }
    let (mut w, numbers) = write_pages(labels, &pages);
    let ghost body = w.model();
    let at = w.buf.len();
    w.objects.set(0, at);
    assert(w.model().objects =~= body.objects.update(0, at as int));
    w.write("1 0 obj\n<< /Type /Catalog /Pages 2 0 R >>\nendobj\n");
    let ghost first = w.model();
    let at = w.buf.len();
    w.objects.set(1, at);
    assert(w.model().objects =~= first.objects.update(1, at as int));
    let mut line = "2 0 obj\n<< /Type /Pages /Kids [".to_string();
    line.append(numbers.as_str());
    line.append("] /Count ");
    push_int(&mut line, pages.len() as i128);
    line.append(" >>\nendobj\n");
    w.write(line.as_str());
    assert(w.model() =~= complete(labels@, models));
    w.finish(1)
}

// ── What a file promises ────────────────────────────────────────────────

/// Whether object `number` starts where the draft says it does.
pub open spec fn starts_at(d: Draft, number: int) -> bool {
    let at = d.objects[number - 1];
    let m = marker(number);
    0 <= at && at + m.len() <= d.buf.len() && d.buf.subrange(at, at + m.len() as int) == m
}

/// Objects from the third on start where the draft says.
spec fn sound(d: Draft) -> bool {
    d.objects.len() >= 2 && forall|n: int|
        3 <= n <= d.objects.len() ==> #[trigger] starts_at(d, n)
}

proof fn lemma_longer(d: Draft, more: Seq<u8>)
    requires
        sound(d),
    ensures
        sound(Draft { buf: d.buf + more, ..d }),
{
    let e = Draft { buf: d.buf + more, ..d };
    assert forall|n: int| 3 <= n <= e.objects.len() implies #[trigger] starts_at(e, n) by {
        assert(starts_at(d, n));
        let at = d.objects[n - 1];
        let end = at + marker(n).len() as int;
        assert(e.buf.subrange(at, end) =~= d.buf.subrange(at, end));
    }
}

proof fn lemma_begun(d: Draft)
    requires
        sound(d),
    ensures
        sound(begun(d)),
{
    let e = begun(d);
    let fresh = d.objects.len() as int + 1;
    assert forall|n: int| 3 <= n <= e.objects.len() implies #[trigger] starts_at(e, n) by {
        let at = e.objects[n - 1];
        let end = at + marker(n).len() as int;
        if n < fresh {
            assert(starts_at(d, n));
            assert(e.buf.subrange(at, end) =~= d.buf.subrange(at, end));
        } else {
            assert(e.buf.subrange(at, end) =~= marker(n));
        }
    }
}

proof fn lemma_text(d: Draft, text: Seq<char>)
    requires
        sound(d),
    ensures
        sound(with_text(d, text)),
{
    lemma_longer(d, bytes(text));
}

proof fn lemma_dict(d: Draft, dict: Seq<char>)
    requires
        sound(d),
    ensures
        sound(with_dict(d, dict)),
{
    lemma_begun(d);
    let e = begun(d);
    lemma_text(e, "<< "@ + dict + " >>\n"@);
    lemma_text(with_text(e, "<< "@ + dict + " >>\n"@), "endobj\n"@);
}

proof fn lemma_stream(d: Draft, dict: Seq<char>, data: Seq<u8>)
    requires
        sound(d),
    ensures
        sound(with_stream(d, dict, data)),
{
    lemma_begun(d);
    let line = "<< "@ + dict + " /Length "@ + int_text(data.len() as int) + " >>\nstream\n"@;
    lemma_text(begun(d), line);
    let opened = with_text(begun(d), line);
    lemma_longer(opened, data);
    let full = Draft { buf: opened.buf + data, ..opened };
    lemma_text(full, "\nendstream\n"@);
    lemma_text(with_text(full, "\nendstream\n"@), "endobj\n"@);
}

proof fn lemma_images(d: Draft, labels: Seq<Raster>, placements: Seq<PlacementView>, n: int)
    requires
        sound(d),
    ensures
        sound(with_images(d, labels, placements, n)),
    decreases n,
{
    if n > 0 {
        lemma_images(d, labels, placements, n - 1);
        let label = labels[placements[n - 1].label];
        lemma_stream(
            with_images(d, labels, placements, n - 1),
            "/Type /XObject /Subtype /Image /Width "@ + int_text(label.width as int) + " /Height "@
                + int_text(label.height as int) + " /ColorSpace /DeviceGray /BitsPerComponent 8"@,
            label.shades(),
        );
    }
}

proof fn lemma_sound_pages(labels: Seq<Raster>, pages: Seq<PageView>, k: int)
    ensures
        sound(with_pages(labels, pages, k)),
    decreases k,
{
    if k > 0 {
        lemma_sound_pages(labels, pages, k - 1);
        let d = with_pages(labels, pages, k - 1);
        let page = pages[k - 1];
        let n = page.placements.len() as int;
        let dict = page_dict(page, page_number(pages, k - 1));
        lemma_dict(d, dict);
        lemma_stream(with_dict(d, dict), Seq::empty(), bytes(drawing(page.placements, n)));
        lemma_images(
            with_stream(
                with_dict(d, dict),
                Seq::empty(),
                bytes(drawing(page.placements, n)),
            ),
            labels,
            page.placements,
            n,
        );
    }
}

/// Whether some text starts with the mark of an object.
spec fn starts_with_marker(text: Seq<char>, number: int) -> bool {
    let m = marker(number);
    m.len() <= bytes(text).len() && bytes(text).subrange(0, m.len() as int) == m
}

proof fn lemma_catalog_marker()
    ensures
        starts_with_marker("1 0 obj\n<< /Type /Catalog /Pages 2 0 R >>\nendobj\n"@, 1),
{
    let catalog = "1 0 obj\n<< /Type /Catalog /Pages 2 0 R >>\nendobj\n"@;
    reveal_strlit("1 0 obj\n<< /Type /Catalog /Pages 2 0 R >>\nendobj\n");
    reveal_strlit(" 0 obj\n");
    let mark = int_text(1) + " 0 obj\n"@;
    assert(int_text(1) =~= seq!['1']);
    let rest = catalog.skip(mark.len() as int);
    assert(catalog =~= mark + rest);
    lemma_bytes_append(mark, rest);
    assert(bytes(catalog).subrange(0, bytes(mark).len() as int) =~= bytes(mark));
}

proof fn lemma_list_marker(more: Seq<char>)
    ensures
        starts_with_marker("2 0 obj\n<< /Type /Pages /Kids ["@ + more, 2),
{
    let list = "2 0 obj\n<< /Type /Pages /Kids ["@ + more;
    reveal_strlit("2 0 obj\n<< /Type /Pages /Kids [");
    reveal_strlit(" 0 obj\n");
    let mark = int_text(2) + " 0 obj\n"@;
    assert(int_text(2) =~= seq!['2']);
    let rest = list.skip(mark.len() as int);
    assert(list =~= mark + rest);
    lemma_bytes_append(mark, rest);
    assert(bytes(list).subrange(0, bytes(mark).len() as int) =~= bytes(mark));
}

/// Every object of a complete draft starts where the draft says.
proof fn lemma_complete_starts(labels: Seq<Raster>, pages: Seq<PageView>, number: int)
    requires
        1 <= number <= complete(labels, pages).objects.len(),
    ensures
        starts_at(complete(labels, pages), number),
{
    let body = with_pages(labels, pages, pages.len() as int);
    let d = complete(labels, pages);
    lemma_sound_pages(labels, pages, pages.len() as int);
    let catalog = "1 0 obj\n<< /Type /Catalog /Pages 2 0 R >>\nendobj\n"@;
    let more = kids(pages, pages.len() as int) + "] /Count "@ + int_text(pages.len() as int)
        + " >>\nendobj\n"@;
    let list = "2 0 obj\n<< /Type /Pages /Kids ["@ + kids(pages, pages.len() as int)
        + "] /Count "@ + int_text(pages.len() as int) + " >>\nendobj\n"@;
    assert(list =~= "2 0 obj\n<< /Type /Pages /Kids ["@ + more);
    assert(d.buf =~= body.buf + bytes(catalog) + bytes(list));
    let m = marker(number);
    let at = d.objects[number - 1];
    let end = at + m.len() as int;
    if number >= 3 {
        assert(starts_at(body, number));
        assert(d.buf.subrange(at, end) =~= body.buf.subrange(at, end));
    } else if number == 1 {
        lemma_catalog_marker();
        assert(at == body.buf.len());
        assert(d.buf.subrange(at, end) =~= bytes(catalog).subrange(0, m.len() as int));
    } else {
        lemma_list_marker(more);
        assert(at == body.buf.len() + bytes(catalog).len());
        assert(d.buf.subrange(at, end) =~= bytes(list).subrange(0, m.len() as int));
    }
}

/// Every offset in the table of objects points at the object that it is for,
/// and every object of the file is in the table: those of the pages, and the
/// two that are written last.
pub proof fn the_table_points_at_its_objects(
    labels: Seq<Raster>,
    layout: PdfLayout,
    number: int,
)
    requires
        1 <= number <= complete(labels, pages_of(labels, layout)).objects.len(),
    ensures
        ({
            let pages = pages_of(labels, layout);
            let d = complete(labels, pages);
            let at = d.objects[number - 1];
            let file = pdf_file(labels, layout);
            &&& 0 <= at
            &&& at + marker(number).len() <= d.buf.len() <= file.len()
            &&& file.subrange(at, at + marker(number).len() as int) == marker(number)
            &&& d.objects.len() == 2 + 2 * pages.len() + labels.len()
        }),
{
    let pages = pages_of(labels, layout);
    let d = complete(labels, pages);
    let file = pdf_file(labels, layout);
    lemma_complete_starts(labels, pages, number);
    page_numbers_do_not_drift(labels, pages, pages.len() as int);
    lemma_page_number_bound(pages, 0, pages.len() as int);
    every_label_is_placed_once(labels, layout);
    lemma_finished_prefix(d, 1);
    let at = d.objects[number - 1];
    let end = at + marker(number).len() as int;
    assert(file.subrange(at, end) =~= d.buf.subrange(at, end));
}

proof fn lemma_finished_prefix(d: Draft, catalog: int)
    ensures
        d.buf.len() <= finished(d, catalog).len(),
        forall|i: int| 0 <= i < d.buf.len() ==> #[trigger] finished(d, catalog)[i] == d.buf[i],
{
}

pub proof fn lemma_bytes_append(a: Seq<char>, b: Seq<char>)
    ensures
        bytes(a + b) == bytes(a) + bytes(b),
    decreases a.len(),
{
    if a.len() == 0 {
        assert(a + b =~= b);
        assert(bytes(a) =~= Seq::<u8>::empty());
        assert(bytes(a) + bytes(b) =~= bytes(b));
    } else {
        let c = a + b;
        assert(c.drop_first() =~= a.drop_first() + b);
        lemma_bytes_append(a.drop_first(), b);
        assert(bytes(c) =~= bytes(a) + bytes(b));
    }
}

/// Every label keeps its size, lies right of the left margin, and reaches
/// into the right margin only where it is the first of its row.
pub proof fn labels_stay_inside_the_sheet(labels: Seq<Raster>, n: int, k: int, i: int)
    requires
        0 <= n <= labels.len(),
        0 <= k < filled_sheet(labels, n).pages.len(),
        0 <= i < filled_sheet(labels, n).pages[k].placements.len(),
    ensures
        ({
            let p = filled_sheet(labels, n).pages[k].placements[i];
            &&& 0 <= p.label < n
            &&& p.width == DOT * labels[p.label].width
            &&& p.height == DOT * labels[p.label].height
            &&& p.x >= MARGIN
            &&& p.x + p.width <= PAGE_WIDTH - MARGIN || p.x == MARGIN
            &&& p.y >= MARGIN || p.y + p.height == PAGE_HEIGHT - MARGIN
        }),
    decreases n,
{
    lemma_sheet_edges(labels, n);
    if n > 0 {
        lemma_sheet_has_page(labels, n - 1);
        lemma_sheet_edges(labels, n - 1);
        let s = filled_sheet(labels, n - 1);
        let width = DOT * labels[n - 1].width;
        let height = DOT * labels[n - 1].height;
        let t = with_room_down(with_room_across(s, width), height);
        let pages = filled_sheet(labels, n).pages;
        if k < s.pages.len() && i < s.pages[k].placements.len() {
            labels_stay_inside_the_sheet(labels, n - 1, k, i);
            assert(pages[k].placements[i] == s.pages[k].placements[i]);
        } else {
            assert(k == t.pages.len() - 1);
        }
    }
}

pub proof fn lemma_sheet_edges(labels: Seq<Raster>, n: int)
    requires
        0 <= n <= labels.len(),
    ensures
        filled_sheet(labels, n).x >= MARGIN,
        filled_sheet(labels, n).top >= MARGIN,
        filled_sheet(labels, n).row >= 0,
    decreases n,
{
    if n > 0 {
        lemma_sheet_edges(labels, n - 1);
    }
}

} // verus!
