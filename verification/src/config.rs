//! One place that decides what every adjustable setting currently is.
//!
//! Three layers are looked at in order: what was saved, the environment, and
//! the built-in default. Saving a blank text removes what was saved, so that
//! the setting follows the environment or the default again.

use vstd::prelude::*;
use vstd::string::*;
use crate::db::{lemma_views_push, views_of, Db, DbView};
use crate::decimal::{
    decimal_lt, decimal_of, decimal_text, read_decimal, share_of, Decimal, DecimalView,
};
use crate::dict::Dict;
use crate::reads::stored;
use crate::records::{setting_deleted, setting_saved};
use crate::rows::SettingView;
use crate::text::{
    ascii_upper, chars_of, int_text, join, joined, parse_i64, parsed_int, push_int, quote, quoted,
    replace, replaced, same, same_ignoring_ascii_case, same_ignoring_case, trim, trimmed,
    upper_char, views,
};

verus! {

#[allow(inconsistent_fields)]
/// What values a setting can have. The bounds of a decimal one are written out.
pub enum Kind {
    Bool,
    Int { min: i64, max: i64 },
    Float { min: &'static str, max: &'static str },
    Choice { choices: Vec<&'static str> },
    Text,
}

#[allow(inconsistent_fields)]
#[verifier::ext_equal]
pub enum KindView {
    Bool,
    Int { min: i64, max: i64 },
    Float { min: Seq<char>, max: Seq<char> },
    Choice { choices: Seq<Seq<char>> },
    Text,
}

pub open spec fn str_views(s: Seq<&'static str>) -> Seq<Seq<char>> {
    s.map_values(|t: &'static str| t@)
}

impl View for Kind {
    type V = KindView;

    open spec fn view(&self) -> KindView {
        match self {
            Kind::Bool => KindView::Bool,
            Kind::Int { min, max } => KindView::Int { min: *min, max: *max },
            Kind::Float { min, max } => KindView::Float { min: min@, max: max@ },
            Kind::Choice { choices } => KindView::Choice { choices: str_views(choices@) },
            Kind::Text => KindView::Text,
        }
    }
}

/// What is to be known of a setting.
pub struct SettingSpec {
    pub key: &'static str,
    pub env: &'static str,
    /// The default as a text, read in the same way as a saved one.
    pub default: &'static str,
    pub kind: Kind,
    pub group: &'static str,
    pub label: &'static str,
    pub help: &'static str,
}

#[verifier::ext_equal]
pub struct SettingSpecView {
    pub key: Seq<char>,
    pub env: Seq<char>,
    pub default: Seq<char>,
    pub kind: KindView,
    pub group: Seq<char>,
    pub label: Seq<char>,
    pub help: Seq<char>,
}

impl View for SettingSpec {
    type V = SettingSpecView;

    open spec fn view(&self) -> SettingSpecView {
        SettingSpecView {
            key: self.key@,
            env: self.env@,
            default: self.default@,
            kind: self.kind@,
            group: self.group@,
            label: self.label@,
            help: self.help@,
        }
    }
}

pub const METHOD_NOTE: &'static str =
    "These thresholds only mean something against the way you actually measure. A 1 kHz alternating-current tester reports roughly half what the direct-current method of loading the cell and dividing the voltage drop by the current gives, so a limit set for one will be far too loose or far too tight for the other. Set it against your own readings of a cell you know is good rather than against a number from a datasheet.";

// ── The settings ────────────────────────────────────────────────────────

pub open spec fn printer_host_setting() -> SettingSpecView {
    SettingSpecView {
        key: "printer_host"@,
        env: "PTOUCH_HOST"@,
        default: ""@,
        kind: KindView::Text,
        group: "printer"@,
        label: "Printer address"@,
        help: "Hostname or IP of a network Brother PT-E550W, PT-P750W or PT-P710BT — the only printers this app's raster protocol is written against. It is contacted on port 9100. Other Brother label printers may or may not work correctly; anything else (other brands, or no printer at all) should use \"PDF\" under Label output instead. Leave empty if using USB, or PDF output."@,
    }
}

fn printer_host() -> (r: SettingSpec)
    ensures
        r@ == printer_host_setting(),
{
    let r = SettingSpec {
        key: "printer_host",
        env: "PTOUCH_HOST",
        default: "",
        kind: Kind::Text,
        group: "printer",
        label: "Printer address",
        help: "Hostname or IP of a network Brother PT-E550W, PT-P750W or PT-P710BT — the only printers this app's raster protocol is written against. It is contacted on port 9100. Other Brother label printers may or may not work correctly; anything else (other brands, or no printer at all) should use \"PDF\" under Label output instead. Leave empty if using USB, or PDF output.",
    };
    r
}

pub open spec fn printer_usb_setting() -> SettingSpecView {
    SettingSpecView {
        key: "printer_usb"@,
        env: "PTOUCH_USB"@,
        default: "0"@,
        kind: KindView::Bool,
        group: "printer"@,
        label: "Use a USB printer"@,
        help: "Only consulted when no printer address is set. Requires the printer to be attached to the machine running this application."@,
    }
}

fn printer_usb() -> (r: SettingSpec)
    ensures
        r@ == printer_usb_setting(),
{
    let r = SettingSpec {
        key: "printer_usb",
        env: "PTOUCH_USB",
        default: "0",
        kind: Kind::Bool,
        group: "printer",
        label: "Use a USB printer",
        help: "Only consulted when no printer address is set. Requires the printer to be attached to the machine running this application.",
    };
    r
}

pub open spec fn tape_mm_setting() -> SettingSpecView {
    SettingSpecView {
        key: "tape_mm"@,
        env: "TAPE_MM"@,
        default: "9"@,
        kind: KindView::Choice { choices: seq!["3.5"@, "6"@, "9"@, "12"@, "18"@, "24"@] },
        group: "labels"@,
        label: "Tape width (mm)"@,
        help: "Must match the cartridge actually loaded. It decides how tall the label image is rendered, so getting it wrong produces labels the wrong size."@,
    }
}

fn tape_mm() -> (r: SettingSpec)
    ensures
        r@ == tape_mm_setting(),
{
    let r = SettingSpec {
        key: "tape_mm",
        env: "TAPE_MM",
        default: "9",
        kind: Kind::Choice { choices: vec!["3.5", "6", "9", "12", "18", "24"] },
        group: "labels",
        label: "Tape width (mm)",
        help: "Must match the cartridge actually loaded. It decides how tall the label image is rendered, so getting it wrong produces labels the wrong size.",
    };
    assert(r@.kind->choices =~= tape_mm_setting().kind->choices);
    r
}

pub open spec fn id_text_scale_setting() -> SettingSpecView {
    SettingSpecView {
        key: "id_text_scale"@,
        env: "ID_TEXT_SCALE"@,
        default: "0.40"@,
        kind: KindView::Float { min: "0.15"@, max: "0.9"@ },
        group: "labels"@,
        label: "Printed id size"@,
        help: "How much of the tape height the number beside the code takes up, as a fraction. 0.40 is about 2.8 mm on 9 mm tape."@,
    }
}

fn id_text_scale() -> (r: SettingSpec)
    ensures
        r@ == id_text_scale_setting(),
{
    let r = SettingSpec {
        key: "id_text_scale",
        env: "ID_TEXT_SCALE",
        default: "0.40",
        kind: Kind::Float { min: "0.15", max: "0.9" },
        group: "labels",
        label: "Printed id size",
        help: "How much of the tape height the number beside the code takes up, as a fraction. 0.40 is about 2.8 mm on 9 mm tape.",
    };
    r
}

pub open spec fn chain_labels_setting() -> SettingSpecView {
    SettingSpecView {
        key: "chain_labels"@,
        env: "CHAIN_LABELS"@,
        default: "1"@,
        kind: KindView::Bool,
        group: "labels"@,
        label: "Chain print batches"@,
        help: "When several labels are printed at once, feed the tape out once at the end rather than after each label."@,
    }
}

fn chain_labels() -> (r: SettingSpec)
    ensures
        r@ == chain_labels_setting(),
{
    let r = SettingSpec {
        key: "chain_labels",
        env: "CHAIN_LABELS",
        default: "1",
        kind: Kind::Bool,
        group: "labels",
        label: "Chain print batches",
        help: "When several labels are printed at once, feed the tape out once at the end rather than after each label.",
    };
    r
}

pub open spec fn half_cut_setting() -> SettingSpecView {
    SettingSpecView {
        key: "half_cut"@,
        env: "HALF_CUT"@,
        default: "1"@,
        kind: KindView::Bool,
        group: "labels"@,
        label: "Half cut between chained labels"@,
        help: "Score the backing between labels so the strip tears apart cleanly. Turn this off to have the printer cut all the way through; that still chains."@,
    }
}

fn half_cut() -> (r: SettingSpec)
    ensures
        r@ == half_cut_setting(),
{
    let r = SettingSpec {
        key: "half_cut",
        env: "HALF_CUT",
        default: "1",
        kind: Kind::Bool,
        group: "labels",
        label: "Half cut between chained labels",
        help: "Score the backing between labels so the strip tears apart cleanly. Turn this off to have the printer cut all the way through; that still chains.",
    };
    r
}

pub open spec fn health_limit_pct_setting() -> SettingSpecView {
    SettingSpecView {
        key: "health_limit_pct"@,
        env: "HEALTH_LIMIT_PCT"@,
        default: "80"@,
        kind: KindView::Int { min: 1, max: 100 },
        group: "condition"@,
        label: "Health warning below (%)"@,
        help: "A cell whose measured capacity has fallen below this share of its nominal capacity is flagged on its page."@,
    }
}

fn health_limit_pct() -> (r: SettingSpec)
    ensures
        r@ == health_limit_pct_setting(),
{
    let r = SettingSpec {
        key: "health_limit_pct",
        env: "HEALTH_LIMIT_PCT",
        default: "80",
        kind: Kind::Int { min: 1, max: 100 },
        group: "condition",
        label: "Health warning below (%)",
        help: "A cell whose measured capacity has fallen below this share of its nominal capacity is flagged on its page.",
    };
    r
}

pub open spec fn ir_limit_aa_setting() -> SettingSpecView {
    SettingSpecView {
        key: "ir_limit_aa"@,
        env: "IR_LIMIT_AA"@,
        default: "100"@,
        kind: KindView::Int { min: 1, max: 5000 },
        group: "condition"@,
        label: "Resistance limit for AA cells (m\u{3a9})"@,
        help: METHOD_NOTE@,
    }
}

fn ir_limit_aa() -> (r: SettingSpec)
    ensures
        r@ == ir_limit_aa_setting(),
{
    let r = SettingSpec {
        key: "ir_limit_aa",
        env: "IR_LIMIT_AA",
        default: "100",
        kind: Kind::Int { min: 1, max: 5000 },
        group: "condition",
        label: "Resistance limit for AA cells (m\u{3a9})",
        help: METHOD_NOTE,
    };
    r
}

pub open spec fn ir_limit_aaa_setting() -> SettingSpecView {
    SettingSpecView {
        key: "ir_limit_aaa"@,
        env: "IR_LIMIT_AAA"@,
        default: "200"@,
        kind: KindView::Int { min: 1, max: 5000 },
        group: "condition"@,
        label: "Resistance limit for AAA cells (m\u{3a9})"@,
        help: METHOD_NOTE@,
    }
}

fn ir_limit_aaa() -> (r: SettingSpec)
    ensures
        r@ == ir_limit_aaa_setting(),
{
    let r = SettingSpec {
        key: "ir_limit_aaa",
        env: "IR_LIMIT_AAA",
        default: "200",
        kind: Kind::Int { min: 1, max: 5000 },
        group: "condition",
        label: "Resistance limit for AAA cells (m\u{3a9})",
        help: METHOD_NOTE,
    };
    r
}

pub open spec fn pool_location_setting() -> SettingSpecView {
    SettingSpecView {
        key: "pool_location"@,
        env: "POOL_LOCATION"@,
        default: "storage"@,
        kind: KindView::Text,
        group: "matching"@,
        label: "Storage location"@,
        help: "Where batteries wait to be handed out. Matching picks from the ones here, and a set that is returned goes back here."@,
    }
}

fn pool_location() -> (r: SettingSpec)
    ensures
        r@ == pool_location_setting(),
{
    let r = SettingSpec {
        key: "pool_location",
        env: "POOL_LOCATION",
        default: "storage",
        kind: Kind::Text,
        group: "matching",
        label: "Storage location",
        help: "Where batteries wait to be handed out. Matching picks from the ones here, and a set that is returned goes back here.",
    };
    r
}

pub open spec fn default_ir_mohm_setting() -> SettingSpecView {
    SettingSpecView {
        key: "default_ir_mohm"@,
        env: "DEFAULT_IR_MOHM"@,
        default: "35"@,
        kind: KindView::Int { min: 1, max: 5000 },
        group: "matching"@,
        label: "Assumed resistance (m\u{3a9})"@,
        help: "Used to rank a battery that has had its capacity measured but never its resistance."@,
    }
}

fn default_ir_mohm() -> (r: SettingSpec)
    ensures
        r@ == default_ir_mohm_setting(),
{
    let r = SettingSpec {
        key: "default_ir_mohm",
        env: "DEFAULT_IR_MOHM",
        default: "35",
        kind: Kind::Int { min: 1, max: 5000 },
        group: "matching",
        label: "Assumed resistance (m\u{3a9})",
        help: "Used to rank a battery that has had its capacity measured but never its resistance.",
    };
    r
}

pub open spec fn list_view_setting() -> SettingSpecView {
    SettingSpecView {
        key: "list_view"@,
        env: "LIST_VIEW"@,
        default: "table"@,
        kind: KindView::Choice { choices: seq!["table"@, "grid"@] },
        group: "list"@,
        label: "List layout"@,
        help: "The table gives one battery per line; the grid gives each battery a tile."@,
    }
}

fn list_view() -> (r: SettingSpec)
    ensures
        r@ == list_view_setting(),
{
    let r = SettingSpec {
        key: "list_view",
        env: "LIST_VIEW",
        default: "table",
        kind: Kind::Choice { choices: vec!["table", "grid"] },
        group: "list",
        label: "List layout",
        help: "The table gives one battery per line; the grid gives each battery a tile.",
    };
    assert(r@.kind->choices =~= list_view_setting().kind->choices);
    r
}

pub open spec fn grid_columns_setting() -> SettingSpecView {
    SettingSpecView {
        key: "grid_columns"@,
        env: "GRID_COLUMNS"@,
        default: "3"@,
        kind: KindView::Int { min: 1, max: 8 },
        group: "list"@,
        label: "Batteries per row in the grid layout"@,
        help: "A maximum rather than a fixed number. Ignored while the table layout is in use."@,
    }
}

fn grid_columns() -> (r: SettingSpec)
    ensures
        r@ == grid_columns_setting(),
{
    let r = SettingSpec {
        key: "grid_columns",
        env: "GRID_COLUMNS",
        default: "3",
        kind: Kind::Int { min: 1, max: 8 },
        group: "list",
        label: "Batteries per row in the grid layout",
        help: "A maximum rather than a fixed number. Ignored while the table layout is in use.",
    };
    r
}

pub open spec fn page_size_setting() -> SettingSpecView {
    SettingSpecView {
        key: "page_size"@,
        env: "PAGE_SIZE"@,
        default: "25"@,
        kind: KindView::Int { min: 5, max: 500 },
        group: "list"@,
        label: "Batteries per page"@,
        help: "How many batteries the list shows before paging, in either layout."@,
    }
}

fn page_size() -> (r: SettingSpec)
    ensures
        r@ == page_size_setting(),
{
    let r = SettingSpec {
        key: "page_size",
        env: "PAGE_SIZE",
        default: "25",
        kind: Kind::Int { min: 5, max: 500 },
        group: "list",
        label: "Batteries per page",
        help: "How many batteries the list shows before paging, in either layout.",
    };
    r
}

pub open spec fn print_on_add_setting() -> SettingSpecView {
    SettingSpecView {
        key: "print_on_add"@,
        env: "PRINT_ON_ADD"@,
        default: "1"@,
        kind: KindView::Bool,
        group: "labels"@,
        label: "Print labels when adding batteries"@,
        help: "Turn this off while the printer is out of tape or packed away."@,
    }
}

fn print_on_add() -> (r: SettingSpec)
    ensures
        r@ == print_on_add_setting(),
{
    let r = SettingSpec {
        key: "print_on_add",
        env: "PRINT_ON_ADD",
        default: "1",
        kind: Kind::Bool,
        group: "labels",
        label: "Print labels when adding batteries",
        help: "Turn this off while the printer is out of tape or packed away.",
    };
    r
}

pub open spec fn label_output_setting() -> SettingSpecView {
    SettingSpecView {
        key: "label_output"@,
        env: "LABEL_OUTPUT"@,
        default: "printer"@,
        kind: KindView::Choice { choices: seq!["printer"@, "pdf"@] },
        group: "labels"@,
        label: "Label output"@,
        help: "\"Printer\" sends labels straight to the network printer above. \"PDF\" saves them to a file instead, via a native Save dialog, to print through whatever software came with your own printer — the only option if it isn't a Brother PT-E550W/P750W/P710BT. Applies everywhere a label is printed: adding a battery, reprinting one, and the batch Print page."@,
    }
}

fn label_output() -> (r: SettingSpec)
    ensures
        r@ == label_output_setting(),
{
    let r = SettingSpec {
        key: "label_output",
        env: "LABEL_OUTPUT",
        default: "printer",
        kind: Kind::Choice { choices: vec!["printer", "pdf"] },
        group: "labels",
        label: "Label output",
        help: "\"Printer\" sends labels straight to the network printer above. \"PDF\" saves them to a file instead, via a native Save dialog, to print through whatever software came with your own printer — the only option if it isn't a Brother PT-E550W/P750W/P710BT. Applies everywhere a label is printed: adding a battery, reprinting one, and the batch Print page.",
    };
    assert(r@.kind->choices =~= label_output_setting().kind->choices);
    r
}

pub open spec fn pdf_layout_setting() -> SettingSpecView {
    SettingSpecView {
        key: "pdf_layout"@,
        env: "PDF_LAYOUT"@,
        default: "pages"@,
        kind: KindView::Choice { choices: seq!["pages"@, "grid"@] },
        group: "labels"@,
        label: "PDF layout"@,
        help: "Only matters when Label output is PDF and more than one label is being saved at once. \"One page per label\" sizes each page exactly to its label, so printing at 100% scale gives the correct physical size — the same guarantee a single label always has. \"Grid\" tiles several labels onto A4 pages instead, for printing a whole sheet at once."@,
    }
}

fn pdf_layout() -> (r: SettingSpec)
    ensures
        r@ == pdf_layout_setting(),
{
    let r = SettingSpec {
        key: "pdf_layout",
        env: "PDF_LAYOUT",
        default: "pages",
        kind: Kind::Choice { choices: vec!["pages", "grid"] },
        group: "labels",
        label: "PDF layout",
        help: "Only matters when Label output is PDF and more than one label is being saved at once. \"One page per label\" sizes each page exactly to its label, so printing at 100% scale gives the correct physical size — the same guarantee a single label always has. \"Grid\" tiles several labels onto A4 pages instead, for printing a whole sheet at once.",
    };
    assert(r@.kind->choices =~= pdf_layout_setting().kind->choices);
    r
}

/// Every setting there is, in the order in which the settings page has them.
pub open spec fn setting_list() -> Seq<SettingSpecView> {
    seq![
        printer_host_setting(),
        printer_usb_setting(),
        tape_mm_setting(),
        id_text_scale_setting(),
        chain_labels_setting(),
        half_cut_setting(),
        health_limit_pct_setting(),
        ir_limit_aa_setting(),
        ir_limit_aaa_setting(),
        pool_location_setting(),
        default_ir_mohm_setting(),
        list_view_setting(),
        grid_columns_setting(),
        page_size_setting(),
        print_on_add_setting(),
        label_output_setting(),
        pdf_layout_setting(),
    ]
}

pub fn settings() -> (r: Vec<SettingSpec>)
    ensures
        views_of(r@) == setting_list(),
{
    let r = vec![
        printer_host(),
        printer_usb(),
        tape_mm(),
        id_text_scale(),
        chain_labels(),
        half_cut(),
        health_limit_pct(),
        ir_limit_aa(),
        ir_limit_aaa(),
        pool_location(),
        default_ir_mohm(),
        list_view(),
        grid_columns(),
        page_size(),
        print_on_add(),
        label_output(),
        pdf_layout(),
    ];
    assert(views_of(r@) =~= setting_list());
    r
}

/// The sections of the settings page: what their settings name them by, their
/// title, and what they are about.
pub open spec fn group_list() -> Seq<(Seq<char>, Seq<char>, Seq<char>)> {
    seq![
        ("printer"@, "Printer"@, "Where labels are sent. Nothing here is consulted until something is actually printed, so a wrong address stops labels rather than the application."@),
        ("labels"@, "Labels"@, "What comes out of the printer: how big a label is, and how several of them at once are fed and cut."@),
        ("condition"@, "Condition warnings"@, "The internal resistance above which a cell is flagged as suspect."@),
        ("matching"@, "Matching"@, "Which batteries are handed out, and how they are compared."@),
        ("list"@, "The battery list"@, "How the list draws itself. None of this touches the batteries themselves."@),
    ]
}

pub open spec fn group_views(s: Seq<(&'static str, &'static str, &'static str)>) -> Seq<
    (Seq<char>, Seq<char>, Seq<char>),
> {
    s.map_values(|g: (&'static str, &'static str, &'static str)| (g.0@, g.1@, g.2@))
}

fn groups() -> (r: Vec<(&'static str, &'static str, &'static str)>)
    ensures
        group_views(r@) == group_list(),
{
    let r = vec![
        ("printer", "Printer", "Where labels are sent. Nothing here is consulted until something is actually printed, so a wrong address stops labels rather than the application."),
        ("labels", "Labels", "What comes out of the printer: how big a label is, and how several of them at once are fed and cut."),
        ("condition", "Condition warnings", "The internal resistance above which a cell is flagged as suspect."),
        ("matching", "Matching", "Which batteries are handed out, and how they are compared."),
        ("list", "The battery list", "How the list draws itself. None of this touches the batteries themselves."),
    ];
    assert(group_views(r@) =~= group_list());
    r
}

pub open spec fn first_with_key(list: Seq<SettingSpecView>, key: Seq<char>) -> Option<
    SettingSpecView,
>
    decreases list.len(),
{
    if list.len() == 0 {
        None
    } else if list[0].key == key {
        Some(list[0])
    } else {
        first_with_key(list.skip(1), key)
    }
}

/// The setting of that name.
pub open spec fn setting_named(key: Seq<char>) -> Option<SettingSpecView> {
    first_with_key(setting_list(), key)
}

pub fn setting_spec(key: &str) -> (r: Option<SettingSpec>)
    ensures
        match r {
            Some(s) => setting_named(key@) == Some(s@),
            None => setting_named(key@) is None,
        },
{
    let mut list = settings();
    let mut i: usize = 0;
    assert(setting_list().skip(0) =~= setting_list());
    while i < list.len()
        invariant
            i <= list@.len(),
            views_of(list@) == setting_list(),
            first_with_key(setting_list().skip(i as int), key@) == setting_named(key@),
        decreases list@.len() - i,
    {
        assert(views_of(list@)[i as int] == list@[i as int]@);
        assert(setting_list().skip(i as int).skip(1) =~= setting_list().skip(i + 1));
        if same(list[i].key, key) {
            return Some(list.swap_remove(i));
        }
        i = i + 1;
    }
    None
}

// ── Values ──────────────────────────────────────────────────────────────

/// A setting's value.
#[derive(Debug)]
pub enum Value {
    Bool(bool),
    Int(i64),
    Float(Decimal),
    Text(String),
}

#[verifier::ext_equal]
pub enum ValueView {
    Bool(bool),
    Int(i64),
    Float(DecimalView),
    Text(Seq<char>),
}

impl View for Value {
    type V = ValueView;

    open spec fn view(&self) -> ValueView {
        match self {
            Value::Bool(b) => ValueView::Bool(*b),
            Value::Int(i) => ValueView::Int(*i),
            Value::Float(d) => ValueView::Float(d@),
            Value::Text(s) => ValueView::Text(s@),
        }
    }
}

impl ValueView {
    pub open spec fn is_on(self) -> bool {
        self == ValueView::Bool(true)
    }

    pub open spec fn number(self) -> i64 {
        match self {
            ValueView::Int(i) => i,
            _ => 0,
        }
    }

    /// The text that a value is kept as.
    pub open spec fn text(self) -> Seq<char> {
        match self {
            ValueView::Bool(b) => if b {
                "1"@
            } else {
                "0"@
            },
            ValueView::Int(i) => int_text(i as int),
            ValueView::Float(d) => decimal_text(d),
            ValueView::Text(s) => s,
        }
    }

    /// A value as a fraction.
    pub open spec fn fraction(self) -> (i64, i64) {
        match self {
            ValueView::Float(d) => share_of(d),
            ValueView::Int(i) => (i, 1),
            _ => (0, 1),
        }
    }
}

impl Value {
    pub fn as_bool(&self) -> (r: bool)
        ensures
            r == self@.is_on(),
    {
        match self {
            Value::Bool(b) => *b,
            _ => false,
        }
    }

    pub fn as_i64(&self) -> (r: i64)
        ensures
            r == self@.number(),
    {
        match self {
            Value::Int(i) => *i,
            _ => 0,
        }
    }

    /// The number that a value is, as a numerator and a denominator.
    pub fn as_share(&self) -> (r: (i64, i64))
        ensures
            r == self@.fraction(),
            r.1 > 0,
    {
        match self {
            Value::Float(d) => d.share(),
            Value::Int(i) => (*i, 1),
            _ => (0, 1),
        }
    }

    pub fn as_text(&self) -> (r: String)
        ensures
            r@ == self@.text(),
    {
        match self {
            Value::Bool(b) => if *b {
                "1".to_string()
            } else {
                "0".to_string()
            },
            Value::Int(i) => crate::text::int_string(*i),
            Value::Float(d) => d.to_text(),
            Value::Text(s) => s.clone(),
        }
    }
}

pub open spec fn on_word(s: Seq<char>) -> bool {
    ||| same_ignoring_case(s, "1"@)
    ||| same_ignoring_case(s, "true"@)
    ||| same_ignoring_case(s, "yes"@)
    ||| same_ignoring_case(s, "on"@)
}

pub open spec fn off_word(s: Seq<char>) -> bool {
    ||| same_ignoring_case(s, "0"@)
    ||| same_ignoring_case(s, "false"@)
    ||| same_ignoring_case(s, "no"@)
    ||| same_ignoring_case(s, "off"@)
}

/// On or off, as a word says.
pub open spec fn switch_of(raw: Seq<char>, label: Seq<char>) -> Result<bool, Seq<char>> {
    if on_word(trimmed(raw)) {
        Ok(true)
    } else if off_word(trimmed(raw)) {
        Ok(false)
    } else {
        Err(label + " must be on or off, and "@ + quoted(raw) + " is neither."@)
    }
}

fn as_bool(raw: &str, label: &str) -> (r: Result<bool, String>)
    ensures
        match r {
            Ok(b) => switch_of(raw@, label@) == Ok::<bool, Seq<char>>(b),
            Err(e) => switch_of(raw@, label@) == Err::<bool, Seq<char>>(e@),
        },
{
    let text = trim(raw);
    if same_ignoring_ascii_case(text, "1") || same_ignoring_ascii_case(text, "true")
        || same_ignoring_ascii_case(text, "yes") || same_ignoring_ascii_case(text, "on") {
        return Ok(true);
    }
    if same_ignoring_ascii_case(text, "0") || same_ignoring_ascii_case(text, "false")
        || same_ignoring_ascii_case(text, "no") || same_ignoring_ascii_case(text, "off") {
        return Ok(false);
    }
    let mut m = label.to_string();
    m.append(" must be on or off, and ");
    m.append(quote(raw).as_str());
    m.append(" is neither.");
    Err(m)
}

/// The decimal that a bound stands for.
pub open spec fn bound_of(s: Seq<char>) -> DecimalView {
    match decimal_of(s) {
        Some(d) => d,
        None => DecimalView::NotANumber,
    }
}

fn bound(s: &str) -> (r: Decimal)
    ensures
        r@ == bound_of(s@),
{
    match read_decimal(s) {
        Some(d) => d,
        None => Decimal::NotANumber,
    }
}

/// The number of a decimal setting; a comma serves as well as a point.
pub open spec fn decimal_input(raw: Seq<char>) -> Option<DecimalView> {
    decimal_of(trimmed(replaced(raw, ',', '.')))
}

/// What a text is worth to a setting, or why it is worth nothing.
pub open spec fn coerced(s: SettingSpecView, raw: Seq<char>) -> Result<ValueView, Seq<char>> {
    match s.kind {
        KindView::Bool => match switch_of(raw, s.label) {
            Ok(b) => Ok(ValueView::Bool(b)),
            Err(e) => Err(e),
        },
        KindView::Int { min, max } => match parsed_int(trimmed(raw)) {
            None => Err(
                s.label + " must be a whole number, and "@ + quoted(raw) + " is not."@,
            ),
            Some(n) => if n < min || n > max {
                Err(
                    s.label + " must be between "@ + int_text(min as int) + " and "@ + int_text(
                        max as int,
                    ) + ", and "@ + int_text(n as int) + " is outside that."@,
                )
            } else {
                Ok(ValueView::Int(n))
            },
        },
        KindView::Float { min, max } => match decimal_input(raw) {
            None => Err(s.label + " must be a number, and "@ + quoted(raw) + " is not."@),
            Some(d) => if decimal_lt(d, bound_of(min)) || decimal_lt(bound_of(max), d) {
                Err(
                    s.label + " must be between "@ + decimal_text(bound_of(min)) + " and "@
                        + decimal_text(bound_of(max)) + ", and "@ + decimal_text(d)
                        + " is outside that."@,
                )
            } else {
                Ok(ValueView::Float(d))
            },
        },
        KindView::Choice { choices } => if choices.contains(trimmed(raw)) {
            Ok(ValueView::Text(trimmed(raw)))
        } else {
            Err(
                s.label + " must be one of "@ + joined(choices, ", "@) + ", and "@ + quoted(raw)
                    + " is not."@,
            )
        },
        KindView::Text => Ok(ValueView::Text(trimmed(raw))),
    }
}

pub open spec fn value_result(r: Result<Value, String>) -> Result<ValueView, Seq<char>> {
    match r {
        Ok(v) => Ok(v@),
        Err(e) => Err(e@),
    }
}

fn known_choice(choices: &Vec<&'static str>, text: &str) -> (r: bool)
    ensures
        r == str_views(choices@).contains(text@),
{
    let mut i: usize = 0;
    while i < choices.len()
        invariant
            i <= choices@.len(),
            forall|j: int| 0 <= j < i ==> str_views(choices@)[j] != text@,
        decreases choices@.len() - i,
    {
        assert(str_views(choices@)[i as int] == choices@[i as int]@);
        if same(choices[i], text) {
            return true;
        }
        i = i + 1;
    }
    assert(str_views(choices@).len() == choices@.len());
    false
}

fn choice_strings(choices: &Vec<&'static str>) -> (r: Vec<String>)
    ensures
        views(r@) == str_views(choices@),
{
    let mut out: Vec<String> = Vec::new();
    let mut i: usize = 0;
    while i < choices.len()
        invariant
            i <= choices@.len(),
            views(out@) == str_views(choices@).take(i as int),
        decreases choices@.len() - i,
    {
        let ghost before = out@;
        out.push(choices[i].to_string());
        proof {
            crate::text::lemma_views_push(before, out@.last());
            assert(str_views(choices@).take(i + 1) =~= str_views(choices@).take(i as int).push(
                choices@[i as int]@,
            ));
        }
        i = i + 1;
    }
    assert(str_views(choices@).take(i as int) =~= str_views(choices@));
    out
}

/// Reads a text as the value of a setting.
pub fn coerce(spec: &SettingSpec, raw: &str) -> (r: Result<Value, String>)
    ensures
        value_result(r) == coerced(spec@, raw@),
{
    match &spec.kind {
        Kind::Bool => match as_bool(raw, spec.label) {
            Ok(b) => Ok(Value::Bool(b)),
            Err(e) => Err(e),
        },
        Kind::Int { min, max } => {
            match parse_i64(trim(raw)) {
                None => {
                    let mut m = spec.label.to_string();
                    m.append(" must be a whole number, and ");
                    m.append(quote(raw).as_str());
                    m.append(" is not.");
                    Err(m)
                },
                Some(n) => {
                    if n < *min || n > *max {
                        let mut m = spec.label.to_string();
                        m.append(" must be between ");
                        push_int(&mut m, *min as i128);
                        m.append(" and ");
                        push_int(&mut m, *max as i128);
                        m.append(", and ");
                        push_int(&mut m, n as i128);
                        m.append(" is outside that.");
                        return Err(m);
                    }
                    Ok(Value::Int(n))
                },
            }
        },
        Kind::Float { min, max } => {
            let text = replace(raw, ',', '.');
            match read_decimal(trim(text.as_str())) {
                None => {
                    let mut m = spec.label.to_string();
                    m.append(" must be a number, and ");
                    m.append(quote(raw).as_str());
                    m.append(" is not.");
                    Err(m)
                },
                Some(d) => {
                    let low = bound(min);
                    let high = bound(max);
                    if d.is_less(&low) || high.is_less(&d) {
                        let mut m = spec.label.to_string();
                        m.append(" must be between ");
                        m.append(low.to_text().as_str());
                        m.append(" and ");
                        m.append(high.to_text().as_str());
                        m.append(", and ");
                        m.append(d.to_text().as_str());
                        m.append(" is outside that.");
                        return Err(m);
                    }
                    Ok(Value::Float(d))
                },
            }
        },
        Kind::Choice { choices } => {
            let text = trim(raw);
            if !known_choice(choices, text) {
                let mut m = spec.label.to_string();
                m.append(" must be one of ");
                m.append(join(&choice_strings(choices), ", ").as_str());
                m.append(", and ");
                m.append(quote(raw).as_str());
                m.append(" is not.");
                return Err(m);
            }
            Ok(Value::Text(text.to_string()))
        },
        Kind::Text => Ok(Value::Text(trim(raw).to_string())),
    }
}

// ── What is in force ────────────────────────────────────────────────────

/// What the environment holds under a name; nothing is the empty text.
pub open spec fn env_text(env: Dict<String>, name: Seq<char>) -> Seq<char> {
    match env.spec_get(name) {
        Some(s) => s@,
        None => Seq::empty(),
    }
}

fn env_value(env: &Dict<String>, name: &str) -> (r: String)
    ensures
        r@ == env_text(*env, name@),
{
    match env.get(name) {
        Some(s) => s.clone(),
        None => {
            let r = String::new();
            assert(r@ =~= Seq::<char>::empty());
            r
        },
    }
}

pub open spec fn is_blank(s: Seq<char>) -> bool {
    trimmed(s).len() == 0
}

fn blank(s: &str) -> (r: bool)
    ensures
        r == is_blank(s@),
{
    trim(s).is_empty()
}

/// The layer that a setting's value comes from.
pub open spec fn source_of(settings: Seq<SettingView>, env: Dict<String>, key: Seq<char>) -> Seq<
    char,
> {
    match setting_named(key) {
        None => "built-in"@,
        Some(s) => if stored(settings, key) is Some {
            "database"@
        } else if !is_blank(env_text(env, s.env)) {
            "environment"@
        } else {
            "built-in"@
        },
    }
}

pub fn source(db: &Db, env: &Dict<String>, key: &str) -> (r: &'static str)
    ensures
        r@ == source_of(db@.settings, *env, key@),
{
    match setting_spec(key) {
        None => "built-in",
        Some(s) => {
            if let Ok(Some(_)) = db.get_setting(key) {
                return "database";
            }
            if !blank(env_value(env, s.env).as_str()) {
                return "environment";
            }
            "built-in"
        },
    }
}

/// The value of a setting by its default alone.
pub open spec fn default_value(s: SettingSpecView) -> ValueView {
    match coerced(s, s.default) {
        Ok(v) => v,
        Err(_) => ValueView::Text(Seq::empty()),
    }
}

/// The value of a setting for which nothing was saved.
pub open spec fn unsaved_value(env: Dict<String>, s: SettingSpecView) -> ValueView {
    let text = env_text(env, s.env);
    if !is_blank(text) && coerced(s, text) is Ok {
        coerced(s, text)->Ok_0
    } else {
        default_value(s)
    }
}

/// The value in force: what was saved, or else the environment's, or else the
/// default. What cannot be read counts as missing.
pub open spec fn value_of(settings: Seq<SettingView>, env: Dict<String>, key: Seq<char>) -> ValueView {
    match setting_named(key) {
        None => ValueView::Text(Seq::empty()),
        Some(s) => match stored(settings, key) {
            Some(text) => match coerced(s, text) {
                Ok(v) => v,
                Err(_) => unsaved_value(env, s),
            },
            None => unsaved_value(env, s),
        },
    }
}

fn empty_value() -> (r: Value)
    ensures
        r@ == ValueView::Text(Seq::empty()),
{
    let s = String::new();
    assert(s@ =~= Seq::<char>::empty());
    Value::Text(s)
}

pub fn get(db: &Db, env: &Dict<String>, key: &str) -> (r: Value)
    ensures
        r@ == value_of(db@.settings, *env, key@),
{
    let s = match setting_spec(key) {
        Some(s) => s,
        None => return empty_value(),
    };
    if let Ok(Some(text)) = db.get_setting(key) {
        if let Ok(v) = coerce(&s, text.as_str()) {
            return v;
        }
    }
    let from_env = env_value(env, s.env);
    if !blank(from_env.as_str()) {
        if let Ok(v) = coerce(&s, from_env.as_str()) {
            return v;
        }
    }
    match coerce(&s, s.default) {
        Ok(v) => v,
        Err(_) => empty_value(),
    }
}

/// A raw value as the settings page shows it.
pub open spec fn shown(s: SettingSpecView, raw: Seq<char>) -> Seq<char> {
    if s.kind is Bool {
        match switch_of(raw, s.label) {
            Ok(true) => "on"@,
            Ok(false) => "off"@,
            Err(_) => raw,
        }
    } else if raw.len() == 0 {
        "empty"@
    } else {
        raw
    }
}

/// What a setting goes by without a saved value, and where that comes from.
pub open spec fn fallback_of(env: Dict<String>, key: Seq<char>) -> Seq<char> {
    match setting_named(key) {
        None => Seq::empty(),
        Some(s) => if !is_blank(env_text(env, s.env)) {
            shown(s, env_text(env, s.env)) + ", from the "@ + "environment"@
        } else {
            shown(s, s.default) + ", from the "@ + "built-in default"@
        },
    }
}

pub fn fallback_text(env: &Dict<String>, key: &str) -> (r: String)
    ensures
        r@ == fallback_of(*env, key@),
{
    let s = match setting_spec(key) {
        Some(s) => s,
        None => {
            let r = String::new();
            assert(r@ =~= Seq::<char>::empty());
            return r;
        },
    };
    let from_env = env_value(env, s.env);
    let (raw, from) = if !blank(from_env.as_str()) {
        (from_env, "environment")
    } else {
        (s.default.to_string(), "built-in default")
    };
    let switch = if let Kind::Bool = &s.kind {
        true
    } else {
        false
    };
    let mut m = if switch {
        match as_bool(raw.as_str(), s.label) {
            Ok(true) => "on".to_string(),
            Ok(false) => "off".to_string(),
            Err(_) => raw,
        }
    } else if raw.as_str().is_empty() {
        "empty".to_string()
    } else {
        raw
    };
    m.append(", from the ");
    m.append(from);
    m
}

/// The tables once a text was saved for a setting: a blank one takes back what
/// was saved before, unless the setting is a switch.
pub open spec fn saved(d: DbView, key: Seq<char>, raw: Seq<char>, now: Seq<char>) -> Result<
    DbView,
    Seq<char>,
> {
    match setting_named(key) {
        None => Err(quoted(key) + " is not a setting."@),
        Some(s) => if !(s.kind is Bool) && is_blank(raw) {
            Ok(setting_deleted(d, key))
        } else {
            match coerced(s, raw) {
                Ok(v) => Ok(setting_saved(d, key, v.text(), now)),
                Err(e) => Err(e),
            }
        },
    }
}

pub fn save(db: &mut Db, key: &str, raw: &str, now: &str) -> (r: Result<(), String>)
    ensures
        match r {
            Ok(_) => saved(old(db)@, key@, raw@, now@) == Ok::<DbView, Seq<char>>(final(db)@),
            Err(e) => saved(old(db)@, key@, raw@, now@) == Err::<DbView, Seq<char>>(e@)
                && *final(db) == *old(db),
        },
{
    let s = match setting_spec(key) {
        Some(s) => s,
        None => {
            let mut m = quote(key);
            m.append(" is not a setting.");
            return Err(m);
        },
    };
    let switch = if let Kind::Bool = &s.kind {
        true
    } else {
        false
    };
    if !switch && blank(raw) {
        let _ = db.delete_setting(key);
        return Ok(());
    }
    match coerce(&s, raw) {
        Ok(v) => {
            let _ = db.set_setting(key, v.as_text().as_str(), now);
            Ok(())
        },
        Err(e) => Err(e),
    }
}

/// Takes back what was saved for a setting.
pub fn clear(db: &mut Db, key: &str) -> (r: Result<(), String>)
    ensures
        r is Ok,
        final(db)@ == setting_deleted(old(db)@, key@),
{
    let _ = db.delete_setting(key);
    Ok(())
}

// ── The settings page ───────────────────────────────────────────────────

#[derive(Debug)]
pub struct SettingRow {
    pub key: String,
    pub label: String,
    pub help: String,
    pub kind: String,
    pub choices: Vec<String>,
    pub value: Value,
    pub text: String,
    pub source: String,
    pub fallback: String,
}

#[verifier::ext_equal]
pub struct SettingRowView {
    pub key: Seq<char>,
    pub label: Seq<char>,
    pub help: Seq<char>,
    pub kind: Seq<char>,
    pub choices: Seq<Seq<char>>,
    pub value: ValueView,
    pub text: Seq<char>,
    pub source: Seq<char>,
    pub fallback: Seq<char>,
}

impl View for SettingRow {
    type V = SettingRowView;

    open spec fn view(&self) -> SettingRowView {
        SettingRowView {
            key: self.key@,
            label: self.label@,
            help: self.help@,
            kind: self.kind@,
            choices: views(self.choices@),
            value: self.value@,
            text: self.text@,
            source: self.source@,
            fallback: self.fallback@,
        }
    }
}

pub open spec fn kind_name(k: KindView) -> Seq<char> {
    match k {
        KindView::Bool => "bool"@,
        KindView::Int { .. } => "int"@,
        KindView::Float { .. } => "float"@,
        KindView::Choice { .. } => "choice"@,
        KindView::Text => "text"@,
    }
}

pub open spec fn choices_of(k: KindView) -> Seq<Seq<char>> {
    match k {
        KindView::Choice { choices } => choices,
        _ => Seq::empty(),
    }
}

/// How a value stands in its field on the settings page.
pub open spec fn field_text(k: KindView, v: ValueView) -> Seq<char> {
    match k {
        KindView::Bool => if v.is_on() {
            "1"@
        } else {
            "0"@
        },
        _ => v.text(),
    }
}

pub open spec fn row_of(s: SettingSpecView, settings: Seq<SettingView>, env: Dict<String>) -> SettingRowView {
    SettingRowView {
        key: s.key,
        label: s.label,
        help: s.help,
        kind: kind_name(s.kind),
        choices: choices_of(s.kind),
        value: value_of(settings, env, s.key),
        text: field_text(s.kind, value_of(settings, env, s.key)),
        source: source_of(settings, env, s.key),
        fallback: fallback_of(env, s.key),
    }
}

fn row(db: &Db, env: &Dict<String>, s: &SettingSpec) -> (r: SettingRow)
    ensures
        r@ == row_of(s@, db@.settings, *env),
{
    let value = get(db, env, s.key);
    let (kind, choices, text) = match &s.kind {
        Kind::Bool => ("bool", Vec::new(), if value.as_bool() {
            "1".to_string()
        } else {
            "0".to_string()
        }),
        Kind::Int { .. } => ("int", Vec::new(), value.as_text()),
        Kind::Float { .. } => ("float", Vec::new(), value.as_text()),
        Kind::Choice { choices } => ("choice", choice_strings(choices), value.as_text()),
        Kind::Text => ("text", Vec::new(), value.as_text()),
    };
    let r = SettingRow {
        key: s.key.to_string(),
        label: s.label.to_string(),
        help: s.help.to_string(),
        kind: kind.to_string(),
        choices,
        value,
        text,
        source: source(db, env, s.key).to_string(),
        fallback: fallback_text(env, s.key),
    };
    assert(r@.choices =~= choices_of(s@.kind));
    r
}

/// One part of the settings page.
#[derive(Debug)]
pub struct Section {
    pub key: String,
    pub title: String,
    pub blurb: String,
    pub settings: Vec<SettingRow>,
}

#[verifier::ext_equal]
pub struct SectionView {
    pub key: Seq<char>,
    pub title: Seq<char>,
    pub blurb: Seq<char>,
    pub settings: Seq<SettingRowView>,
}

impl View for Section {
    type V = SectionView;

    open spec fn view(&self) -> SectionView {
        SectionView {
            key: self.key@,
            title: self.title@,
            blurb: self.blurb@,
            settings: views_of(self.settings@),
        }
    }
}

pub open spec fn in_group(group: Seq<char>) -> spec_fn(SettingSpecView) -> bool {
    |s: SettingSpecView| s.group == group
}

/// The settings of one group, in their order.
pub open spec fn rows_in(
    list: Seq<SettingSpecView>,
    group: Seq<char>,
    settings: Seq<SettingView>,
    env: Dict<String>,
) -> Seq<SettingRowView> {
    list.filter(in_group(group)).map_values(|s: SettingSpecView| row_of(s, settings, env))
}

fn group_rows(list: &Vec<SettingSpec>, group: &str, db: &Db, env: &Dict<String>) -> (r: Vec<
    SettingRow,
>)
    ensures
        views_of(r@) == rows_in(views_of(list@), group@, db@.settings, *env),
{
    let ghost f = |s: SettingSpecView| row_of(s, db@.settings, *env);
    let ghost all = views_of(list@);
    let mut out: Vec<SettingRow> = Vec::new();
    let mut i: usize = 0;
    proof {
        reveal(Seq::filter);
        assert(all.take(0).filter(in_group(group@)).map_values(f) =~= views_of(out@));
    }
    while i < list.len()
        invariant
            i <= list@.len(),
            all == views_of(list@),
            f == (|s: SettingSpecView| row_of(s, db@.settings, *env)),
            views_of(out@) == all.take(i as int).filter(in_group(group@)).map_values(f),
        decreases list@.len() - i,
    {
        let ghost before = out@;
        proof {
            reveal(Seq::filter);
            assert(all.take(i + 1).drop_last() =~= all.take(i as int));
            assert(all.take(i + 1).last() == list@[i as int]@);
        }
        if same(list[i].group, group) {
            out.push(row(db, env, &list[i]));
            proof {
                lemma_views_push(before, out@.last());
                assert(all.take(i + 1).filter(in_group(group@)).map_values(f) =~= views_of(
                    before,
                ).push(out@.last()@));
            }
        }
        i = i + 1;
    }
    assert(all.take(i as int) =~= all);
    out
}

/// The sections that are named, in their order, but for those without a
/// setting.
pub open spec fn named_sections(
    groups: Seq<(Seq<char>, Seq<char>, Seq<char>)>,
    list: Seq<SettingSpecView>,
    settings: Seq<SettingView>,
    env: Dict<String>,
) -> Seq<SectionView>
    decreases groups.len(),
{
    if groups.len() == 0 {
        Seq::empty()
    } else {
        let g = groups.last();
        let rows = rows_in(list, g.0, settings, env);
        let rest = named_sections(groups.drop_last(), list, settings, env);
        if rows.len() == 0 {
            rest
        } else {
            rest.push(SectionView { key: g.0, title: g.1, blurb: g.2, settings: rows })
        }
    }
}

pub open spec fn is_group(groups: Seq<(Seq<char>, Seq<char>, Seq<char>)>, key: Seq<char>) -> bool {
    exists|i: int| 0 <= i < groups.len() && (#[trigger] groups[i]).0 == key
}

/// The groups that settings name and that are no sections, each at its first
/// mention.
pub open spec fn strays(
    groups: Seq<(Seq<char>, Seq<char>, Seq<char>)>,
    list: Seq<SettingSpecView>,
) -> Seq<Seq<char>>
    decreases list.len(),
{
    if list.len() == 0 {
        Seq::empty()
    } else {
        let rest = strays(groups, list.drop_last());
        let g = list.last().group;
        if is_group(groups, g) || rest.contains(g) {
            rest
        } else {
            rest.push(g)
        }
    }
}

/// A title made of a group's name.
pub open spec fn stray_title(group: Seq<char>) -> Seq<char> {
    if group.len() == 0 {
        "Ungrouped"@
    } else {
        replaced(group, '_', ' ').update(0, ascii_upper(replaced(group, '_', ' ')[0]))
    }
}

pub const STRAY_BLURB: &'static str =
    "These settings name a section that does not exist, so they are shown here rather than not at all.";

pub open spec fn stray_section(
    group: Seq<char>,
    list: Seq<SettingSpecView>,
    settings: Seq<SettingView>,
    env: Dict<String>,
) -> SectionView {
    SectionView {
        key: group,
        title: stray_title(group),
        blurb: STRAY_BLURB@,
        settings: rows_in(list, group, settings, env),
    }
}

/// The settings page: the sections in their order, and then the settings whose
/// group is none of them.
pub open spec fn sections_of(
    groups: Seq<(Seq<char>, Seq<char>, Seq<char>)>,
    list: Seq<SettingSpecView>,
    settings: Seq<SettingView>,
    env: Dict<String>,
) -> Seq<SectionView> {
    named_sections(groups, list, settings, env) + strays(groups, list).map_values(
        |g: Seq<char>| stray_section(g, list, settings, env),
    )
}

fn title_for(group: &str) -> (r: String)
    ensures
        r@ == stray_title(group@),
{
    if group.is_empty() {
        return "Ungrouped".to_string();
    }
    let spaced = replace(group, '_', ' ');
    let mut v = chars_of(spaced.as_str());
    let first = upper_char(v[0]);
    v.set(0, first);
    let r = crate::text::text_of(&v, 0, v.len());
    assert(v@.subrange(0, v@.len() as int) =~= v@);
    r
}

fn group_known(groups: &Vec<(&'static str, &'static str, &'static str)>, key: &str) -> (r: bool)
    ensures
        r == is_group(group_views(groups@), key@),
{
    let ghost all = group_views(groups@);
    let mut i: usize = 0;
    while i < groups.len()
        invariant
            i <= groups@.len(),
            all == group_views(groups@),
            forall|j: int| 0 <= j < i ==> (#[trigger] all[j]).0 != key@,
        decreases groups@.len() - i,
    {
        assert(all[i as int].0 == groups@[i as int].0@);
        if same(groups[i].0, key) {
            return true;
        }
        i = i + 1;
    }
    false
}

fn listed(names: &Vec<&'static str>, key: &str) -> (r: bool)
    ensures
        r == str_views(names@).contains(key@),
{
    known_choice(names, key)
}

fn stray_groups(
    groups: &Vec<(&'static str, &'static str, &'static str)>,
    list: &Vec<SettingSpec>,
) -> (r: Vec<&'static str>)
    ensures
        str_views(r@) == strays(group_views(groups@), views_of(list@)),
{
    let ghost all = views_of(list@);
    let mut out: Vec<&'static str> = Vec::new();
    let mut i: usize = 0;
    assert(str_views(out@) =~= strays(group_views(groups@), all.take(0)));
    while i < list.len()
        invariant
            i <= list@.len(),
            all == views_of(list@),
            str_views(out@) == strays(group_views(groups@), all.take(i as int)),
        decreases list@.len() - i,
    {
        assert(all.take(i + 1).drop_last() =~= all.take(i as int));
        assert(all.take(i + 1).last() == list@[i as int]@);
        let g = list[i].group;
        if !group_known(groups, g) && !listed(&out, g) {
            let ghost before = out@;
            out.push(g);
            assert(str_views(out@) =~= str_views(before).push(g@));
        }
        i = i + 1;
    }
    assert(all.take(i as int) =~= all);
    out
}

/// The settings page of some settings in some sections.
pub fn sections(
    groups: &Vec<(&'static str, &'static str, &'static str)>,
    list: &Vec<SettingSpec>,
    db: &Db,
    env: &Dict<String>,
) -> (r: Vec<Section>)
    ensures
        views_of(r@) == sections_of(group_views(groups@), views_of(list@), db@.settings, *env),
{
    let ghost gs = group_views(groups@);
    let ghost all = views_of(list@);
    let mut out: Vec<Section> = Vec::new();
    let mut i: usize = 0;
    assert(views_of(out@) =~= named_sections(gs.take(0), all, db@.settings, *env));
    while i < groups.len()
        invariant
            i <= groups@.len(),
            gs == group_views(groups@),
            all == views_of(list@),
            views_of(out@) == named_sections(gs.take(i as int), all, db@.settings, *env),
        decreases groups@.len() - i,
    {
        assert(gs.take(i + 1).drop_last() =~= gs.take(i as int));
        let rows = group_rows(list, groups[i].0, db, env);
        assert(views_of(rows@).len() == rows@.len());
        if rows.len() > 0 {
            let ghost before = out@;
            out.push(
                Section {
                    key: groups[i].0.to_string(),
                    title: groups[i].1.to_string(),
                    blurb: groups[i].2.to_string(),
                    settings: rows,
                },
            );
            proof {
                lemma_views_push(before, out@.last());
            }
        }
        i = i + 1;
    }
    assert(gs.take(i as int) =~= gs);
    let names = stray_groups(groups, list);
    let ghost made = |g: Seq<char>| stray_section(g, all, db@.settings, *env);
    let ghost start = views_of(out@);
    let ghost wanted = strays(gs, all).map_values(made);
    let mut k: usize = 0;
    assert(start + wanted.take(0) =~= start);
    while k < names.len()
        invariant
            k <= names@.len(),
            all == views_of(list@),
            gs == group_views(groups@),
            made == (|g: Seq<char>| stray_section(g, all, db@.settings, *env)),
            wanted == strays(gs, all).map_values(made),
            str_views(names@) == strays(gs, all),
            views_of(out@) == start + wanted.take(k as int),
        decreases names@.len() - k,
    {
        let ghost before = out@;
        assert(str_views(names@)[k as int] == names@[k as int]@);
        out.push(
            Section {
                key: names[k].to_string(),
                title: title_for(names[k]),
                blurb: STRAY_BLURB.to_string(),
                settings: group_rows(list, names[k], db, env),
            },
        );
        proof {
            lemma_views_push(before, out@.last());
            assert(start + wanted.take(k + 1) =~= (start + wanted.take(k as int)).push(
                wanted[k as int],
            ));
        }
        k = k + 1;
    }
    assert(str_views(names@).len() == names@.len());
    assert(wanted.take(k as int) =~= wanted);
    out
}

pub fn overview(db: &Db, env: &Dict<String>) -> (r: Vec<Section>)
    ensures
        views_of(r@) == sections_of(group_list(), setting_list(), db@.settings, *env),
{
    sections(&groups(), &settings(), db, env)
}

// ── What holds of the settings ──────────────────────────────────────────

/// A text without white space at its ends is left alone.
proof fn lemma_trimmed_solid(s: Seq<char>)
    requires
        s.len() > 0 ==> !crate::text::is_white(s[0]) && !crate::text::is_white(s.last()),
    ensures
        trimmed(s) == s,
{
}

proof fn lemma_int_text_solid(n: i64)
    ensures
        trimmed(int_text(n as int)) == int_text(n as int),
{
    let m = if n < 0 {
        (-n) as nat
    } else {
        n as nat
    };
    crate::text::lemma_nat_text_digits(m);
    let t = crate::text::nat_text(m);
    assert(crate::text::is_digit(t[0]) && crate::text::is_digit(t.last()));
    if n < 0 {
        assert(int_text(n as int).last() == t.last());
    }
    lemma_trimmed_solid(int_text(n as int));
}

proof fn lemma_decimal_text_solid(d: DecimalView)
    requires
        d.normal_form(),
    ensures
        trimmed(replaced(decimal_text(d), ',', '.')) == decimal_text(d),
        trimmed(decimal_text(d)) == decimal_text(d),
{
    let t = decimal_text(d);
    reveal_strlit("NaN");
    reveal_strlit("inf");
    reveal_strlit("-inf");
    assert forall|i: int| 0 <= i < t.len() implies !crate::text::is_white(#[trigger] t[i]) && t[i]
        != ',' by {
        if let DecimalView::Finite { negative, digits, point } = d {
            let sign: int = if negative {
                1
            } else {
                0
            };
            let k = i - sign;
            if k >= 0 && digits.len() > 0 {
                if point <= 0 {
                    if k >= 2 - point {
                        assert(t[i] == digits[k - 2 + point]);
                        assert(crate::text::is_digit(digits[k - 2 + point]));
                    }
                } else if k < digits.len() && (point >= digits.len() || k < point) {
                    assert(t[i] == digits[k]);
                    assert(crate::text::is_digit(digits[k]));
                } else if point < digits.len() && k > point {
                    assert(t[i] == digits[k - 1]);
                    assert(crate::text::is_digit(digits[k - 1]));
                }
            }
        }
    }
    assert(replaced(t, ',', '.') =~= t);
    lemma_trimmed_solid(t);
}

/// The text that a value is kept as is worth that value.
pub proof fn a_kept_value_reads_back(s: SettingSpecView, raw: Seq<char>)
    requires
        coerced(s, raw) is Ok,
    ensures
        coerced(s, coerced(s, raw)->Ok_0.text()) == coerced(s, raw),
{
    let v = coerced(s, raw)->Ok_0;
    match s.kind {
        KindView::Bool => {
            reveal_strlit("1");
            reveal_strlit("0");
            lemma_trimmed_solid("1"@);
            lemma_trimmed_solid("0"@);
            if v == ValueView::Bool(false) {
                lemma_zero_is_off();
            }
        },
        KindView::Int { .. } => {
            let n = v->Int_0;
            lemma_int_text_solid(n);
            crate::text::int_text_reads_back(n);
        },
        KindView::Float { .. } => {
            let d = v->Float_0;
            crate::decimal::a_number_that_was_read_is_in_normal_form(
                trimmed(replaced(raw, ',', '.')),
            );
            lemma_decimal_text_solid(d);
            crate::decimal::a_written_number_reads_back(d);
        },
        _ => {
            crate::text::trimmed_is_stable(raw);
        },
    }
}

proof fn lemma_zero_is_off()
    ensures
        !on_word("0"@),
{
    reveal_strlit("0");
    reveal_strlit("1");
    reveal_strlit("true");
    reveal_strlit("yes");
    reveal_strlit("on");
    let low = "0"@.map_values(|c: char| crate::text::ascii_lower(c));
    assert(low.len() == 1 && low[0] == '0');
    let one = "1"@.map_values(|c: char| crate::text::ascii_lower(c));
    assert(one.len() == 1 && one[0] == '1');
    assert("true"@.map_values(|c: char| crate::text::ascii_lower(c)).len() == 4);
    assert("yes"@.map_values(|c: char| crate::text::ascii_lower(c)).len() == 3);
    assert("on"@.map_values(|c: char| crate::text::ascii_lower(c)).len() == 2);
}

/// What was saved is in force from then on, whatever the environment holds; a
/// blank text hands the setting back to the environment or the default. The
/// other settings stay as they are.
pub proof fn a_saved_setting_is_in_force(
    d: DbView,
    env: Dict<String>,
    key: Seq<char>,
    raw: Seq<char>,
    now: Seq<char>,
    other: Seq<char>,
)
    requires
        d.wf(),
        saved(d, key, raw, now) is Ok,
        other != key,
    ensures
        setting_named(key) matches Some(s) && {
            let e = saved(d, key, raw, now)->Ok_0;
            if !(s.kind is Bool) && is_blank(raw) {
                value_of(e.settings, env, key) == unsaved_value(env, s) && source_of(
                    e.settings,
                    env,
                    key,
                ) != "database"@
            } else {
                coerced(s, raw) == Ok::<ValueView, Seq<char>>(value_of(e.settings, env, key))
                    && source_of(e.settings, env, key) == "database"@
            }
        },
        value_of(saved(d, key, raw, now)->Ok_0.settings, env, other) == value_of(
            d.settings,
            env,
            other,
        ),
{
    let s = setting_named(key)->Some_0;
    if !(s.kind is Bool) && is_blank(raw) {
        crate::laws::a_saved_setting_reads_back(d, key, raw, now, other);
        reveal_strlit("database");
        reveal_strlit("environment");
        reveal_strlit("built-in");
        assert("database"@.len() == 8 && "environment"@.len() == 11);
        assert("built-in"@[0] == 'b' && "database"@[0] == 'd');
    } else {
        a_kept_value_reads_back(s, raw);
        let text = coerced(s, raw)->Ok_0.text();
        crate::laws::a_saved_setting_reads_back(d, key, text, now, other);
    }
}

proof fn lemma_on_is_on()
    ensures
        on_word(trimmed("1"@)),
        off_word(trimmed("0"@)),
{
    reveal_strlit("1");
    reveal_strlit("0");
    lemma_trimmed_solid("1"@);
    lemma_trimmed_solid("0"@);
}

/// Digits are worth their number.
proof fn lemma_digits_count(s: SettingSpecView, n: i64)
    requires
        s.kind matches KindView::Int { min, max } && min <= n <= max,
        s.default.len() > 0,
        crate::text::all_digits(s.default),
        crate::text::digits_value(s.default) == n,
    ensures
        coerced(s, s.default) is Ok,
{
    assert(crate::text::is_digit(s.default[0]) && crate::text::is_digit(s.default.last()));
    lemma_trimmed_solid(s.default);
}

/// A choice without white space around it is worth itself.
proof fn lemma_choice_counts(s: SettingSpecView, i: int)
    requires
        s.kind matches KindView::Choice { choices } && 0 <= i < choices.len() && choices[i]
            == s.default,
        s.default.len() > 0,
        !crate::text::is_white(s.default[0]),
        !crate::text::is_white(s.default.last()),
    ensures
        coerced(s, s.default) is Ok,
{
    lemma_trimmed_solid(s.default);
}

proof fn lemma_default_scale()
    ensures
        default_holds(id_text_scale_setting()),
{
    reveal(default_holds);
    reveal_strlit("0.40");
    reveal_strlit("0.15");
    reveal_strlit("0.9");
    reveal_with_fuel(crate::decimal::without_end_zeros, 2);
    assert(seq!['4', '0'].drop_last() =~= seq!['4']);
    lemma_fraction("0.40"@, seq!['4', '0'], seq!['4']);
    lemma_fraction("0.15"@, seq!['1', '5'], seq!['1', '5']);
    lemma_fraction("0.9"@, seq!['9'], seq!['9']);
    assert(replaced("0.40"@, ',', '.') =~= "0.40"@);
    lemma_trimmed_solid("0.40"@);
    assert(!crate::text::text_lt(seq!['4'], seq!['1', '5']));
    assert(!crate::text::text_lt(seq!['9'], seq!['4']));
}

/// A fraction below one is written as its digits behind the point.
proof fn lemma_fraction(s: Seq<char>, part: Seq<char>, kept: Seq<char>)
    requires
        s =~= seq!['0', '.'] + part,
        crate::text::all_digits(part),
        part.len() > 0,
        part[0] != '0',
        crate::decimal::without_end_zeros(part) == kept,
        kept.len() > 0,
    ensures
        decimal_of(s) == Some(
            (DecimalView::Finite { negative: false, digits: kept, point: 0 }),
        ),
{
    let zero = seq!['0'];
    crate::decimal::lemma_plain(zero, part, true, false);
    assert(zero + seq!['.'] + part =~= s);
    assert((zero + part).skip(1) =~= part);
    reveal_with_fuel(crate::decimal::leading_zeros, 2);
    assert(crate::decimal::leading_zeros(zero + part) == 1);
}

proof fn lemma_coerced_solid(s: SettingSpecView, raw: Seq<char>)
    ensures
        coerced(s, raw) matches Ok(v) ==> trimmed(v.text()) == v.text(),
{
    if let Ok(v) = coerced(s, raw) {
        match s.kind {
            KindView::Bool => {
                reveal_strlit("1");
                reveal_strlit("0");
                lemma_trimmed_solid("1"@);
                lemma_trimmed_solid("0"@);
            },
            KindView::Int { .. } => {
                lemma_int_text_solid(v->Int_0);
            },
            KindView::Float { .. } => {
                crate::decimal::a_number_that_was_read_is_in_normal_form(
                    trimmed(replaced(raw, ',', '.')),
                );
                lemma_decimal_text_solid(v->Float_0);
            },
            _ => {
                crate::text::trimmed_is_stable(raw);
            },
        }
    }
}

/// Whatever is set, its text has no white space around it.
pub proof fn a_setting_is_trimmed(
    settings: Seq<SettingView>,
    env: Dict<String>,
    key: Seq<char>,
)
    ensures
        trimmed(value_of(settings, env, key).text()) == value_of(settings, env, key).text(),
{
    if let Some(s) = setting_named(key) {
        lemma_coerced_solid(s, s.default);
        lemma_coerced_solid(s, env_text(env, s.env));
        if let Some(text) = stored(settings, key) {
            lemma_coerced_solid(s, text);
        }
    }
}

/// Every setting can fall back on its default.
pub proof fn every_default_is_valid(key: Seq<char>)
    ensures
        setting_named(key) matches Some(s) ==> coerced(s, s.default) is Ok,
{
    lemma_named(setting_list(), key);
    if let Some(s) = setting_named(key) {
        let i = choose|i: int| 0 <= i < setting_list().len() && setting_list()[i] == s;
        lemma_default(i);
    }
}

/// Whatever was saved and whatever the environment holds, the value in force is
/// one that the setting takes.
pub proof fn the_value_in_force_is_valid(
    settings: Seq<SettingView>,
    env: Dict<String>,
    key: Seq<char>,
)
    ensures
        setting_named(key) matches Some(s) ==> coerced(s, value_of(settings, env, key).text())
            == Ok::<ValueView, Seq<char>>(value_of(settings, env, key)),
{
    if let Some(s) = setting_named(key) {
        every_default_is_valid(key);
        a_kept_value_reads_back(s, s.default);
        if coerced(s, env_text(env, s.env)) is Ok {
            a_kept_value_reads_back(s, env_text(env, s.env));
        }
        if let Some(text) = stored(settings, key) {
            if coerced(s, text) is Ok {
                a_kept_value_reads_back(s, text);
            }
        }
    }
}

proof fn lemma_named(list: Seq<SettingSpecView>, key: Seq<char>)
    ensures
        first_with_key(list, key) matches Some(s) ==> exists|i: int|
            0 <= i < list.len() && list[i] == s,
    decreases list.len(),
{
    if list.len() > 0 && list[0].key != key {
        lemma_named(list.skip(1), key);
        if let Some(s) = first_with_key(list, key) {
            let i = choose|i: int| 0 <= i < list.skip(1).len() && list.skip(1)[i] == s;
            assert(list[i + 1] == s);
        }
    }
}

/// Whether a setting can fall back on its default.
#[verifier::opaque]
spec fn default_holds(s: SettingSpecView) -> bool {
    coerced(s, s.default) is Ok
}

proof fn lemma_default(i: int)
    requires
        0 <= i < setting_list().len(),
    ensures
        coerced(setting_list()[i], setting_list()[i].default) is Ok,
{
    lemma_default_switches();
    lemma_default_scale();
    lemma_default_numbers();
    lemma_default_choices();
    let s = setting_list();
    assert(s[0] == printer_host_setting());
    assert(s[1] == printer_usb_setting());
    assert(s[2] == tape_mm_setting());
    assert(s[3] == id_text_scale_setting());
    assert(s[4] == chain_labels_setting());
    assert(s[5] == half_cut_setting());
    assert(s[6] == health_limit_pct_setting());
    assert(s[7] == ir_limit_aa_setting());
    assert(s[8] == ir_limit_aaa_setting());
    assert(s[9] == pool_location_setting());
    assert(s[10] == default_ir_mohm_setting());
    assert(s[11] == list_view_setting());
    assert(s[12] == grid_columns_setting());
    assert(s[13] == page_size_setting());
    assert(s[14] == print_on_add_setting());
    assert(s[15] == label_output_setting());
    assert(s[16] == pdf_layout_setting());
    assert(default_holds(s[i]));
    reveal(default_holds);
}

proof fn lemma_default_switches()
    ensures
        default_holds(printer_host_setting()),
        default_holds(printer_usb_setting()),
        default_holds(chain_labels_setting()),
        default_holds(half_cut_setting()),
        default_holds(pool_location_setting()),
        default_holds(print_on_add_setting()),
{
    reveal(default_holds);
    lemma_on_is_on();
}

proof fn lemma_default_numbers()
    ensures
        default_holds(health_limit_pct_setting()),
        default_holds(ir_limit_aa_setting()),
        default_holds(ir_limit_aaa_setting()),
        default_holds(default_ir_mohm_setting()),
        default_holds(grid_columns_setting()),
        default_holds(page_size_setting()),
{
    reveal(default_holds);
    reveal_strlit("80");
    reveal_strlit("100");
    reveal_strlit("200");
    reveal_strlit("35");
    reveal_strlit("3");
    reveal_strlit("25");
    reveal_with_fuel(crate::text::digits_value, 4);
    lemma_digits_count(health_limit_pct_setting(), 80);
    lemma_digits_count(ir_limit_aa_setting(), 100);
    lemma_digits_count(ir_limit_aaa_setting(), 200);
    lemma_digits_count(default_ir_mohm_setting(), 35);
    lemma_digits_count(grid_columns_setting(), 3);
    lemma_digits_count(page_size_setting(), 25);
}

proof fn lemma_default_choices()
    ensures
        default_holds(tape_mm_setting()),
        default_holds(list_view_setting()),
        default_holds(label_output_setting()),
        default_holds(pdf_layout_setting()),
{
    reveal(default_holds);
    reveal_strlit("9");
    reveal_strlit("table");
    reveal_strlit("printer");
    reveal_strlit("pages");
    lemma_choice_counts(tape_mm_setting(), 2);
    lemma_choice_counts(list_view_setting(), 0);
    lemma_choice_counts(label_output_setting(), 0);
    lemma_choice_counts(pdf_layout_setting(), 0);
}

} // verus!
