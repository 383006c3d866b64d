//! Whether there is a printer, and what is sent to it.

use vstd::prelude::*;
use vstd::string::*;
use crate::config::{get, value_of};
use crate::db::Db;
use crate::dict::Dict;
use crate::labels::{pins, Raster};
use crate::printing::{job_bytes, sent_job};
use crate::rows::{clone_ids, SettingView};
use crate::text::same;

verus! {

/// The port on which a printer listens.
pub const PRINTER_PORT: u16 = 9100;

pub const NO_PRINTER: &'static str =
    "No printer configured. Set the printer address on the Settings page. Until then you can download each label as a PNG and print it from P-touch Editor.";

pub const NO_USB: &'static str =
    "USB printing is not implemented yet; configure a network printer.";

#[derive(Debug)]
pub struct PrinterStatus {
    pub available: bool,
    pub description: String,
}

/// The address of the printer; empty where there is none.
pub open spec fn host_of(settings: Seq<SettingView>, env: Dict<String>) -> Seq<char> {
    value_of(settings, env, "printer_host"@).text()
}

/// Whether there is a printer, and which.
pub open spec fn status_of(settings: Seq<SettingView>, env: Dict<String>) -> (bool, Seq<char>) {
    let host = host_of(settings, env);
    if host.len() > 0 {
        (true, "network printer at "@ + host + ":9100"@)
    } else if value_of(settings, env, "printer_usb"@).is_on() {
        (true, "USB printer"@)
    } else {
        (false, NO_PRINTER@)
    }
}

pub fn printer_status(db: &Db, env: &Dict<String>) -> (r: PrinterStatus)
    ensures
        (r.available, r.description@) == status_of(db@.settings, *env),
{
    let host = get(db, env, "printer_host").as_text();
    if !host.as_str().is_empty() {
        let mut m = "network printer at ".to_string();
        m.append(host.as_str());
        m.append(":9100");
        return PrinterStatus { available: true, description: m };
    }
    if get(db, env, "printer_usb").as_bool() {
        return PrinterStatus { available: true, description: "USB printer".to_string() };
    }
    PrinterStatus { available: false, description: NO_PRINTER.to_string() }
}

/// The width of a tape in tenths of a millimetre, by the name of its width.
pub open spec fn tape_tenths(text: Seq<char>) -> i64 {
    if text == "3.5"@ {
        35
    } else if text == "6"@ {
        60
    } else if text == "12"@ {
        120
    } else if text == "18"@ {
        180
    } else if text == "24"@ {
        240
    } else {
        90
    }
}

/// The width of the tape that is set.
pub open spec fn tape_of(settings: Seq<SettingView>, env: Dict<String>) -> i64 {
    tape_tenths(value_of(settings, env, "tape_mm"@).text())
}

pub fn tape_mm_x10(db: &Db, env: &Dict<String>) -> (r: i64)
    ensures
        r == tape_of(db@.settings, *env),
{
    let text = get(db, env, "tape_mm").as_text();
    let t = text.as_str();
    if same(t, "3.5") {
        35
    } else if same(t, "6") {
        60
    } else if same(t, "12") {
        120
    } else if same(t, "18") {
        180
    } else if same(t, "24") {
        240
    } else {
        90
    }
}

/// Every tape that can be set is one the printer knows.
pub proof fn the_tape_that_is_set_can_be_printed(settings: Seq<SettingView>, env: Dict<String>)
    ensures
        pins(tape_of(settings, env) as int) is Some,
{
}

/// Whether labels are saved as a file instead of being printed.
pub open spec fn saves_pdf(settings: Seq<SettingView>, env: Dict<String>) -> bool {
    value_of(settings, env, "label_output"@).text() == "pdf"@
}

pub fn label_output_is_pdf(db: &Db, env: &Dict<String>) -> (r: bool)
    ensures
        r == saves_pdf(db@.settings, *env),
{
    same(get(db, env, "label_output").as_text().as_str(), "pdf")
}

// ── Printing ────────────────────────────────────────────────────────────

/// The labels to draw before anything is printed.
#[derive(Debug)]
pub struct Drawing {
    pub ids: Vec<i64>,
    pub tape_mm_x10: i64,
    /// The size of the number beside the code, as a fraction of the tape.
    pub scale_num: i64,
    pub scale_den: i64,
}

/// How a request to print begins.
#[derive(Debug)]
pub enum PrintStart {
    Nothing,
    Refused(String),
    Draw(Drawing),
}

impl PrintStart {
    /// Nothing is drawn where there is nothing to print, or no printer.
    pub open spec fn fits(&self, ids: Seq<i64>, settings: Seq<SettingView>, env: Dict<String>) -> bool {
        if ids.len() == 0 {
            *self is Nothing
        } else if !status_of(settings, env).0 {
            *self matches PrintStart::Refused(why) && why@ == status_of(settings, env).1
        } else {
            *self matches PrintStart::Draw(d) && d.ids@ == ids && d.tape_mm_x10 == tape_of(
                settings,
                env,
            ) && (d.scale_num, d.scale_den) == value_of(settings, env, "id_text_scale"@).fraction()
        }
    }
}

/// The first step of printing labels. All of them are drawn before any tape is
/// spooled, so that a bad one costs nothing.
pub fn start_print(db: &Db, env: &Dict<String>, ids: &Vec<i64>) -> (r: PrintStart)
    ensures
        r.fits(ids@, db@.settings, *env),
{
    if ids.len() == 0 {
        return PrintStart::Nothing;
    }
    let status = printer_status(db, env);
    if !status.available {
        return PrintStart::Refused(status.description);
    }
    let (scale_num, scale_den) = get(db, env, "id_text_scale").as_share();
    PrintStart::Draw(
        Drawing { ids: clone_ids(ids), tape_mm_x10: tape_mm_x10(db, env), scale_num, scale_den },
    )
}

/// What goes to which printer.
#[derive(Debug)]
pub struct PrintJob {
    pub host: String,
    pub port: u16,
    pub bytes: Vec<u8>,
}

/// What printing some labels sends, or why it cannot.
pub open spec fn sent(
    labels: Seq<Raster>,
    tape_mm_x10: i64,
    settings: Seq<SettingView>,
    env: Dict<String>,
) -> Result<(Seq<char>, Seq<u8>), Seq<char>> {
    let chain = labels.len() > 1 && value_of(settings, env, "chain_labels"@).is_on();
    let half_cut = value_of(settings, env, "half_cut"@).is_on();
    if host_of(settings, env).len() == 0 {
        Err(NO_USB@)
    } else {
        match sent_job(labels, tape_mm_x10, chain, half_cut) {
            Some(bytes) => Ok((host_of(settings, env), bytes)),
            None => Err("unsupported tape width"@),
        }
    }
}

/// The last step of printing labels, once they are drawn.
pub fn finish_print(db: &Db, env: &Dict<String>, labels: &Vec<Raster>, tape_mm_x10: i64) -> (r: Result<
    PrintJob,
    String,
>)
    requires
        pins(tape_mm_x10 as int) matches Some((_, area)) ==> forall|i: int|
            0 <= i < labels@.len() ==> (#[trigger] labels@[i]).wf() && labels@[i].height == area,
    ensures
        match r {
            Ok(job) => job.port == PRINTER_PORT && sent(labels@, tape_mm_x10, db@.settings, *env)
                == Ok::<(Seq<char>, Seq<u8>), Seq<char>>((job.host@, job.bytes@)),
            Err(e) => sent(labels@, tape_mm_x10, db@.settings, *env) == Err::<
                (Seq<char>, Seq<u8>),
                Seq<char>,
            >(e@),
        },
{
    let host = get(db, env, "printer_host").as_text();
    if host.as_str().is_empty() {
        return Err(NO_USB.to_string());
    }
    let chain = labels.len() > 1 && get(db, env, "chain_labels").as_bool();
    let half_cut = get(db, env, "half_cut").as_bool();
    match job_bytes(labels, tape_mm_x10, chain, half_cut) {
        Ok(bytes) => Ok(PrintJob { host, port: PRINTER_PORT, bytes }),
        Err(e) => Err(e),
    }
}

} // verus!
