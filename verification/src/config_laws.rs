//! What a setting accepts, which of its values is in force, and what that means
//! for printing.

use vstd::prelude::*;
use crate::config::{
    coerced, env_text, fallback_of, in_group, named_sections, row_of, rows_in, saved, setting_named,
    source_of, value_of, KindView, SettingSpecView, ValueView,
};
use crate::db::DbView;
use crate::decimal::{decimal_lt, decimal_of, DecimalView};
use crate::dict::Dict;
use crate::matching_laws::{case_alone_is_ignored, same_but_for_case};
use crate::printer::{sent, status_of, tape_of, tape_tenths, PrintStart};
use crate::labels::Raster;
use crate::printing::sent_job;
use crate::reads::stored;
use crate::rows::SettingView;
use crate::text::{digits_value, parsed_int, replaced, trimmed};

verus! {

// ── What a setting accepts ──────────────────────────────────────────────

/// Whether a text is one of four words, whatever its case and the white space
/// around it.
pub open spec fn says(
    raw: Seq<char>,
    a: Seq<char>,
    b: Seq<char>,
    c: Seq<char>,
    d: Seq<char>,
) -> bool {
    let t = trimmed(raw);
    same_but_for_case(t, a) || same_but_for_case(t, b) || same_but_for_case(t, c)
        || same_but_for_case(t, d)
}

/// A switch is on for "1", "true", "yes" and "on", off for "0", "false", "no"
/// and "off", and takes nothing else.
pub proof fn a_switch_is_on_or_off(s: SettingSpecView, raw: Seq<char>)
    requires
        s.kind is Bool,
    ensures
        match coerced(s, raw) {
            Ok(v) => if says(raw, "1"@, "true"@, "yes"@, "on"@) {
                v == ValueView::Bool(true)
            } else {
                says(raw, "0"@, "false"@, "no"@, "off"@) && v == ValueView::Bool(false)
            },
            Err(_) => !says(raw, "1"@, "true"@, "yes"@, "on"@) && !says(
                raw,
                "0"@,
                "false"@,
                "no"@,
                "off"@,
            ),
        },
{
    let t = trimmed(raw);
    case_alone_is_ignored(t, "1"@);
    case_alone_is_ignored(t, "true"@);
    case_alone_is_ignored(t, "yes"@);
    case_alone_is_ignored(t, "on"@);
    case_alone_is_ignored(t, "0"@);
    case_alone_is_ignored(t, "false"@);
    case_alone_is_ignored(t, "no"@);
    case_alone_is_ignored(t, "off"@);
}

/// A number is taken where it is a whole one within the bounds, both of them
/// allowed, and then it is that number.
pub proof fn a_number_is_within_its_bounds(s: SettingSpecView, raw: Seq<char>, min: i64, max: i64)
    requires
        s.kind == (KindView::Int { min, max }),
    ensures
        coerced(s, raw) is Ok <==> (parsed_int(trimmed(raw)) matches Some(n) && min <= n <= max),
        coerced(s, raw) matches Ok(v) ==> v is Int && parsed_int(trimmed(raw)) == Some(v->Int_0),
{
}

/// A decimal is taken where it is a number, with a point or a comma, that is not
/// below the one bound or above the other, and then it is that number.
pub proof fn a_decimal_is_within_its_bounds(
    s: SettingSpecView,
    raw: Seq<char>,
    min: Seq<char>,
    max: Seq<char>,
    low: DecimalView,
    high: DecimalView,
)
    requires
        s.kind == (KindView::Float { min, max }),
        decimal_of(min) == Some(low),
        decimal_of(max) == Some(high),
    ensures
        coerced(s, raw) is Ok <==> (decimal_of(trimmed(replaced(raw, ',', '.'))) matches Some(d)
            && !decimal_lt(d, low) && !decimal_lt(high, d)),
        coerced(s, raw) matches Ok(v) ==> v is Float && decimal_of(
            trimmed(replaced(raw, ',', '.')),
        ) == Some(v->Float_0),
{
}

/// A choice is taken where it is one of those there are, and a text always; each
/// is kept without the white space around it.
pub proof fn a_choice_is_one_of_those_there_are(s: SettingSpecView, raw: Seq<char>)
    requires
        s.kind is Choice || s.kind is Text,
    ensures
        coerced(s, raw) is Ok <==> s.kind is Text || exists|i: int|
            0 <= i < s.kind->choices.len() && #[trigger] s.kind->choices[i] == trimmed(raw),
        coerced(s, raw) matches Ok(v) ==> v == ValueView::Text(trimmed(raw)),
{
    if s.kind is Choice && s.kind->choices.contains(trimmed(raw)) {
        let i = s.kind->choices.index_of(trimmed(raw));
        assert(s.kind->choices[i] == trimmed(raw));
    }
}

// ── Which value is in force ─────────────────────────────────────────────

/// What was saved goes before what the environment says, that goes before the
/// default, and what the setting does not take counts as not there.
pub proof fn what_was_saved_goes_first(
    settings: Seq<SettingView>,
    env: Dict<String>,
    key: Seq<char>,
    s: SettingSpecView,
)
    requires
        setting_named(key) == Some(s),
    ensures
        ({
            let v = value_of(settings, env, key);
            let kept = stored(settings, key) matches Some(t) && coerced(s, t) is Ok;
            let given = trimmed(env_text(env, s.env)).len() > 0 && coerced(s, env_text(env, s.env))
                is Ok;
            &&& kept ==> coerced(s, stored(settings, key)->0) == Ok::<ValueView, Seq<char>>(v)
            &&& !kept && given ==> coerced(s, env_text(env, s.env)) == Ok::<ValueView, Seq<char>>(v)
            &&& !kept && !given ==> coerced(s, s.default) == Ok::<ValueView, Seq<char>>(v)
        }),
        stored(settings, key) is Some ==> source_of(settings, env, key) == "database"@,
        stored(settings, key) is None && trimmed(env_text(env, s.env)).len() > 0 ==> source_of(
            settings,
            env,
            key,
        ) == "environment"@,
        stored(settings, key) is None && trimmed(env_text(env, s.env)).len() == 0 ==> source_of(
            settings,
            env,
            key,
        ) == "built-in"@,
{
    crate::config::every_default_is_valid(key);
}

/// What a setting does not take is not saved; a blank text is a way to say that
/// nothing is set, but for a switch.
pub proof fn only_what_is_taken_is_saved(d: DbView, key: Seq<char>, raw: Seq<char>, now: Seq<char>)
    ensures
        saved(d, key, raw, now) is Ok <==> (setting_named(key) matches Some(s) && (coerced(s, raw)
            is Ok || (trimmed(raw).len() == 0 && !(s.kind is Bool)))),
        saved(d, key, raw, now) matches Ok(e) ==> e == (DbView { settings: e.settings, ..d }),
{
}

// ── Printing ────────────────────────────────────────────────────────────

/// Whether something can be printed: there is an address, or a USB printer.
pub open spec fn has_printer(settings: Seq<SettingView>, env: Dict<String>) -> bool {
    value_of(settings, env, "printer_host"@).text().len() > 0 || value_of(
        settings,
        env,
        "printer_usb"@,
    ) == ValueView::Bool(true)
}

/// Labels are drawn where there are any and there is a printer: all of them, in
/// the order asked for, for the tape and in the size that are set. Without a
/// printer it is said that there is none.
pub proof fn labels_are_drawn_for_the_printer(
    start: PrintStart,
    ids: Seq<i64>,
    settings: Seq<SettingView>,
    env: Dict<String>,
)
    requires
        start.fits(ids, settings, env),
    ensures
        start is Nothing <==> ids.len() == 0,
        start is Draw <==> ids.len() > 0 && has_printer(settings, env),
        start matches PrintStart::Draw(d) ==> d.ids@ == ids && d.tape_mm_x10 == tape_of(
            settings,
            env,
        ) && (d.scale_num, d.scale_den) == value_of(settings, env, "id_text_scale"@).fraction(),
        status_of(settings, env).0 == has_printer(settings, env),
{
}

/// The width of a tape in tenths of a millimetre is ten times that in
/// millimetres.
pub proof fn a_tape_is_measured_in_tenths(text: Seq<char>, n: i64)
    requires
        text == "6"@ || text == "9"@ || text == "12"@ || text == "18"@ || text == "24"@,
        parsed_int(text) == Some(n),
    ensures
        tape_tenths(text) == 10 * n,
        tape_tenths("3.5"@) == 35,
{
    reveal_strlit("3.5");
    reveal_strlit("6");
    reveal_strlit("9");
    reveal_strlit("12");
    reveal_strlit("18");
    reveal_strlit("24");
    reveal_with_fuel(digits_value, 3);
    assert("3.5"@.len() == 3 && "6"@.len() == 1 && "9"@.len() == 1 && "12"@.len() == 2 && "18"@.len()
        == 2 && "24"@.len() == 2);
    assert("6"@[0] == '6' && "9"@[0] == '9');
    assert("12"@[0] == '1' && "12"@[1] == '2');
    assert("18"@[0] == '1' && "18"@[1] == '8');
    assert("24"@[0] == '2' && "24"@[1] == '4');
    assert(text.drop_last().drop_last().len() == 0 || text.len() < 2);
    if text.len() == 2 {
        assert(text.drop_last().last() == text[0]);
    }
}

/// A job goes to the printer's address, which there has to be, with the labels
/// chained where that is set and there are several, and cut as is set; one label
/// is never chained.
pub proof fn a_job_goes_to_the_address(
    labels: Seq<Raster>,
    tape: i64,
    settings: Seq<SettingView>,
    env: Dict<String>,
)
    ensures
        ({
            let host = value_of(settings, env, "printer_host"@).text();
            let chained = value_of(settings, env, "chain_labels"@) == ValueView::Bool(true);
            let half_cut = value_of(settings, env, "half_cut"@) == ValueView::Bool(true);
            &&& host.len() == 0 ==> sent(labels, tape, settings, env) is Err
            &&& sent(labels, tape, settings, env) matches Ok((to, bytes)) ==> to == host
            &&& host.len() > 0 && labels.len() > 1 ==> (match sent(labels, tape, settings, env) {
                Ok((_, bytes)) => sent_job(labels, tape, chained, half_cut) == Some(bytes),
                Err(_) => sent_job(labels, tape, chained, half_cut) is None,
            })
            &&& host.len() > 0 && labels.len() <= 1 ==> (match sent(labels, tape, settings, env) {
                Ok((_, bytes)) => sent_job(labels, tape, false, half_cut) == Some(bytes),
                Err(_) => sent_job(labels, tape, false, half_cut) is None,
            })
        }),
{
}

// ── The settings page ───────────────────────────────────────────────────

/// A setting stands in the section of its group, with the value that is in force
/// and where that comes from.
pub proof fn a_setting_stands_in_its_section(
    groups: Seq<(Seq<char>, Seq<char>, Seq<char>)>,
    list: Seq<SettingSpecView>,
    settings: Seq<SettingView>,
    env: Dict<String>,
    g: int,
    i: int,
)
    requires
        0 <= g < groups.len(),
        0 <= i < list.len(),
        list[i].group == groups[g].0,
    ensures
        exists|k: int, j: int|
            {
                let section = #[trigger] named_sections(groups, list, settings, env)[k];
                let row = #[trigger] named_sections(groups, list, settings, env)[k].settings[j];
                &&& 0 <= k < named_sections(groups, list, settings, env).len()
                &&& 0 <= j < section.settings.len()
                &&& section.key == groups[g].0
                &&& section.title == groups[g].1
                &&& row.key == list[i].key
                &&& row.label == list[i].label
                &&& row.value == value_of(settings, env, list[i].key)
                &&& row.source == source_of(settings, env, list[i].key)
            },
{
    let f = |s: SettingSpecView| row_of(s, settings, env);
    let j = lemma_in_group(list, groups[g].0, i);
    let rows = rows_in(list, groups[g].0, settings, env);
    assert(rows[j] == row_of(list[i], settings, env));
    let k = lemma_section(groups, list, settings, env, g);
    let all = named_sections(groups, list, settings, env);
    assert(all[k].settings[j] == rows[j]);
}

proof fn lemma_in_group(list: Seq<SettingSpecView>, group: Seq<char>, i: int) -> (j: int)
    requires
        0 <= i < list.len(),
        list[i].group == group,
    ensures
        0 <= j < list.filter(in_group(group)).len(),
        list.filter(in_group(group))[j] == list[i],
    decreases list.len(),
{
    reveal(Seq::filter);
    let d = list.drop_last();
    if i < d.len() {
        assert(d[i] == list[i]);
        lemma_in_group(d, group, i)
    } else {
        assert(list.last() == list[i]);
        d.filter(in_group(group)).len() as int
    }
}

proof fn lemma_section(
    groups: Seq<(Seq<char>, Seq<char>, Seq<char>)>,
    list: Seq<SettingSpecView>,
    settings: Seq<SettingView>,
    env: Dict<String>,
    g: int,
) -> (k: int)
    requires
        0 <= g < groups.len(),
        rows_in(list, groups[g].0, settings, env).len() > 0,
    ensures
        0 <= k < named_sections(groups, list, settings, env).len(),
        named_sections(groups, list, settings, env)[k].key == groups[g].0,
        named_sections(groups, list, settings, env)[k].title == groups[g].1,
        named_sections(groups, list, settings, env)[k].settings == rows_in(
            list,
            groups[g].0,
            settings,
            env,
        ),
    decreases groups.len(),
{
    let d = groups.drop_last();
    if g < d.len() {
        assert(d[g] == groups[g]);
        lemma_section(d, list, settings, env, g)
    } else {
        assert(groups.last() == groups[g]);
        named_sections(d, list, settings, env).len() as int
    }
}

/// A switch stands in its field as "1" or "0", and any other value as its text.
pub proof fn a_value_stands_in_its_field(s: SettingSpecView, settings: Seq<SettingView>, env: Dict<String>)
    ensures
        ({
            let row = row_of(s, settings, env);
            let v = value_of(settings, env, s.key);
            &&& s.kind is Bool && v == ValueView::Bool(true) ==> row.text == "1"@
            &&& s.kind is Bool && v == ValueView::Bool(false) ==> row.text == "0"@
            &&& !(s.kind is Bool) && v is Text ==> row.text == v->Text_0
            &&& !(s.kind is Bool) && v is Int ==> row.text == crate::text::int_text(v->Int_0 as int)
            &&& s.kind is Choice ==> row.choices == s.kind->choices
        }),
{
}

/// Without a saved value a setting goes by the environment where that says
/// something, and else by its default; which of the two is told.
pub proof fn what_a_setting_goes_by_is_told(env: Dict<String>, key: Seq<char>, s: SettingSpecView)
    requires
        setting_named(key) == Some(s),
        s.kind is Text || s.kind is Choice || s.kind is Int,
        s.default.len() > 0,
    ensures
        trimmed(env_text(env, s.env)).len() > 0 ==> fallback_of(env, key) == env_text(env, s.env)
            + ", from the "@ + "environment"@,
        trimmed(env_text(env, s.env)).len() == 0 ==> fallback_of(env, key) == s.default
            + ", from the "@ + "built-in default"@,
{
    if env_text(env, s.env).len() == 0 {
        crate::text_laws::trimming_leaves_the_middle(env_text(env, s.env));
    }
}

} // verus!
