use battery_log::config::{
    clear, coerce, fallback_text, get, overview, save, sections, setting_spec, settings, source,
    Kind, SettingSpec, Value,
};
use battery_log::db::Db;
use battery_log::decimal::read_decimal;
use battery_log::dict::Dict;
use battery_log::labels::head_layout;
use battery_log::printer::{
    finish_print, label_output_is_pdf, printer_status, start_print, tape_mm_x10, PrintStart,
};

const NOW: &str = "2026-01-01T00:00:00+00:00";

fn env(pairs: &[(&str, &str)]) -> Dict<String> {
    let mut d = Dict::new();
    for (k, v) in pairs {
        d.insert(k, v.to_string());
    }
    d
}

#[test]
fn every_default_can_be_read() {
    for s in settings() {
        assert!(coerce(&s, s.default).is_ok(), "{}", s.key);
        assert!(setting_spec(s.key).is_some());
    }
    assert!(setting_spec("nothing").is_none());
}

#[test]
fn a_setting_comes_from_the_first_layer_that_has_it() {
    let mut db = Db::new();
    let none = env(&[]);
    let set = env(&[("PAGE_SIZE", " 40 ")]);
    assert_eq!(get(&db, &none, "page_size").as_i64(), 25);
    assert_eq!(source(&db, &none, "page_size"), "built-in");
    assert_eq!(fallback_text(&none, "page_size"), "25, from the built-in default");
    assert_eq!(get(&db, &set, "page_size").as_i64(), 40);
    assert_eq!(source(&db, &set, "page_size"), "environment");
    assert_eq!(fallback_text(&set, "page_size"), " 40 , from the environment");

    save(&mut db, "page_size", "+60", NOW).unwrap();
    assert_eq!(get(&db, &set, "page_size").as_i64(), 60);
    assert_eq!(source(&db, &set, "page_size"), "database");
    assert_eq!(db.get_setting("page_size").unwrap().as_deref(), Some("60"));

    // A blank text takes it back.
    save(&mut db, "page_size", "  ", NOW).unwrap();
    assert_eq!(get(&db, &set, "page_size").as_i64(), 40);
    // What cannot be read counts as missing.
    db.set_setting("page_size", "many", NOW).unwrap();
    assert_eq!(get(&db, &set, "page_size").as_i64(), 40);
    assert_eq!(get(&db, &env(&[("PAGE_SIZE", "1")]), "page_size").as_i64(), 25);
    clear(&mut db, "page_size").unwrap();
    assert_eq!(source(&db, &none, "page_size"), "built-in");
    assert_eq!(get(&db, &none, "nothing").as_text(), "");
    assert_eq!(source(&db, &none, "nothing"), "built-in");
    assert_eq!(fallback_text(&none, "nothing"), "");
}

#[test]
fn what_is_saved_is_checked() {
    let mut db = Db::new();
    let mut refused = |key: &str, raw: &str| save(&mut db, key, raw, NOW).unwrap_err();
    assert_eq!(refused("page_size", "4"), "Batteries per page must be between 5 and 500, and 4 is outside that.");
    assert_eq!(refused("page_size", "x"), "Batteries per page must be a whole number, and \"x\" is not.");
    assert_eq!(refused("id_text_scale", "1.5"), "Printed id size must be between 0.15 and 0.9, and 1.5 is outside that.");
    assert_eq!(refused("id_text_scale", "big"), "Printed id size must be a number, and \"big\" is not.");
    assert_eq!(
        refused("label_output", "fax"),
        "Label output must be one of printer, pdf, and \"fax\" is not."
    );
    assert_eq!(refused("half_cut", "maybe"), "Half cut between chained labels must be on or off, and \"maybe\" is neither.");
    assert_eq!(refused("half_cut", ""), "Half cut between chained labels must be on or off, and \"\" is neither.");
    assert_eq!(refused("nothing", "1"), "\"nothing\" is not a setting.");
    assert!(db.settings.is_empty());
}

#[test]
fn switches_and_fractions_are_read_as_people_write_them() {
    let mut db = Db::new();
    let none = env(&[]);
    for (word, on) in [("YES", true), (" on ", true), ("1", true), ("Off", false), ("no", false), ("false", false)] {
        save(&mut db, "half_cut", word, NOW).unwrap();
        assert_eq!(get(&db, &none, "half_cut").as_bool(), on, "{word}");
    }
    save(&mut db, "id_text_scale", " 0,50 ", NOW).unwrap();
    assert_eq!(db.get_setting("id_text_scale").unwrap().as_deref(), Some("0.5"));
    let (num, den) = get(&db, &none, "id_text_scale").as_share();
    assert_eq!(num * 2, den);
    assert_eq!(Value::Int(7).as_share(), (7, 1));
    assert_eq!(Value::Bool(true).as_text(), "1");
    assert_eq!(Value::Text("x".to_string()).as_i64(), 0);
}

#[test]
fn decimals_keep_every_digit() {
    let text = |s: &str| read_decimal(s).map(|d| d.to_text());
    assert_eq!(text("0.40").as_deref(), Some("0.4"));
    assert_eq!(text("-12.50e1").as_deref(), Some("-125"));
    assert_eq!(text("1e-3").as_deref(), Some("0.001"));
    assert_eq!(text(".5").as_deref(), Some("0.5"));
    assert_eq!(text("5.").as_deref(), Some("5"));
    assert_eq!(text("-0").as_deref(), Some("-0"));
    assert_eq!(text("INF").as_deref(), Some("inf"));
    assert_eq!(text("nan").as_deref(), Some("NaN"));
    assert_eq!(text(""), None);
    assert_eq!(text("."), None);
    assert_eq!(text("1e"), None);
    assert_eq!(text("0.1.2"), None);
    let less = |a: &str, b: &str| read_decimal(a).unwrap().is_less(&read_decimal(b).unwrap());
    assert!(less("0.15", "0.4") && !less("0.4", "0.15") && less("-2", "-1") && less("9", "10"));
    assert!(!less("nan", "1") && !less("1", "nan") && less("1", "inf"));
    let share = |s: &str| read_decimal(s).unwrap().share();
    assert_eq!(share("0.40"), (4, 10));
    assert_eq!(share("-1.5"), (-15, 10));
    assert_eq!(share("1200"), (1200, 1));
    assert_eq!(share("0.0012"), (12, 10000));
    assert_eq!((share("1e-30"), share("1e30"), share("nan")), ((0, 1), (i64::MAX, 1), (0, 1)));
}

#[test]
fn the_settings_page_has_every_setting_once() {
    let mut db = Db::new();
    save(&mut db, "half_cut", "off", NOW).unwrap();
    let page = overview(&db, &env(&[("TAPE_MM", "12")]));
    let keys: Vec<&str> = page.iter().map(|s| s.key.as_str()).collect();
    assert_eq!(keys, vec!["printer", "labels", "condition", "matching", "list"]);
    let rows: usize = page.iter().map(|s| s.settings.len()).sum();
    assert_eq!(rows, settings().len());
    let labels = &page[1].settings;
    assert_eq!(labels[0].key, "tape_mm");
    assert_eq!((labels[0].text.as_str(), labels[0].source.as_str(), labels[0].kind.as_str()), ("12", "environment", "choice"));
    assert_eq!(labels[0].choices, vec!["3.5", "6", "9", "12", "18", "24"]);
    let half = labels.iter().find(|r| r.key == "half_cut").unwrap();
    assert_eq!((half.text.as_str(), half.fallback.as_str()), ("0", "on, from the built-in default"));
}

fn stray(key: &'static str, group: &'static str) -> SettingSpec {
    SettingSpec { key, env: "X", default: "", kind: Kind::Text, group, label: "L", help: "" }
}

#[test]
fn settings_without_a_section_are_shown_all_the_same() {
    let db = Db::new();
    let list = vec![stray("a", "odd_ones"), stray("b", "known"), stray("c", ""), stray("d", "odd_ones")];
    let groups = vec![("known", "Known", "blurb"), ("empty", "Empty", "")];
    let page = sections(&groups, &list, &db, &env(&[]));
    let shown: Vec<(&str, usize)> = page.iter().map(|s| (s.title.as_str(), s.settings.len())).collect();
    assert_eq!(shown, vec![("Known", 1), ("Odd ones", 2), ("Ungrouped", 1)]);
}

// ── The printer ─────────────────────────────────────────────────────────

#[test]
fn a_printer_is_found_in_the_settings() {
    let mut db = Db::new();
    let none = env(&[]);
    assert!(!printer_status(&db, &none).available);
    assert!(matches!(start_print(&db, &none, &vec![]), PrintStart::Nothing));
    match start_print(&db, &none, &vec![1]) {
        PrintStart::Refused(why) => assert!(why.starts_with("No printer configured.")),
        other => panic!("expected a refusal, got {other:?}"),
    }
    save(&mut db, "printer_usb", "1", NOW).unwrap();
    assert_eq!(printer_status(&db, &none).description, "USB printer");
    assert_eq!(
        finish_print(&db, &none, &vec![], 90).unwrap_err(),
        "USB printing is not implemented yet; configure a network printer."
    );
    save(&mut db, "printer_host", "10.0.0.9", NOW).unwrap();
    assert_eq!(printer_status(&db, &none).description, "network printer at 10.0.0.9:9100");
    match start_print(&db, &none, &vec![4, 5]) {
        PrintStart::Draw(d) => {
            assert_eq!((d.ids, d.tape_mm_x10), (vec![4, 5], 90));
            assert_eq!(d.scale_num * 10, d.scale_den * 4);
        }
        other => panic!("expected labels to draw, got {other:?}"),
    }
    let job = finish_print(&db, &none, &vec![], 90).unwrap();
    assert_eq!((job.host.as_str(), job.port, job.bytes.len()), ("10.0.0.9", 9100, 202));
}

#[test]
fn every_tape_can_be_printed_on() {
    let mut db = Db::new();
    let none = env(&[]);
    for (tape, tenths) in [("3.5", 35), ("6", 60), ("9", 90), ("12", 120), ("18", 180), ("24", 240)] {
        save(&mut db, "tape_mm", tape, NOW).unwrap();
        assert_eq!(tape_mm_x10(&db, &none), tenths);
        assert!(head_layout(tenths).is_some());
    }
    assert!(!label_output_is_pdf(&db, &none));
    save(&mut db, "label_output", "pdf", NOW).unwrap();
    assert!(label_output_is_pdf(&db, &none));
}
