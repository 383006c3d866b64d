use battery_log::api::set_location_api;
use battery_log::batch::{submit_batch_location, submit_settings_reset};
use battery_log::config::{get, save, settings};
use battery_log::db::Db;
use battery_log::dict::Dict;
use battery_log::order::{sort, Alphabetical, Ascending};
use battery_log::pages::CommandResult;
use battery_log::router::{render_page, submit_form};
use battery_log::text::{int_string, pad3, parse_i64, split, join, trim};

const NOW: &str = "2026-01-01T00:00:00+00:00";
const LATER: &str = "2026-02-01T00:00:00+00:00";

fn no_env() -> Dict<String> {
    Dict::new()
}

fn fields(pairs: &[(&str, &str)]) -> Dict<String> {
    let mut d = Dict::new();
    for (k, v) in pairs {
        d.insert(k, v.to_string());
    }
    d
}

/// Three cells that were handed out together, and one that was not.
fn set_in_use() -> Db {
    let mut db = Db::new();
    for id in 1..=4 {
        db.create(id, "AA", Some(2000), "B", "storage", "n", NOW).unwrap();
    }
    db.create_match("Torch", "AA", "low", &vec![1, 2, 3], NOW).unwrap();
    db
}

#[test]
fn handing_out_moves_exactly_the_set() {
    let db = set_in_use();
    let places: Vec<&str> = db.batteries.iter().map(|b| b.location.as_str()).collect();
    assert_eq!(places, vec!["Torch", "Torch", "Torch", "storage"]);
    assert_eq!(db.match_battery_ids(1).unwrap(), vec![1, 2, 3]);
    assert_eq!(db.matches[0].returned_at, None);
}

#[test]
fn a_scanned_cell_brings_its_set_back() {
    let mut db = set_in_use();
    set_location_api(&mut db, &no_env(), 2, " Storage", LATER).unwrap();
    assert_eq!(db.batteries[1].location, "Storage");
    assert!(db.batteries.iter().all(|b| b.location.eq_ignore_ascii_case("storage")));
    assert_eq!(db.matches[0].returned_at.as_deref(), Some(LATER));
}

#[test]
fn a_batch_of_cells_brings_their_sets_back() {
    let mut db = set_in_use();
    let typed = fields(&[("spec", "3-4"), ("location", "storage")]);
    let result = submit_batch_location(&mut db, &no_env(), &typed, LATER);
    assert!(matches!(result, CommandResult::Redirect { .. }));
    assert!(db.batteries.iter().all(|b| b.location == "storage"));
    assert_eq!(db.matches[0].returned_at.as_deref(), Some(LATER));
}

#[test]
fn a_move_elsewhere_leaves_the_set_alone() {
    let mut db = set_in_use();
    let (moved, also) = db.set_location_checked(1, "Remote", "storage", LATER).unwrap();
    let b = moved.unwrap();
    assert_eq!((b.location.as_str(), b.brand.as_str(), b.notes.as_str()), ("Remote", "B", "n"));
    assert!(also.is_empty());
    assert_eq!(db.matches[0].returned_at, None);
    assert_eq!(db.batteries[1].location, "Torch");
}

#[test]
fn a_deleted_instrument_leaves_its_readings() {
    let mut db = Db::new();
    db.create(1, "AA", None, "", "", "", NOW).unwrap();
    let i = db.add_instrument("Charger", 4, NOW).unwrap();
    let m = db.add_mode(i.id, "Analyse", "analysed", "", None, NOW).unwrap();
    let made = db
        .add_measurement(1, "analysed", NOW, Some(900), None, Some(i.id), Some(m.id), None, None, "", NOW)
        .unwrap()
        .unwrap();
    assert!(db.delete_instrument(i.id).unwrap());
    let left = db.measurement(made.id).unwrap().unwrap();
    assert_eq!((left.instrument_id, left.mode_id, left.capacity_mah), (None, None, Some(900)));
    assert!(db.mode(m.id).unwrap().is_none());
    // Numbers are not given out twice.
    assert_eq!(db.add_instrument("Charger", 4, NOW).unwrap().id, i.id + 1);
}

#[test]
fn only_a_deleted_unmeasured_battery_is_purged() {
    let mut db = Db::new();
    db.create(1, "AA", None, "", "Drawer", "", NOW).unwrap();
    db.create(2, "AA", None, "", "", "", NOW).unwrap();
    assert!(db.purge(1).is_err());
    db.soft_delete(1, NOW).unwrap();
    db.purge(1).unwrap();
    assert!(db.get(1).unwrap().is_none() && db.history(1).unwrap().is_empty());
    assert_eq!(db.next_id().unwrap(), 3);
}

#[test]
fn a_reset_leaves_no_override() {
    let mut db = Db::new();
    for s in settings() {
        save(&mut db, s.key, s.default, NOW).unwrap();
    }
    db.set_setting("list_filters", "{}", NOW).unwrap();
    submit_settings_reset(&mut db);
    assert!(settings().iter().all(|s| db.get_setting(s.key).unwrap().is_none()));
    assert_eq!(db.settings.len(), 1);
    assert_eq!(get(&db, &no_env(), "pool_location").as_text(), "storage");
}

#[test]
fn a_page_after_page_walk_shows_every_battery_once() {
    let mut db = Db::new();
    for id in 1..=12 {
        db.create(id, "AA", None, "", "", "", NOW).unwrap();
    }
    save(&mut db, "page_size", "5", NOW).unwrap();
    let mut seen = Vec::new();
    for page in 1..=3 {
        let query = format!("page={page}");
        match render_page(&mut db, &no_env(), "/", &query, NOW, "2026-01-01") {
            CommandResult::Page { page: battery_log::pages::Page::List(p), .. } => {
                assert_eq!(p.pages, 3);
                seen.extend(p.batteries.iter().map(|b| b.id));
            }
            other => panic!("expected the list, got {other:?}"),
        }
    }
    assert_eq!(seen, (1..=12).collect::<Vec<i64>>());
}

#[test]
fn a_form_that_comes_back_changes_nothing() {
    let mut db = set_in_use();
    let before = format!("{db:?}");
    let typed = fields(&[("kind", "analysed"), ("battery_id_1", "1"), ("battery_id_2", "2"), ("ir_mohm_2", "-3")]);
    submit_form(&mut db, &no_env(), "/batch/measure", &typed, NOW, "2026-01-01");
    assert_eq!(format!("{db:?}"), before);
}

#[test]
fn sorting_keeps_what_is_equal_in_order() {
    assert_eq!(sort(&Ascending, vec![3, 1, 2, 1]), vec![1, 1, 2, 3]);
    let words: Vec<String> = ["b", "", "B", "ab"].iter().map(|s| s.to_string()).collect();
    assert_eq!(sort(&Alphabetical, words), vec!["", "B", "ab", "b"]);
}

#[test]
fn texts_read_back() {
    for n in [0, 7, -5, i64::MAX, i64::MIN] {
        assert_eq!(parse_i64(&int_string(n)), Some(n));
        assert_eq!(pad3(n), format!("{n:03}"));
    }
    assert_eq!(parse_i64("9223372036854775808"), None);
    assert_eq!(parse_i64("+"), None);
    let once = trim("\u{a0} a b\t\n");
    assert_eq!((once, trim(once)), ("a b", "a b"));
    assert_eq!(join(&split("a,,b,", ','), ","), "a,,b,");
}
