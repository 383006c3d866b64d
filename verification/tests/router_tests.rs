use battery_log::adding::{after_print, Purpose, Reply};
use battery_log::api;
use battery_log::db::Db;
use battery_log::dict::Dict;
use battery_log::helpers::FieldValue;
use battery_log::list::ListPage;
use battery_log::pages::{
    CommandResult, DetailPage, InstrumentForm, MatchLogPage, MatchPage, MeasureForm, MissingPage,
    Page,
};
use battery_log::router;

const NOW: &str = "2026-01-01T00:00:00+00:00";
const TODAY: &str = "2026-01-01";

fn no_env() -> Dict<String> {
    Dict::new()
}

fn fields(pairs: &[(&str, &str)]) -> Dict<String> {
    let mut d = Dict::new();
    for (k, v) in pairs {
        d.insert(k, v.to_string());
    }
    d
}

fn render(db: &mut Db, path: &str, query: &str) -> CommandResult {
    router::render_page(db, &no_env(), path, query, NOW, TODAY)
}

fn submit(db: &mut Db, path: &str, pairs: &[(&str, &str)]) -> CommandResult {
    match router::submit_form(db, &no_env(), path, &fields(pairs), NOW, TODAY) {
        Reply::Done(r) => r,
        Reply::Print(p) => panic!("expected a result, got labels to print: {p:?}"),
    }
}

fn expect_page(result: CommandResult) -> (Page, String) {
    match result {
        CommandResult::Page { page, error, .. } => (page, error),
        CommandResult::Redirect { path, query } => {
            panic!("expected a page, got a redirect to {path:?}?{query:?}")
        }
    }
}

fn expect_redirect(result: CommandResult) -> (String, Option<String>) {
    match result {
        CommandResult::Redirect { path, query } => (path, query),
        CommandResult::Page { .. } => panic!("expected a redirect, got a page"),
    }
}

fn expect_list(result: CommandResult) -> ListPage {
    match expect_page(result).0 {
        Page::List(p) => p,
        other => panic!("expected the list, got {other:?}"),
    }
}

fn expect_detail(result: CommandResult) -> DetailPage {
    match expect_page(result).0 {
        Page::Detail(p) => p,
        other => panic!("expected a battery, got {other:?}"),
    }
}

fn expect_match(result: CommandResult) -> (MatchPage, String) {
    match expect_page(result) {
        (Page::Match(p), error) => (p, error),
        (other, _) => panic!("expected the matching page, got {other:?}"),
    }
}

fn expect_log(result: CommandResult) -> MatchLogPage {
    match expect_page(result).0 {
        Page::MatchLog(p) => p,
        other => panic!("expected the match log, got {other:?}"),
    }
}

fn scope_texts(p: &ListPage) -> Vec<String> {
    p.scopes.iter().map(|(_, text)| text.clone()).collect()
}

// ── Scope pills only appear once there's something for them to distinguish ──

#[test]
fn scope_pills_hidden_with_nothing_deleted_or_flagged() {
    let mut db = Db::new();
    db.create(1, "AA", Some(2000), "", "", "", NOW).unwrap();

    let page = expect_list(render(&mut db, "/", ""));

    assert!(!scope_texts(&page).contains(&"Deleted".to_string()), "nothing deleted yet, the pill shouldn't render");
    assert!(!scope_texts(&page).contains(&"Active".to_string()), "nothing to distinguish 'active' from 'all' yet");
}

#[test]
fn deleted_pill_appears_once_something_is_deleted() {
    let mut db = Db::new();
    db.create(1, "AA", Some(2000), "", "", "", NOW).unwrap();
    db.create(2, "AA", Some(2000), "", "", "", NOW).unwrap();
    db.soft_delete(1, NOW).unwrap();

    let page = expect_list(render(&mut db, "/", ""));

    assert!(scope_texts(&page).contains(&"Deleted".to_string()), "the Deleted pill should show once something is deleted");
    assert!(scope_texts(&page).contains(&"Active".to_string()), "and the Active pill alongside it");
}

// ── The list's heading tallies batteries instead of counting them ───────

/// 3 active AA, 2 active AAA, and a deleted AAA that mustn't be counted.
fn seed_types(db: &mut Db) {
    for id in 1..=3 {
        db.create(id, "AAA", Some(800), "", "", "", NOW).unwrap();
    }
    for id in 4..=6 {
        db.create(id, "AA", Some(2000), "", "", "", NOW).unwrap();
    }
    db.soft_delete(3, NOW).unwrap();
}

#[test]
fn heading_lists_active_batteries_by_type() {
    let mut db = Db::new();
    seed_types(&mut db);

    let page = expect_list(render(&mut db, "/", ""));

    assert_eq!(page.heading, "3x AA, 2x AAA", "heading should tally active types");
}

#[test]
fn heading_for_a_type_filter_counts_active_flagged_and_deleted() {
    let mut db = Db::new();
    seed_types(&mut db);
    // 50% of nominal is well under the default 80% health limit.
    db.add_measurement(4, "analysed", "2026-01-01", Some(1000), None, None, None, Some(500), None, "", NOW)
        .unwrap();
    db.create(7, "AA", Some(2000), "", "", "", NOW).unwrap();
    db.soft_delete(5, NOW).unwrap();

    let page = expect_list(render(&mut db, "/", "type=AA"));

    assert_eq!(
        page.heading, "3x active, 1x flagged, 1x deleted",
        "heading should summarise the type across every status"
    );
}

#[test]
fn heading_for_a_type_filter_omits_statuses_with_nothing_in_them() {
    let mut db = Db::new();
    seed_types(&mut db);

    let page = expect_list(render(&mut db, "/", "type=AAA"));

    assert_eq!(page.heading, "2x active, 1x deleted", "no flagged AAA, so no flagged part");
}

#[test]
fn deleting_from_a_filtered_list_does_not_panic_and_preserves_the_filter() {
    let mut db = Db::new();
    db.create(1, "AA", Some(2000), "", "", "", NOW).unwrap();
    db.create(2, "AA", Some(2000), "", "", "", NOW).unwrap();

    let result = submit(&mut db, "/b/1/delete", &[("next", "/?show=active&type=AA")]);

    let (path, query) = expect_redirect(result);
    assert_eq!(path, "/");
    let query = query.unwrap_or_default();
    assert!(query.contains("type=AA"), "filter should survive the redirect: {query:?}");
    assert!(query.contains("show=active"), "scope should survive the redirect: {query:?}");
}

// ── Purge: only ever for a deleted battery with no readings ─────────────

#[test]
fn purge_removes_a_deleted_battery_with_no_readings() {
    let mut db = Db::new();
    db.create(1, "AA", None, "", "", "", NOW).unwrap();
    db.create(2, "AA", None, "", "", "", NOW).unwrap(); // keeps 1 from auto-hard-deleting as "highest id"
    db.soft_delete(1, NOW).unwrap();

    let result = submit(&mut db, "/b/1/purge", &[]);

    assert!(matches!(result, CommandResult::Redirect { .. }));
    assert!(db.get(1).unwrap().is_none(), "battery 1 should be gone entirely");
}

#[test]
fn purge_refuses_a_battery_that_has_readings() {
    let mut db = Db::new();
    db.create(1, "AA", Some(2000), "", "", "", NOW).unwrap();
    db.create(2, "AA", Some(2000), "", "", "", NOW).unwrap();
    db.add_measurement(1, "analysed", "2026-01-01", Some(1900), None, None, None, Some(500), None, "", NOW)
        .unwrap();
    db.soft_delete(1, NOW).unwrap();

    let err = db.purge(1);

    assert!(err.is_err(), "a battery with readings must not be purgeable");
    assert!(db.get(1).unwrap().is_some(), "battery 1 should still exist");
}

#[test]
fn purge_refuses_a_battery_that_is_not_deleted() {
    let mut db = Db::new();
    db.create(1, "AA", None, "", "", "", NOW).unwrap();

    let err = db.purge(1);

    assert!(err.is_err(), "an active (non-deleted) battery must not be purgeable");
}

// ── Unsigned validation: negative readings are refused, value preserved ──

#[test]
fn negative_resistance_is_refused_with_the_typed_value_preserved() {
    let mut db = Db::new();
    db.create(1, "AA", Some(2000), "", "", "", NOW).unwrap();
    let instrument_id = db.add_instrument("Tester", 1, NOW).unwrap().id;
    db.add_mode(instrument_id, "IR check", "analysed", "", None, NOW).unwrap();

    let page = expect_detail(submit(
        &mut db,
        "/b/1/measure",
        &[
            ("kind", "analysed"),
            ("measured_at", "2026-01-01"),
            ("instrument_id", &instrument_id.to_string()),
            ("ir_mohm", "-5"),
        ],
    ));

    assert!(page.measure_error.contains("cannot be negative"), "should refuse a negative reading");
    let typed = match &page.measure {
        MeasureForm::Typed(v) => v,
        other => panic!("the typed values should be kept, got {other:?}"),
    };
    assert!(
        typed.iter().any(|(k, v)| k == "ir_mohm" && matches!(v, FieldValue::Number(-5))),
        "the typed value should be preserved, not reset"
    );
}

#[test]
fn positive_readings_are_accepted() {
    let mut db = Db::new();
    db.create(1, "AA", Some(2000), "", "", "", NOW).unwrap();
    let instrument_id = db.add_instrument("Tester", 1, NOW).unwrap().id;
    db.add_mode(instrument_id, "Full analysis", "analysed", "", None, NOW).unwrap();

    let result = submit(
        &mut db,
        "/b/1/measure",
        &[
            ("kind", "analysed"),
            ("measured_at", "2026-01-01"),
            ("instrument_id", &instrument_id.to_string()),
            ("capacity_mah", "1900"),
            ("discharge_ma", "500"),
        ],
    );

    assert!(matches!(result, CommandResult::Redirect { .. }), "a valid reading should redirect, not re-render with an error");
    let measurements = db.measurements(1).unwrap();
    assert_eq!(measurements.len(), 1);
    assert_eq!(measurements[0].capacity_mah, Some(1900));
}

// ── Batch add reading keeps every row's values on a validation error ────

#[test]
fn batch_measure_preserves_row_values_on_validation_error() {
    let mut db = Db::new();
    db.create(1, "AA", Some(2000), "", "", "", NOW).unwrap();
    let instrument_id = db.add_instrument("Charger", 2, NOW).unwrap().id;
    db.add_mode(instrument_id, "Analyse", "analysed", "", None, NOW).unwrap();

    // Capacity with no discharge current is refused by clean_reading().
    let (page, error) = expect_page(submit(
        &mut db,
        "/batch/measure",
        &[
            ("kind", "analysed"),
            ("measured_at", "2026-01-01"),
            ("instrument_id", &instrument_id.to_string()),
            ("battery_id_1", "1"),
            ("capacity_mah_1", "2000"),
            ("notes_1", "keep me"),
        ],
    ));

    assert!(error.contains("discharge current"), "should surface the clean_reading error");
    let page = match page {
        Page::BatchMeasure(p) => p,
        other => panic!("expected the batch form, got {other:?}"),
    };
    assert_eq!(page.slot_rows[0].notes, "keep me", "row values should survive the error instead of resetting");
}

// ── List filters/sort persist to a later, unrelated navigation ──────────

#[test]
fn list_filters_persist_to_a_later_bare_navigation() {
    let mut db = Db::new();
    db.create(1, "AA", Some(2000), "", "", "", NOW).unwrap();
    db.create(2, "AAA", Some(1000), "", "", "", NOW).unwrap();

    // Set filters/sort explicitly, as the Filter button / sort dropdown would.
    render(&mut db, "/", "type=AA&sort=location");

    // A later bare "/" (e.g. clicking the header brand link) carries no query at all.
    let page = expect_list(render(&mut db, "/", ""));

    assert_eq!(page.type_filter, "AA", "type filter should still be AA");
    assert_eq!(page.sort, "location", "sort should still be Location");
}

#[test]
fn an_explicit_empty_type_clears_the_persisted_filter() {
    let mut db = Db::new();
    db.create(1, "AA", Some(2000), "", "", "", NOW).unwrap();

    render(&mut db, "/", "type=AA");
    // Choosing "Any type" submits an explicit empty value, not an absent key —
    // that has to actually clear the persisted filter, not be ignored as "no change".
    let page = expect_list(render(&mut db, "/", "type="));

    assert_eq!(page.type_filter, "", "the AA filter should be cleared, not still persisted");
}

// ── Procedure reorder: swaps order, doesn't reopen an edit form ─────────

#[test]
fn moving_a_procedure_down_swaps_its_order_and_does_not_reopen_edit() {
    let mut db = Db::new();
    let instrument_id = db.add_instrument("Charger", 1, NOW).unwrap().id;
    let first_id = db.add_mode(instrument_id, "Charge", "charged", "", None, NOW).unwrap().id;
    let second_id = db.add_mode(instrument_id, "Analyse", "analysed", "", None, NOW).unwrap().id;

    let result = submit(
        &mut db,
        &format!("/instruments/{instrument_id}/procedures/{first_id}/move"),
        &[("direction", "down")],
    );

    let (path, _query) = expect_redirect(result);
    // Should scroll back to the moved card via a fragment, not reopen its
    // edit form.
    assert_eq!(path, format!("/instruments#procedure-{first_id}"));

    let instruments = db.list_instruments().unwrap();
    let modes = &instruments[0].modes;
    assert_eq!(modes[0].id, second_id, "Analyse should now be first");
    assert_eq!(modes[1].id, first_id, "Charge should now be second");
}

// ── PDF output mode: every print action redirects with save_pdf_ids ─────

#[test]
fn reprinting_one_battery_in_pdf_mode_redirects_with_its_id_instead_of_printing() {
    let mut db = Db::new();
    db.create(1, "AA", Some(2000), "", "", "", NOW).unwrap();
    db.set_setting("label_output", "pdf", NOW).unwrap();

    let (path, query) = expect_redirect(submit(&mut db, "/b/1/print", &[]));

    assert_eq!(path, "/b/1");
    let query = query.unwrap_or_default();
    assert!(query.contains("save_pdf_ids=1"), "should carry the id to save as a PDF: {query:?}");
    assert!(!query.contains("msg="), "should not claim a label was printed");
}

#[test]
fn batch_print_in_pdf_mode_redirects_with_a_csv_of_ids_instead_of_printing() {
    let mut db = Db::new();
    db.create(1, "AA", Some(2000), "", "", "", NOW).unwrap();
    db.create(2, "AA", Some(2000), "", "", "", NOW).unwrap();
    db.set_setting("label_output", "pdf", NOW).unwrap();

    let (path, query) = expect_redirect(submit(&mut db, "/print", &[("spec", "1-2"), ("confirm", "yes")]));

    assert_eq!(path, "/print");
    let query = query.unwrap_or_default();
    assert!(query.contains("save_pdf_ids=1%2C2") || query.contains("save_pdf_ids=1,2"), "should carry both ids: {query:?}");
}

#[test]
fn adding_a_battery_with_print_in_pdf_mode_redirects_with_its_id_instead_of_printing() {
    let mut db = Db::new();
    db.set_setting("label_output", "pdf", NOW).unwrap();

    let (path, query) = expect_redirect(submit(
        &mut db,
        "/add",
        &[("type", "AA"), ("nominal_mah", "2000"), ("count", "1"), ("print_label", "on")],
    ));

    assert!(path.starts_with("/b/"), "should still redirect to the new battery's page: {path:?}");
    let query = query.unwrap_or_default();
    assert!(query.contains("save_pdf_ids="), "should carry the new battery's id to save as a PDF: {query:?}");
}

#[test]
fn adding_a_battery_without_print_in_pdf_mode_does_not_mention_save_pdf_ids() {
    let mut db = Db::new();
    db.set_setting("label_output", "pdf", NOW).unwrap();

    let (_path, query) = expect_redirect(submit(
        &mut db,
        "/add",
        &[("type", "AA"), ("nominal_mah", "2000"), ("count", "1")],
    ));

    let query = query.unwrap_or_default();
    assert!(!query.contains("save_pdf_ids"), "print wasn't requested, so no PDF should be triggered: {query:?}");
}

// ── Battery matching ─────────────────────────────────────────────────────

fn seed_pool_battery(db: &mut Db, id: i64, brand: &str, capacity_mah: i64, ir_mohm: Option<i64>) {
    db.create(id, "AA", Some(2000), brand, "storage", "", NOW).unwrap();
    db.add_measurement(id, "analysed", "2026-01-01", Some(capacity_mah), ir_mohm, None, None, Some(500), None, "", NOW)
        .unwrap();
}

fn match_one_to_torch(db: &mut Db) {
    submit(
        db,
        "/match",
        &[("type", "AA"), ("count", "1"), ("draw", "low"), ("location", "Torch"), ("confirm", "yes")],
    );
}

#[test]
fn match_page_renders_with_no_pool_batteries() {
    let mut db = Db::new();
    let result = render(&mut db, "/match", "");
    match &result {
        CommandResult::Page { title, .. } => assert_eq!(title, "Match batteries"),
        other => panic!("expected a page, got {other:?}"),
    }
    let (page, _) = expect_match(result);
    assert_eq!(page.pool_location, "storage", "should name the default pool location");
}

#[test]
fn match_preview_suggests_the_weakest_cells_for_a_low_draw_request() {
    let mut db = Db::new();
    seed_pool_battery(&mut db, 1, "Eneloop", 1900, Some(80));
    seed_pool_battery(&mut db, 2, "Eneloop", 1200, Some(200));
    seed_pool_battery(&mut db, 3, "Eneloop", 1950, Some(70));

    let (page, _) = expect_match(submit(
        &mut db,
        "/match",
        &[("type", "AA"), ("count", "1"), ("draw", "low"), ("location", "Torch")],
    ));

    let suggestion = page.suggestion.expect("a suggestion");
    let ids: Vec<i64> = suggestion.rows.iter().map(|r| r.id).collect();
    assert_eq!(ids, vec![2], "the weakest cell (002) should be suggested");
    // Nothing should have moved yet — this is only a preview.
    assert_eq!(db.get(2).unwrap().unwrap().location, "storage");
}

#[test]
fn match_confirm_moves_the_suggested_batteries_and_logs_the_match() {
    let mut db = Db::new();
    seed_pool_battery(&mut db, 1, "Eneloop", 1900, Some(80));
    seed_pool_battery(&mut db, 2, "Eneloop", 1850, Some(90));
    seed_pool_battery(&mut db, 3, "Duracell", 1950, Some(70));

    let (path, query) = expect_redirect(submit(
        &mut db,
        "/match",
        &[("type", "AA"), ("count", "2"), ("draw", "low"), ("location", "Torch"), ("confirm", "yes")],
    ));
    assert_eq!(path, "/match");
    assert!(query.unwrap_or_default().contains("msg="));

    // The single-brand (Eneloop) bucket is sufficient, so 1 and 2 (not the
    // Duracell) should have moved.
    assert_eq!(db.get(1).unwrap().unwrap().location, "Torch");
    assert_eq!(db.get(2).unwrap().unwrap().location, "Torch");
    assert_eq!(db.get(3).unwrap().unwrap().location, "storage");

    let matches = db.list_matches().unwrap();
    assert_eq!(matches.len(), 1);
    assert_eq!(matches[0].location, "Torch");
    assert_eq!(matches[0].requested_type, "AA");
    assert_eq!(matches[0].draw, "low");
    assert!(matches[0].returned_at.is_none());
    let mut ids = matches[0].battery_ids.clone();
    ids.sort();
    assert_eq!(ids, vec![1, 2]);
}

#[test]
fn match_confirm_reports_an_error_instead_of_moving_anything_when_the_pool_is_short() {
    let mut db = Db::new();
    seed_pool_battery(&mut db, 1, "Eneloop", 1900, Some(80));

    let (_, error) = expect_match(submit(
        &mut db,
        "/match",
        &[("type", "AA"), ("count", "3"), ("draw", "low"), ("location", "Torch")],
    ));

    assert!(error.contains("Only 1"), "should explain the shortfall: {error}");
    assert_eq!(db.list_matches().unwrap().len(), 0);
}

#[test]
fn a_matched_battery_returning_to_storage_by_any_path_closes_out_its_match() {
    let mut db = Db::new();
    seed_pool_battery(&mut db, 1, "Eneloop", 1900, Some(80));

    match_one_to_torch(&mut db);
    let match_id = db.list_matches().unwrap()[0].id;

    // Moved via the single-battery location form, not a dedicated "return"
    // action — the close-out has to fire from every location-change path.
    submit(&mut db, "/b/1/location", &[("location", "Storage")]);

    let matches = db.list_matches().unwrap();
    assert_eq!(matches[0].id, match_id);
    assert!(matches[0].returned_at.is_some(), "should be closed out once battery 1 is back in the pool");
}

fn match_three_to_torch(db: &mut Db) {
    for id in 1..=3 {
        seed_pool_battery(db, id, "Eneloop", 1900, Some(80));
    }
    submit(
        db,
        "/match",
        &[("type", "AA"), ("count", "3"), ("draw", "low"), ("location", "Torch"), ("confirm", "yes")],
    );
}

#[test]
fn returning_one_battery_of_a_match_returns_the_whole_set() {
    let mut db = Db::new();
    match_three_to_torch(&mut db);

    let (_, query) = expect_redirect(submit(&mut db, "/b/2/location", &[("location", "storage")]));

    let query = query.unwrap_or_default();
    assert!(query.contains("001") && query.contains("003"), "should say which batteries came back too: {query:?}");
    for id in 1..=3 {
        assert_eq!(db.get(id).unwrap().unwrap().location, "storage", "battery {id} should be back in the pool");
        assert_eq!(db.history(id).unwrap()[0].location, "storage", "battery {id} should get its own history entry");
    }
    assert!(db.list_matches().unwrap()[0].returned_at.is_some());
}

#[test]
fn returning_a_whole_set_by_batch_does_not_double_report_it() {
    let mut db = Db::new();
    match_three_to_torch(&mut db);

    let (_, query) =
        expect_redirect(submit(&mut db, "/batch/location", &[("spec", "1-3"), ("location", "storage")]));

    let query = query.unwrap_or_default();
    assert!(!query.contains("Also+returned") && !query.contains("Also%20returned"), "every battery was in the batch: {query:?}");
    for id in 1..=3 {
        assert_eq!(db.get(id).unwrap().unwrap().location, "storage");
        let history = db.history(id).unwrap();
        assert_eq!(history.iter().filter(|h| h.location == "storage").count(), 2, "one original + one return, no duplicate entry");
    }
}

#[test]
fn a_move_that_cannot_be_saved_is_told_apart() {
    let mut db = Db::new();
    for id in 1..=3 {
        db.create(id, "AA", None, "", "", "", NOW).unwrap();
    }
    db.last_history = i64::MAX - 1;

    let (path, query) =
        expect_redirect(submit(&mut db, "/batch/location", &[("spec", "1-4"), ("location", "Drawer")]));

    assert_eq!(path, "/batch/location");
    assert_eq!(
        query.unwrap(),
        "msg=1+battery+moved.+Skipped%3A+4.&error=Battery+2%3A+database+or+disk+is+full%2C+Battery+3%3A+database+or+disk+is+full"
    );
    let places: Vec<String> = (1..=3).map(|id| db.get(id).unwrap().unwrap().location).collect();
    assert_eq!(places, vec!["Drawer", "", ""]);
}

#[test]
fn a_record_that_cannot_be_cleared_is_not_called_cleared() {
    let mut db = Db::new();
    db.create(1, "AA", Some(2000), "B", "Drawer", "n", NOW).unwrap();
    db.last_history = i64::MAX;

    let (path, query) = expect_redirect(submit(&mut db, "/b/1/reset", &[("next", "/b/1")]));

    assert_eq!((path.as_str(), query.unwrap().as_str()), ("/b/1", "error=database+or+disk+is+full"));
    assert_eq!(db.get(1).unwrap().unwrap().brand, "B");
}

#[test]
fn a_battery_already_moved_elsewhere_still_returns_with_its_set() {
    let mut db = Db::new();
    match_three_to_torch(&mut db);
    submit(&mut db, "/b/3/location", &[("location", "Drawer")]);

    submit(&mut db, "/b/1/location", &[("location", "storage")]);

    assert_eq!(db.get(3).unwrap().unwrap().location, "storage");
}

#[test]
fn return_button_moves_the_whole_set_back_and_closes_the_match() {
    let mut db = Db::new();
    match_three_to_torch(&mut db);
    submit(&mut db, "/b/3/location", &[("location", "Drawer")]);
    let match_id = db.list_matches().unwrap()[0].id;

    let (path, query) = expect_redirect(submit(&mut db, &format!("/match/{match_id}/return"), &[]));

    assert_eq!(path, "/match/log");
    assert!(query.unwrap_or_default().contains("001%2C+002%2C+003"), "should list every battery returned");
    for id in 1..=3 {
        assert_eq!(db.get(id).unwrap().unwrap().location, "storage");
    }
    assert!(db.list_matches().unwrap()[0].returned_at.is_some());
}

#[test]
fn match_log_shows_an_in_use_pill_and_return_button_only_for_open_matches() {
    let mut db = Db::new();
    match_three_to_torch(&mut db);

    // The page shows the pill and the button for a match that is not returned.
    let open = expect_log(render(&mut db, "/match/log", ""));
    assert_eq!(open.matches[0].location, "Torch");
    assert!(open.matches[0].returned_at.is_none(), "an open match should offer Return");

    let match_id = db.list_matches().unwrap()[0].id;
    submit(&mut db, &format!("/match/{match_id}/return"), &[]);

    let closed = expect_log(render(&mut db, "/match/log", ""));
    assert!(closed.matches[0].returned_at.is_some(), "a returned match has nothing left to return");
}

#[test]
fn match_log_page_renders_past_matches() {
    let mut db = Db::new();
    seed_pool_battery(&mut db, 1, "Eneloop", 1900, Some(80));
    match_one_to_torch(&mut db);

    let page = expect_log(render(&mut db, "/match/log", ""));
    assert_eq!(page.matches[0].location, "Torch");
    assert_eq!(page.matches[0].battery_ids, vec![1]);
}

#[test]
fn deleting_a_match_leaves_its_batteries_where_they_are() {
    let mut db = Db::new();
    seed_pool_battery(&mut db, 1, "Eneloop", 1900, Some(80));
    match_one_to_torch(&mut db);
    let match_id = db.list_matches().unwrap()[0].id;

    let (path, _) = expect_redirect(submit(&mut db, &format!("/match/{match_id}/delete"), &[]));

    assert_eq!(path, "/match/log");
    assert!(db.list_matches().unwrap().is_empty());
    assert_eq!(db.get(1).unwrap().unwrap().location, "Torch", "no cascade: the battery stays put");
    assert_eq!(db.history(1).unwrap().len(), 2, "no cascade: location history is untouched");
}

#[test]
fn deleting_a_location_entry_keeps_the_current_location_and_any_match() {
    let mut db = Db::new();
    seed_pool_battery(&mut db, 1, "Eneloop", 1900, Some(80));
    match_one_to_torch(&mut db);
    let newest = db.history(1).unwrap()[0].clone();
    assert_eq!(newest.location, "Torch");

    let (path, _) = expect_redirect(submit(&mut db, &format!("/history/{}/delete", newest.id), &[]));

    assert_eq!(path, "/b/1");
    let history = db.history(1).unwrap();
    assert_eq!(history.len(), 1);
    assert_eq!(history[0].location, "storage");
    assert_eq!(db.get(1).unwrap().unwrap().location, "Torch", "current location is not rewound");
    assert_eq!(db.list_matches().unwrap().len(), 1, "no cascade: the match stays in the log");
}

#[test]
fn battery_page_and_match_log_offer_delete_buttons() {
    let mut db = Db::new();
    seed_pool_battery(&mut db, 1, "Eneloop", 1900, Some(80));
    match_one_to_torch(&mut db);

    // Each entry is there with the number that its delete button needs.
    let detail = expect_detail(render(&mut db, "/b/1", ""));
    assert_eq!(detail.history.len(), 2);
    assert!(detail.history.iter().all(|h| h.id > 0));
    let log = expect_log(render(&mut db, "/match/log", ""));
    assert_eq!(log.matches.len(), 1);
    assert!(log.matches[0].id > 0);
}

// ── Releases promise ────────────────────────────────────────────────────

#[test]
fn scanning_one_of_a_set_back_into_storage_returns_the_rest() {
    let mut db = Db::new();
    match_three_to_torch(&mut db);

    let moved = api::set_location_api(&mut db, &no_env(), 2, " STORAGE ", NOW).unwrap();

    assert_eq!(moved.location, "STORAGE");
    assert_eq!(db.get(1).unwrap().unwrap().location, "storage");
    assert_eq!(db.get(3).unwrap().unwrap().location, "storage");
    assert!(db.list_matches().unwrap()[0].returned_at.is_some());
    assert_eq!(api::set_location_api(&mut db, &no_env(), 9, "x", NOW).unwrap_err(), "No such battery.");
}

#[test]
fn a_batch_with_a_fault_in_a_later_row_saves_nothing() {
    let mut db = Db::new();
    for id in 1..=2 {
        db.create(id, "AA", Some(2000), "", "", "", NOW).unwrap();
    }
    let instrument_id = db.add_instrument("Charger", 2, NOW).unwrap().id.to_string();
    let good = [
        ("kind", "analysed"),
        ("measured_at", "2026-01-01"),
        ("instrument_id", instrument_id.as_str()),
        ("battery_id_1", "1"),
        ("ir_mohm_1", "80"),
        ("battery_id_2", "2"),
        ("ir_mohm_2", "-1"),
        ("battery_id_3", "77"),
    ];
    let (_, error) = expect_page(submit(&mut db, "/batch/measure", &good));
    assert_eq!(error, "Battery 2: Resistance cannot be negative.");
    assert!(db.measurements(1).unwrap().is_empty(), "the row above must not be saved either");

    let mut mended = good;
    mended[6] = ("ir_mohm_2", "90");
    let (path, query) = expect_redirect(submit(&mut db, "/batch/measure", &mended));
    assert_eq!(path, "/batch/measure");
    assert_eq!(
        query.unwrap(),
        "msg=2+reading%28s%29+recorded.+Skipped+%28no+such+battery%29%3A+77."
    );
    assert_eq!(db.measurements(1).unwrap().len(), 1);
    assert_eq!(db.measurements(2).unwrap()[0].ir_mohm, Some(90));
}

#[test]
fn a_batch_without_batteries_says_so() {
    let mut db = Db::new();
    let (_, error) = expect_page(submit(&mut db, "/batch/measure", &[("kind", "charged")]));
    assert_eq!(error, "No battery ids were given.");
    let (_, error) =
        expect_page(submit(&mut db, "/batch/measure", &[("kind", "bought"), ("battery_id_10", "5")]));
    assert_eq!(error, "No battery has ever had id(s) 5.");
    // The form for purchases has no eleventh row.
    let (_, error) =
        expect_page(submit(&mut db, "/batch/measure", &[("kind", "bought"), ("battery_id_11", "5")]));
    assert_eq!(error, "No battery ids were given.");
}

#[test]
fn several_batteries_are_added_together_or_not_at_all() {
    let mut db = Db::new();
    db.create(3, "AA", None, "", "", "", NOW).unwrap();

    let (page, error) =
        expect_page(submit(&mut db, "/add", &[("type", "aa"), ("battery_id", "1"), ("count", "4")]));
    assert_eq!(error, "Id(s) already in use: 3.");
    assert_eq!(db.batteries.len(), 1);
    let page = match page {
        Page::Add(p) => p,
        other => panic!("expected the form, got {other:?}"),
    };
    assert_eq!(page.suggested_id, 4);
    assert!(page.add_values.iter().any(|(k, v)| k == "count" && matches!(v, FieldValue::Number(4))));

    let (path, query) = expect_redirect(submit(
        &mut db,
        "/add",
        &[("type", "aa"), ("count", "2"), ("location", "Drawer"), ("next", "//evil.example/")],
    ));
    assert_eq!((path.as_str(), query.as_deref()), ("/", Some("msg=2+batteries+added.")));
    assert_eq!(db.get(4).unwrap().unwrap().location, "Drawer");
    assert_eq!(db.get(5).unwrap().unwrap().cell_type, "AA");

    let (_, error) = expect_page(submit(&mut db, "/add", &[("type", "  ")]));
    assert_eq!(error, "A type is required.");
    let last = i64::MAX.to_string();
    let (_, error) = expect_page(submit(&mut db, "/add", &[("type", "AA"), ("battery_id", &last), ("count", "2")]));
    assert_eq!(error, "database or disk is full");
}

#[test]
fn a_label_that_fails_to_print_is_reported_when_a_battery_is_added() {
    let mut db = Db::new();
    db.set_setting("printer_host", "10.0.0.9", NOW).unwrap();
    let reply = router::submit_form(
        &mut db,
        &no_env(),
        "/add",
        &fields(&[("type", "AA"), ("print_label", "on")]),
        NOW,
        TODAY,
    );
    let request = match reply {
        Reply::Print(p) => p,
        Reply::Done(r) => panic!("the label should be printed first: {r:?}"),
    };
    assert_eq!(request.ids, vec![1]);
    assert!(matches!(&request.purpose, Purpose::Added { next } if next == "/"));
    assert!(db.get(1).unwrap().is_some());

    let (path, query) = expect_redirect(after_print(&request, Ok(())));
    assert_eq!((path.as_str(), query.as_deref()), ("/b/1", Some("msg=Battery+added.")));
    let (_, query) = expect_redirect(after_print(&request, Err("no tape".to_string())));
    assert_eq!(
        query.unwrap(),
        "msg=Battery+added.&error=The+label+could+not+be+printed%3A+no+tape"
    );
}

#[test]
fn printing_asks_before_it_prints() {
    let mut db = Db::new();
    for id in 1..=3 {
        db.create(id, "AA", None, "", "", "", NOW).unwrap();
    }
    db.soft_delete(2, NOW).unwrap();

    let (page, error) = expect_page(submit(&mut db, "/print", &[("spec", "1-4")]));
    assert_eq!(error, "");
    let preview = match page {
        Page::Print(p) => p.preview.expect("a preview"),
        other => panic!("expected the printing page, got {other:?}"),
    };
    assert_eq!(preview.resolved.iter().map(|b| b.id).collect::<Vec<_>>(), vec![1, 3]);
    assert_eq!((preview.missing, preview.deleted), (vec![4], vec![2]));

    let reply = router::submit_form(
        &mut db,
        &no_env(),
        "/print",
        &fields(&[("spec", "1-4"), ("confirm", "yes")]),
        NOW,
        TODAY,
    );
    let request = match reply {
        Reply::Print(p) => p,
        Reply::Done(r) => panic!("expected labels to print: {r:?}"),
    };
    assert_eq!(request.ids, vec![1, 3]);
    let (path, query) = expect_redirect(after_print(&request, Ok(())));
    assert_eq!((path.as_str(), query.unwrap().as_str()), ("/print", "msg=2+label%28s%29+printed."));
    let (_, error) = expect_page(after_print(&request, Err("offline".to_string())));
    assert_eq!(error, "offline");

    let (_, error) = expect_page(submit(&mut db, "/print", &[("spec", "x")]));
    assert_eq!(error, "\"x\" is not a valid id or range.");
}

#[test]
fn one_label_is_printed_again() {
    let mut db = Db::new();
    let reply = router::submit_form(&mut db, &no_env(), "/b/7/print", &fields(&[]), NOW, TODAY);
    let request = match reply {
        Reply::Print(p) => p,
        Reply::Done(r) => panic!("expected a label to print: {r:?}"),
    };
    let (path, query) = expect_redirect(after_print(&request, Ok(())));
    assert_eq!(path, "/b/7");
    assert_eq!(query.unwrap(), "tab=maintenance&msg=Label+sent+to+the+printer.");
    let (_, query) = expect_redirect(after_print(&request, Err("jam".to_string())));
    assert_eq!(query.unwrap(), "tab=maintenance&error=jam");
}

// ── The rest of the forms ───────────────────────────────────────────────

#[test]
fn forms_of_one_battery_do_what_they_say() {
    let mut db = Db::new();
    db.create(1, "AA", None, "", "Drawer", "", NOW).unwrap();
    db.create(2, "AA", None, "", "", "", NOW).unwrap();

    let (path, query) = expect_redirect(submit(
        &mut db,
        "/b/1/edit",
        &[("type", "aaa"), ("nominal_mah", "800"), ("brand", "B"), ("notes", "n")],
    ));
    assert_eq!((path.as_str(), query.unwrap().as_str()), ("/b/1", "tab=maintenance&msg=Details+saved."));
    assert_eq!(db.get(1).unwrap().unwrap().nominal_mah, Some(800));

    submit(&mut db, "/b/1/delete", &[]);
    assert!(db.get(1).unwrap().unwrap().deleted_at.is_some());
    let (_, query) = expect_redirect(submit(&mut db, "/b/1/restore", &[]));
    assert_eq!(query.unwrap(), "msg=Battery+001+restored.");
    assert!(db.get(1).unwrap().unwrap().deleted_at.is_none());
    let (_, query) = expect_redirect(submit(&mut db, "/b/1/reset", &[]));
    assert_eq!(query.unwrap(), "msg=Battery+001+cleared.");

    let (path, query) = expect_redirect(submit(&mut db, "/b/1/purge", &[]));
    assert_eq!(path, "/b/1");
    assert!(query.unwrap().contains("error="));
    let (_, query) = expect_redirect(submit(&mut db, "/b/9/location", &[("location", "x")]));
    assert_eq!(query.unwrap(), "error=Could+not+save+the+location.");
    let (path, query) = expect_redirect(submit(&mut db, "/b/x/location", &[]));
    assert_eq!((path.as_str(), query), ("/", None));
    let (path, query) = expect_redirect(submit(&mut db, "/nonsense", &[]));
    assert_eq!((path.as_str(), query.unwrap().as_str()), ("/", "error=Unknown+action."));
}

#[test]
fn a_reading_can_be_deleted_from_its_page() {
    let mut db = Db::new();
    db.create(1, "AA", None, "", "", "", NOW).unwrap();
    let id = db
        .add_measurement(1, "bought", "2026-01-01", None, None, None, None, None, None, "", NOW)
        .unwrap()
        .unwrap()
        .id;
    let (path, query) = expect_redirect(submit(&mut db, &format!("/measurement/{id}/delete"), &[]));
    assert_eq!((path.as_str(), query.unwrap().as_str()), ("/b/1", "msg=Reading+deleted."));
    let (path, query) = expect_redirect(submit(&mut db, &format!("/measurement/{id}/delete"), &[]));
    assert_eq!((path.as_str(), query), ("/", None));
}

#[test]
fn instruments_and_procedures_are_kept_by_their_forms() {
    let mut db = Db::new();
    let (page, _) = expect_page(submit(&mut db, "/instruments/add", &[("name", " "), ("slots", "4")]));
    match page {
        Page::Instruments(p) => match p.form {
            InstrumentForm::AddInstrument { error, values } => {
                assert!(!error.is_empty());
                assert!(values.iter().any(|(k, v)| k == "slots" && matches!(v, FieldValue::Number(4))));
            }
            other => panic!("the form should stay open, got {other:?}"),
        },
        other => panic!("expected the instruments, got {other:?}"),
    }
    submit(&mut db, "/instruments/add", &[("name", "Charger"), ("slots", "4")]);
    assert_eq!(db.list_instruments().unwrap()[0].slots, 4);

    submit(
        &mut db,
        "/instruments/1/procedures/add",
        &[("name", "Fast"), ("kind", "charged"), ("field_notes_visible", "on"), ("field_charge_ma_required", "on")],
    );
    let page = match expect_page(render(&mut db, "/instruments", "")).0 {
        Page::Instruments(p) => p,
        other => panic!("expected the instruments, got {other:?}"),
    };
    let flags = page.instruments[0].modes[0].fields;
    assert!(flags.notes.visible && !flags.notes.required);
    assert!(!flags.charge_ma.visible && flags.charge_ma.required);
    assert!(!flags.capacity_mah.visible);

    let (page, _) = expect_page(submit(
        &mut db,
        "/instruments/1/procedures/1/edit",
        &[("name", ""), ("kind", "charged")],
    ));
    match page {
        Page::Instruments(p) => assert!(matches!(p.form, InstrumentForm::EditMode { id: 1, instrument_id: 1, .. })),
        other => panic!("expected the instruments, got {other:?}"),
    }
    submit(&mut db, "/instruments/1/procedures/1/edit", &[("name", "Slow"), ("kind", "charged")]);
    assert_eq!(db.mode(1).unwrap().unwrap().name, "Slow");
    submit(&mut db, "/instruments/1/edit", &[("name", "Lader")]);
    assert_eq!(db.instrument(1).unwrap().unwrap().name, "Lader");
    submit(&mut db, "/instruments/1/procedures/1/delete", &[]);
    assert!(db.mode(1).unwrap().is_none());
    let (_, query) = expect_redirect(submit(&mut db, "/instruments/1/delete", &[]));
    assert_eq!(query.unwrap(), "msg=Instrument+deleted.");
    assert!(db.instrument(1).unwrap().is_none());
}

#[test]
fn the_settings_form_saves_until_it_refuses() {
    let mut db = Db::new();
    let (path, query) = expect_redirect(submit(
        &mut db,
        "/settings",
        &[("printer_host", " host "), ("tape_mm", "12"), ("half_cut", "on"), ("page_size", "")],
    ));
    assert_eq!((path.as_str(), query.unwrap().as_str()), ("/settings", "msg=Settings+saved."));
    assert_eq!(db.get_setting("printer_host").unwrap().as_deref(), Some("host"));
    assert_eq!(db.get_setting("half_cut").unwrap().as_deref(), Some("1"));
    assert_eq!(db.get_setting("chain_labels").unwrap().as_deref(), Some("0"));
    assert_eq!(db.get_setting("page_size").unwrap(), None);

    let (_, error) = expect_page(submit(&mut db, "/settings", &[("printer_host", "later"), ("tape_mm", "7")]));
    assert!(error.starts_with("Tape width (mm) must be one of 3.5, 6, 9, 12, 18, 24"), "{error}");
    assert_eq!(db.get_setting("printer_host").unwrap().as_deref(), Some("later"));
    assert_eq!(db.get_setting("tape_mm").unwrap().as_deref(), Some("12"));

    submit(&mut db, "/settings/reset", &[]);
    assert_eq!(db.get_setting("printer_host").unwrap(), None);
    assert_eq!(db.get_setting("tape_mm").unwrap(), None);
}

#[test]
fn the_list_is_shown_as_it_was_chosen() {
    let mut db = Db::new();
    let (path, _) = expect_redirect(submit(&mut db, "/view", &[("view", "grid"), ("next", "/?show=all")]));
    assert_eq!(path, "/");
    assert_eq!(expect_list(render(&mut db, "/", "")).view, "grid");
    submit(&mut db, "/view", &[("view", "sideways")]);
    assert_eq!(expect_list(render(&mut db, "/", "")).view, "grid");
    assert_eq!(expect_list(render(&mut db, "/", "view=table")).view, "table");
}

#[test]
fn the_list_pages_sorts_and_searches() {
    let mut db = Db::new();
    for id in 1..=12 {
        let brand = if id % 2 == 0 { "Even" } else { "Odd" };
        db.create(id, if id <= 3 { "AAA" } else { "AA" }, Some(2000), brand, "", "", NOW).unwrap();
    }
    db.set_setting("page_size", "5", NOW).unwrap();
    db.add_measurement(7, "analysed", "2026-01-01", Some(1000), Some(120), None, None, Some(500), None, "", NOW)
        .unwrap();
    db.add_measurement(9, "analysed", "2026-01-01", Some(1900), Some(60), None, None, Some(500), None, "", NOW)
        .unwrap();

    let page = expect_list(render(&mut db, "/", "page=3"));
    assert_eq!(page.batteries.iter().map(|b| b.id).collect::<Vec<_>>(), vec![11, 12]);
    assert_eq!((page.total, page.pages, page.page, page.first_row, page.last_row), (12, 3, 3, 11, 12));
    assert_eq!(page.page_numbers, vec![1, 2, 3]);
    assert_eq!(page.list_url, "/?show=active&page=3");
    assert!(page.batteries[1].will_hard_delete && !page.batteries[0].will_hard_delete);
    let page = expect_list(render(&mut db, "/", "page=99"));
    assert_eq!(page.page, 3);

    let page = expect_list(render(&mut db, "/", "sort=health"));
    assert_eq!(page.batteries.iter().map(|b| b.id).collect::<Vec<_>>(), vec![7, 9, 1, 2, 3]);
    assert_eq!(page.batteries[0].health_pct, 50);
    assert_eq!(page.batteries[0].health_title, "Health: 50% of nominal \u{b7} \u{26a0} Resistance: 120 m\u{3a9} (over limit)");
    assert_eq!(page.page_query, "show=active&sort=health&");
    let page = expect_list(render(&mut db, "/", "sort=type"));
    assert_eq!(page.batteries[0].id, 4);
    let page = expect_list(render(&mut db, "/", "show=flagged&sort=id"));
    assert_eq!(page.batteries.iter().map(|b| b.id).collect::<Vec<_>>(), vec![7]);
    assert_eq!(page.heading, "1 flagged battery.");
    assert_eq!(scope_texts(&page), vec!["Active", "Flagged", "All"]);
    let page = expect_list(render(&mut db, "/", "show=all&q=even"));
    assert_eq!(page.heading, "6 batteries total.");
    assert_eq!(page.filter_query, "q=even&");
}

#[test]
fn links_lead_where_they_say() {
    let mut db = Db::new();
    db.create(1, "AA", None, "", "Drawer", "", NOW).unwrap();
    for (path, title) in [
        ("/add", "Add battery"),
        ("/scan", "Scan"),
        ("/print", "Print labels"),
        ("/instruments", "Instruments"),
        ("/settings", "Settings"),
        ("/batch/measure", "Batch add reading"),
        ("/batch/location", "Batch change location"),
        ("/match/", "Match batteries"),
        ("/match/log", "Match log"),
        ("/b/1", "Battery 001"),
        ("/b/2", "Battery 2"),
        ("/label/1.png", "Not found"),
        ("/b/x", "Not found"),
    ] {
        match render(&mut db, path, "msg=hello+there&error=%21") {
            CommandResult::Page { title: t, msg, error, .. } => {
                assert_eq!(t, title, "{path}");
                if title != "Not found" && path != "/b/2" {
                    assert_eq!((msg.as_str(), error.as_str()), ("hello there", "!"), "{path}");
                }
            }
            other => panic!("{path} should be a page, got {other:?}"),
        }
    }
    match expect_page(render(&mut db, "/no/where", "")).0 {
        Page::Missing(MissingPage::Path(p)) => assert_eq!(p, "? (\"/no/where\")"),
        other => panic!("expected nothing, got {other:?}"),
    }
    match render(&mut db, "/b/1", "tab=history&dialog=measure") {
        CommandResult::Page { page: Page::Detail(p), open_dialog, .. } => {
            assert_eq!(p.tab, "history");
            assert_eq!(open_dialog.as_deref(), Some("measure"));
            assert!(p.will_hard_delete && !p.can_purge);
        }
        other => panic!("expected the battery, got {other:?}"),
    }
}

#[test]
fn the_matching_form_asks_for_what_is_missing() {
    let mut db = Db::new();
    let (page, error) = expect_match(submit(&mut db, "/match", &[("type", " "), ("count", "2")]));
    assert_eq!(error, "Enter a battery type.");
    assert_eq!(page.request.match_count, "2");
    let (page, error) = expect_match(submit(&mut db, "/match", &[("type", "aa"), ("draw", "high")]));
    assert_eq!(error, "Enter a destination location.");
    assert_eq!((page.request.match_type.as_str(), page.request.match_draw.as_str()), ("AA", "high"));
    let (_, error) =
        expect_match(submit(&mut db, "/match", &[("type", "aa"), ("location", "Torch"), ("count", "many")]));
    assert_eq!(error, "Enter how many batteries you need, as a whole number.");
}

#[test]
fn a_message_in_a_redirect_arrives_on_the_page() {
    let mut db = Db::new();
    db.create(1, "AA", None, "", "", "", NOW).unwrap();
    db.create(2, "AA", None, "", "", "", NOW).unwrap();
    let (path, query) = expect_redirect(submit(&mut db, "/b/1/delete", &[("next", "/?show=all")]));
    match render(&mut db, &path, &query.unwrap()) {
        CommandResult::Page { page: Page::List(p), msg, .. } => {
            assert_eq!(msg, "Battery 001 deleted.");
            assert_eq!(p.show, "all");
        }
        other => panic!("expected the list, got {other:?}"),
    }
}

// ── The scanner ─────────────────────────────────────────────────────────

#[test]
fn a_scanned_code_finds_its_battery() {
    let mut db = Db::new();
    db.create(7, "AA", None, "", "", "", NOW).unwrap();
    db.create(8, "AA", None, "", "", "", NOW).unwrap();
    let (b, deleted) = api::resolve_code(&db, "007").unwrap();
    assert_eq!((b.id, deleted), (7, false));
    db.soft_delete(7, NOW).unwrap();
    assert!(api::resolve_code(&db, "7").unwrap().1);
    assert_eq!(api::resolve_code(&db, "9").unwrap_err(), "No battery has ever had id 9.");
    assert_eq!(api::resolve_code(&db, " ").unwrap_err(), "Nothing was scanned.");
    assert_eq!(api::restore_battery_api(&mut db, 7, NOW).unwrap().deleted_at, None);
    assert_eq!(api::restore_battery_api(&mut db, 9, NOW).unwrap_err(), "No such battery.");
}

fn scanned(kind: &str, ir_mohm: &str, instrument_id: &str) -> api::ScannedReading {
    api::ScannedReading {
        kind: kind.to_string(),
        measured_at: TODAY.to_string(),
        capacity_mah: String::new(),
        ir_mohm: ir_mohm.to_string(),
        instrument_id: instrument_id.to_string(),
        mode_id: String::new(),
        discharge_ma: String::new(),
        charge_ma: String::new(),
        notes: String::new(),
    }
}

#[test]
fn the_scanner_saves_readings() {
    let mut db = Db::new();
    db.create(1, "AA", None, "", "", "", NOW).unwrap();
    db.add_instrument("Tester", 1, NOW).unwrap();
    let m = api::add_measurement_api(&mut db, 1, &scanned("analysed", " 85 ", "1"), NOW).unwrap();
    assert_eq!((m.ir_mohm, m.instrument_id), (Some(85), Some(1)));
    let err = |db: &mut Db, id: i64, s: api::ScannedReading| api::add_measurement_api(db, id, &s, NOW).unwrap_err();
    assert_eq!(err(&mut db, 1, scanned("analysed", "x", "1")), "Resistance must be a whole number.");
    assert_eq!(err(&mut db, 1, scanned("analysed", "85", "")), "Any reading needs the instrument it came from.");
    assert_eq!(err(&mut db, 1, scanned("analysed", "85", "4")), "No instrument has id 4.");
    assert_eq!(err(&mut db, 1, scanned("analysed", "", "1")), "A analysed reading needs at least one value.");
    assert_eq!(err(&mut db, 9, scanned("bought", "", "")), "No such battery.");
    // A second purchase takes the place of the first.
    api::add_measurement_api(&mut db, 1, &scanned("bought", "", ""), NOW).unwrap();
    api::add_measurement_api(&mut db, 1, &scanned("bought", "", ""), NOW).unwrap();
    assert_eq!(db.measurements(1).unwrap().iter().filter(|m| m.kind == "bought").count(), 1);
}
