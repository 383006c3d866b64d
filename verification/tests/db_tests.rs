use battery_log::db::{Db, DbError, DbResult};

const NOW: &str = "2026-01-01T00:00:00+00:00";

#[test]
fn create_and_move_records_history() {
    let mut db = Db::new();
    let battery = db.create(1, "aa", Some(1900), "Test", "Drawer", "", NOW).unwrap();
    assert_eq!(battery.cell_type, "AA");
    assert_eq!(battery.location, "Drawer");
    assert_eq!(db.history(1).unwrap().len(), 1);

    db.set_location(1, "Charger", NOW).unwrap();
    assert_eq!(db.get(1).unwrap().unwrap().location, "Charger");
    assert_eq!(db.history(1).unwrap().len(), 2);
}

#[test]
fn same_location_is_not_recorded_twice() {
    let mut db = Db::new();
    db.create(1, "AA", None, "", "Drawer", "", NOW).unwrap();
    db.set_location(1, "Drawer", NOW).unwrap();
    assert_eq!(db.history(1).unwrap().len(), 1);
}

#[test]
fn foreign_keys_are_enabled() {
    let mut db = Db::new();
    // Deleting an instrument should SET NULL a measurement's instrument_id
    // rather than erroring, which only happens with FKs on and the schema's
    // ON DELETE SET NULL in effect.
    db.create(1, "AA", None, "", "", "", NOW).unwrap();
    let instrument = db.add_instrument("Charger", 1, NOW).unwrap();
    db.add_measurement(1, "bought", "2026-01-01", None, None, Some(instrument.id), None, None, None, "", NOW)
        .unwrap();
    db.delete_instrument(instrument.id).unwrap();
    let measurements = db.measurements(1).unwrap();
    assert_eq!(measurements.len(), 1);
    assert_eq!(measurements[0].instrument_id, None);
}

#[test]
fn deleting_the_last_unused_battery_removes_it_outright() {
    let mut db = Db::new();
    db.create(1, "AA", None, "", "", "", NOW).unwrap();
    let result = db.soft_delete(1, NOW).unwrap().unwrap();
    assert_eq!(result.hard_deleted, Some(true));
    assert!(db.get(1).unwrap().is_none());
    assert_eq!(db.next_id().unwrap(), 1);
}

#[test]
fn deleting_a_battery_with_measurements_only_soft_deletes() {
    let mut db = Db::new();
    db.create(1, "AA", None, "", "", "", NOW).unwrap();
    let instrument = db.add_instrument("SkyRC MC3000", 1, NOW).unwrap();
    db.add_measurement(1, "bought", "2026-01-01", None, None, Some(instrument.id), None, None, None, "", NOW)
        .unwrap();
    let result = db.soft_delete(1, NOW).unwrap().unwrap();
    assert_eq!(result.hard_deleted, Some(false));
    let row = db.get(1).unwrap().unwrap();
    assert!(row.deleted_at.is_some());
    assert_eq!(db.next_id().unwrap(), 2);
}

#[test]
fn deleting_a_battery_that_is_not_the_last_id_only_soft_deletes() {
    let mut db = Db::new();
    db.create(1, "AA", None, "", "", "", NOW).unwrap();
    db.create(2, "AA", None, "", "", "", NOW).unwrap();
    let result = db.soft_delete(1, NOW).unwrap().unwrap();
    assert_eq!(result.hard_deleted, Some(false));
    assert!(db.get(1).unwrap().is_some());
    assert_eq!(db.next_id().unwrap(), 3);
}

#[test]
fn deleting_an_already_deleted_battery_is_a_no_op() {
    let mut db = Db::new();
    db.create(1, "AA", None, "", "", "", NOW).unwrap();
    db.create(2, "AA", None, "", "", "", NOW).unwrap(); // keep id 1 from being the max
    let first = db.soft_delete(1, NOW).unwrap().unwrap();
    assert_eq!(first.hard_deleted, Some(false));
    let second = db.soft_delete(1, NOW).unwrap().unwrap();
    assert_eq!(second.hard_deleted, Some(false));
    assert!(second.deleted_at.is_some());
}

#[test]
fn move_mode_swaps_with_adjacent_sibling_and_survives_a_gap() {
    let mut db = Db::new();
    let instrument = db.add_instrument("C9000", 1, NOW).unwrap();
    let a = db.add_mode(instrument.id, "Refresh", "analysed", "", None, NOW).unwrap();
    let b = db.add_mode(instrument.id, "Analyze", "analysed", "", None, NOW).unwrap();
    let c = db.add_mode(instrument.id, "Break-in", "analysed", "", None, NOW).unwrap();

    // Delete the middle one, leaving a gap in `position`, then move the last
    // one up: it should still land ahead of the first, not error on the gap.
    db.delete_mode(b.id).unwrap();
    assert!(db.move_mode(c.id, "up", NOW).unwrap());
    let modes = db.instrument(instrument.id).unwrap().unwrap().modes;
    let ids: Vec<i64> = modes.iter().map(|m| m.id).collect();
    assert_eq!(ids, vec![c.id, a.id]);

    // Already at the top: no-op, returns false.
    assert!(!db.move_mode(c.id, "up", NOW).unwrap());
}

#[test]
fn adjacent_ids_counts_deleted_batteries_as_neighbors() {
    let mut db = Db::new();
    db.create(1, "AA", None, "", "", "", NOW).unwrap();
    db.create(2, "AA", None, "", "", "", NOW).unwrap();
    db.create(3, "AA", None, "", "", "", NOW).unwrap();
    db.soft_delete(2, NOW).unwrap();
    let (prev, next) = db.adjacent_ids(3).unwrap();
    assert_eq!(prev, Some(2));
    assert_eq!(next, None);
}

#[test]
fn last_reading_defaults_skips_bought_entries() {
    let mut db = Db::new();
    db.create(1, "AA", None, "", "", "", NOW).unwrap();
    let instrument = db.add_instrument("C9000", 1, NOW).unwrap();
    db.add_measurement(1, "analysed", "2026-01-01", Some(1900), None, Some(instrument.id), None, Some(500), None, "", NOW)
        .unwrap();
    db.add_measurement(1, "bought", "2026-02-01", None, None, None, None, None, None, "", NOW).unwrap();
    let (instrument_id, _mode_id, discharge_ma, _charge_ma) = db.last_reading_defaults().unwrap();
    assert_eq!(instrument_id, Some(instrument.id));
    assert_eq!(discharge_ma, Some(500));
}

#[test]
fn atomically_rolls_back_every_write_when_one_step_fails() {
    let mut db = Db::new();
    db.create(1, "AA", None, "", "Drawer", "", NOW).unwrap();

    let result: DbResult<()> = db.atomically(|mut db| {
        let moved = db.set_location(1, "Torch", NOW);
        assert!(moved.is_ok());
        (db, Err(DbError::Invalid("simulated failure".to_string())))
    });

    assert!(result.is_err());
    assert_eq!(db.get(1).unwrap().unwrap().location, "Drawer", "the move should have been undone");
    assert_eq!(db.history(1).unwrap().len(), 1, "and so should its history entry");
}

#[test]
fn atomic_steps_nest_inside_each_other() {
    let mut db = Db::new();
    db.create(1, "AA", None, "", "Drawer", "", NOW).unwrap();
    db.create(2, "AA", None, "", "Drawer", "", NOW).unwrap();

    // set_location is itself atomic; nesting it must not break the outer step.
    let result: DbResult<()> = db.atomically(|mut db| {
        if let Err(e) = db.set_location(1, "Torch", NOW) {
            return (db, Err(e));
        }
        if let Err(e) = db.set_location(2, "Torch", NOW) {
            return (db, Err(e));
        }
        (db, Ok(()))
    });

    assert!(result.is_ok());
    assert_eq!(db.get(2).unwrap().unwrap().location, "Torch");
}

#[test]
fn a_new_bought_entry_replaces_the_old_one_whichever_way_it_is_added() {
    let mut db = Db::new();
    db.create(1, "AA", None, "", "", "", NOW).unwrap();

    db.add_measurement(1, "bought", "2026-01-01", None, None, None, None, None, None, "", NOW).unwrap();
    db.add_measurement(1, "bought", "2026-02-01", None, None, None, None, None, None, "", NOW).unwrap();

    let bought: Vec<_> = db.measurements(1).unwrap().into_iter().filter(|m| m.kind == "bought").collect();
    assert_eq!(bought.len(), 1);
    assert_eq!(bought[0].measured_at, "2026-02-01");
}

#[test]
fn clearing_a_record_drops_its_match_memberships() {
    let mut db = Db::new();
    for id in 1..=2 {
        db.create(id, "AA", Some(2000), "", "storage", "", NOW).unwrap();
    }
    let matched = db.create_match("Torch", "AA", "low", &vec![1, 2], NOW).unwrap();

    db.reset(1, NOW).unwrap();

    assert_eq!(db.match_battery_ids(matched.id).unwrap(), vec![2]);
    // The sticker is on a different cell now: filing that cell in storage
    // must not close the old match or pull battery 2 back.
    let (_, also_returned) = db.set_location_checked(1, "storage", "storage", NOW).unwrap();
    assert!(also_returned.is_empty());
    assert_eq!(db.get(2).unwrap().unwrap().location, "Torch");
    assert!(db.list_matches().unwrap()[0].returned_at.is_none());
}

#[test]
fn what_cannot_be_done_is_refused_and_changes_nothing() {
    let mut db = Db::new();
    db.create(1, "AA", None, "", "", "", NOW).unwrap();
    assert_eq!(db.create(1, "AA", None, "", "", "", NOW).unwrap_err().message(), "UNIQUE constraint failed: batteries.id");
    let err = db.add_measurement(1, "bought", NOW, None, None, Some(9), None, None, None, "", NOW).unwrap_err();
    assert_eq!(err.message(), "FOREIGN KEY constraint failed");
    assert!(db.add_measurement(1, "guessed", NOW, None, None, None, None, None, None, "", NOW).is_err());
    assert!(db.add_measurement(2, "bought", NOW, None, None, None, None, None, None, "", NOW).unwrap().is_none());
    assert!(db.add_instrument("  ", 1, NOW).is_err());
    assert!(db.move_mode(1, "sideways", NOW).is_err());
    assert!(!db.move_mode(1, "up", NOW).unwrap());
    assert!(db.create_match("Torch", "AA", "low", &vec![1, 7], NOW).is_err());
    assert_eq!(db.get(1).unwrap().unwrap().location, "");
    assert!(db.list_matches().unwrap().is_empty());
    assert!(db.return_match(3, "storage", NOW).is_err());
    assert!(db.distinct("id").is_err());
}

#[test]
fn batteries_are_listed_filtered_and_counted() {
    let mut db = Db::new();
    for (id, kind, brand, location) in
        [(1, "AA", "Eneloop", "Drawer"), (2, "AAA", "Ikea", "Drawer"), (3, "AA", "Ikea 100%", "Box")]
    {
        db.create(id, kind, None, brand, location, "", NOW).unwrap();
    }
    let ids = |v: Vec<battery_log::rows::Battery>| v.iter().map(|b| b.id).collect::<Vec<_>>();
    assert_eq!(ids(db.list_batteries("AA", "", "", "all", "id", None, 0).unwrap()), vec![1, 3]);
    assert_eq!(ids(db.list_batteries("", "Drawer", "IKEA", "active", "id", None, 0).unwrap()), vec![2]);
    assert_eq!(ids(db.list_batteries("", "", "", "all", "id", Some(2), 1).unwrap()), vec![2, 3]);
    assert_eq!(ids(db.list_batteries("", "", "", "all", "location", None, 0).unwrap()), vec![3, 1, 2]);
    assert_eq!(db.count_batteries("AA", "", "", "all").unwrap(), 2);
    db.soft_delete(1, NOW).unwrap();
    assert_eq!(db.deleted_count().unwrap(), 1);
    assert_eq!(db.distinct("type").unwrap(), vec!["AA", "AAA"]);
    // One each is left, so the alphabet decides.
    assert_eq!(db.popular("location", 1).unwrap(), vec!["Box"]);
    assert_eq!(db.ids_in_use(&vec![4, 3, 1]).unwrap(), vec![1, 3]);
    assert_eq!(db.summary().unwrap(), vec![("AA".to_string(), 1), ("AAA".to_string(), 1)]);
}

#[test]
fn a_deleted_battery_comes_back_as_it_was() {
    let mut db = Db::new();
    db.create(1, "AA", Some(2000), "B", "Drawer", "n", NOW).unwrap();
    db.create(2, "AA", None, "", "", "", NOW).unwrap();
    db.soft_delete(1, NOW).unwrap();
    db.restore(1, "2026-02-01").unwrap();
    let b = db.get(1).unwrap().unwrap();
    assert_eq!((b.brand.as_str(), b.location.as_str(), b.nominal_mah, b.deleted_at), ("B", "Drawer", Some(2000), None));
}
