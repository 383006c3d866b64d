use std::collections::HashMap;

use battery_log::dict::Dict;
use battery_log::rows::{Battery, Measurement};
use battery_log::chart::place_across;
use battery_log::health::{self, health_color, limit_for, limit_of_written};

fn measurement(
    id: i64,
    kind: &str,
    measured_at: &str,
    capacity_mah: Option<i64>,
    ir_mohm: Option<i64>,
    instrument_id: Option<i64>,
    discharge_ma: Option<i64>,
) -> Measurement {
    Measurement {
        id,
        battery_id: 1,
        kind: kind.to_string(),
        measured_at: measured_at.to_string(),
        capacity_mah,
        ir_mohm,
        instrument_id,
        mode_id: None,
        discharge_ma,
        charge_ma: None,
        notes: String::new(),
        created_at: format!("{measured_at}T00:00:00+00:00"),
    }
}

fn battery() -> Battery {
    Battery {
        id: 1,
        cell_type: "AA".to_string(),
        nominal_mah: Some(2000),
        brand: "Eneloop".to_string(),
        location: "Drawer".to_string(),
        notes: String::new(),
        created_at: String::new(),
        updated_at: String::new(),
        deleted_at: None,
        hard_deleted: None,
    }
}

fn fixture_measurements() -> Vec<Measurement> {
    vec![
        measurement(1, "bought", "2026-01-01", None, None, None, None),
        measurement(2, "analysed", "2026-02-01", Some(1950), Some(90), Some(10), Some(500)),
        measurement(3, "analysed", "2026-03-01", Some(1900), Some(95), Some(10), Some(500)),
        measurement(4, "analysed", "2026-03-15", Some(1700), Some(150), Some(20), Some(1000)),
        measurement(5, "analysed", "2026-04-01", Some(1850), Some(98), Some(10), Some(500)),
    ]
}

#[test]
fn summarise_matches_python_golden_values() {
    let battery = battery();
    let measurements = fixture_measurements();
    let mut limits = Dict::new();
    limits.insert("AA", 100);
    limits.insert("AAA", 200);
    let mut names = HashMap::new();
    names.insert(10, "C9000".to_string());
    names.insert(20, "SkyRC MC3000".to_string());

    let summary = health::summarise(&battery, &measurements, &limits, Some(80), &names);

    assert_eq!(summary.retention, Some(92));
    assert!(!summary.health_low);
    assert_eq!(summary.ir_limit, Some(100));
    assert!(!summary.ir_over_limit);
    assert!(!summary.ir_unchecked);
    assert_eq!(summary.setup, "C9000 at 500 mA");
    assert_eq!(ids(&summary.series), vec![2, 3, 5]);
    assert_eq!(ids(&summary.others), vec![4]);
    assert_eq!(ids(&summary.newer), Vec::<i64>::new());
    assert_eq!(summary.ir_first.as_ref().map(|m| m.id), Some(2));
    assert_eq!(summary.ir_latest.as_ref().map(|m| m.id), Some(5));
    assert_eq!(summary.ir_change, Some(8));

    let chart = summary.chart.expect("chart present");
    assert_eq!(chart.cap_high, 2024);
    assert_eq!(chart.cap_low, 1676);
    assert_eq!(chart.ir_high, 155);
    assert_eq!(chart.ir_low, 85);
    // Lengths are in tenths.
    assert_eq!(chart.nominal_y, Some(200));
    assert_eq!(chart.series.len(), 4);
    assert_eq!(chart.first, "2026-02-01");
    assert_eq!(chart.last, "2026-04-01");
}

fn ids(measurements: &[Measurement]) -> Vec<i64> {
    measurements.iter().map(|m| m.id).collect()
}

#[test]
fn health_color_matches_python_golden_values() {
    assert_eq!(health_color(None, Some(80)), "#2a2f3d");
    assert_eq!(health_color(Some(100), Some(80)), "hsl(130, 55%, 22%)");
    assert_eq!(health_color(Some(80), Some(80)), "hsl(45, 55%, 22%)");
    assert_eq!(health_color(Some(79), Some(80)), "hsl(44, 55%, 22%)");
    assert_eq!(health_color(Some(40), Some(80)), "hsl(22, 55%, 22%)");
    assert_eq!(health_color(Some(0), Some(80)), "hsl(0, 55%, 22%)");
    assert_eq!(health_color(Some(95), Some(90)), "hsl(88, 55%, 22%)");
}

#[test]
fn limit_for_matches_python_golden_values() {
    let mut limits = Dict::new();
    limits.insert("AA", 100);
    limits.insert("AAA", 200);

    let with_type = |t: &str| Battery { cell_type: t.to_string(), ..battery() };

    assert_eq!(limit_for(&with_type("AA"), &limits), Some(100));
    assert_eq!(limit_for(&with_type("aa"), &limits), Some(100));
    assert_eq!(limit_for(&with_type("AA (Eneloop)"), &limits), Some(100));
    assert_eq!(limit_for(&with_type("AAA"), &limits), Some(200));
    assert_eq!(limit_for(&with_type("AAA NiMH"), &limits), Some(200));
    assert_eq!(limit_for(&with_type("C"), &limits), None);
    assert_eq!(limit_for(&with_type("18650"), &limits), None);
}

#[test]
fn health_is_kept_apart_from_resistance() {
    let mut ms = fixture_measurements();
    for m in &mut ms {
        m.ir_mohm = m.ir_mohm.map(|r| r * 10);
    }
    let limits = Dict::new();
    let names = HashMap::new();
    let s = health::summarise(&battery(), &ms, &limits, Some(95), &names);
    assert_eq!(s.retention, Some(92));
    assert!(s.health_low && s.ir_unchecked && !s.ir_over_limit);
    assert_eq!(s.setup, "a deleted instrument at 500 mA");
}

#[test]
fn nothing_is_said_without_a_reading() {
    let limits = Dict::new();
    let names = HashMap::new();
    let s = health::summarise(&battery(), &vec![], &limits, None, &names);
    assert_eq!(s.retention, None);
    assert!(!s.unavailable.is_empty() && s.chart.is_none());
    let mut unknown = battery();
    unknown.nominal_mah = None;
    let s = health::summarise(&unknown, &fixture_measurements(), &limits, None, &names);
    assert_eq!(s.retention, None);
    assert_eq!(s.latest.map(|m| m.id), Some(5));
}

#[test]
fn a_chart_is_drawn_by_date() {
    let ms = vec![
        measurement(1, "analysed", "2026-01-01", Some(1000), None, None, Some(500)),
        measurement(2, "analysed", "2026-01-11T10:00:00+00:00", Some(2000), None, None, Some(500)),
    ];
    let limits = Dict::new();
    let names = HashMap::new();
    let chart = health::summarise(&battery(), &ms, &limits, None, &names).chart.unwrap();
    assert_eq!((chart.first.as_str(), chart.last.as_str()), ("2026-01-01", "2026-01-11"));
    assert_eq!((chart.series[0].x, chart.series[1].x), (80, 6000 - 80));
    assert!(chart.series[0].cap_y.unwrap() > chart.series[1].cap_y.unwrap());
    for p in &chart.series {
        assert!((120..=1280).contains(&p.cap_y.unwrap()));
        assert_eq!(p.ir_y, None);
    }
}

#[test]
fn more_health_is_never_redder() {
    for limit in [None, Some(0), Some(1), Some(80), Some(99), Some(100), Some(150), Some(-20)] {
        let hues: Vec<i64> = (-5..=105)
            .map(|p| {
                let colour = health_color(Some(p), limit);
                let end = colour.find(',').unwrap();
                colour["hsl(".len()..end].parse().unwrap()
            })
            .collect();
        assert!(hues.windows(2).all(|w| w[0] <= w[1]), "{limit:?}: {hues:?}");
        assert!(hues.iter().all(|h| (0..=130).contains(h)), "{limit:?}: {hues:?}");
    }
    assert_eq!(health_color(Some(99), Some(99)), "hsl(45, 55%, 22%)");
    assert_eq!(health_color(Some(100), Some(99)), "hsl(130, 55%, 22%)");
    assert_eq!(health_color(Some(100), Some(100)), "hsl(45, 55%, 22%)");
    assert_eq!(health_color(Some(80), None), "hsl(45, 55%, 22%)");
}

#[test]
fn resistance_changes_nothing_but_itself() {
    let with = fixture_measurements();
    let mut without = with.clone();
    for m in &mut without {
        m.ir_mohm = None;
    }
    let names = HashMap::new();
    let a = health::summarise(&battery(), &with, &Dict::new(), Some(80), &names);
    let b = health::summarise(&battery(), &without, &Dict::new(), Some(80), &names);
    assert_eq!(a.retention, Some(92));
    assert_eq!(a.retention, b.retention);
    assert_eq!(a.setup, b.setup);
    assert_eq!(a.unavailable, b.unavailable);
    assert_eq!(a.latest.map(|m| m.id), Some(5));
    assert_eq!(b.latest.map(|m| m.id), Some(5));
    assert_eq!((ids(&a.series), ids(&b.series)), (vec![2, 3, 5], vec![2, 3, 5]));
    assert_eq!((ids(&a.others), ids(&b.others)), (vec![4], vec![4]));
    assert_eq!((ids(&a.newer), ids(&b.newer)), (vec![], vec![]));
}

#[test]
fn a_written_type_finds_its_limit() {
    let mut limits = Dict::new();
    limits.insert("AA", 100);
    limits.insert("AA LONG", 150);
    assert_eq!(limit_of_written("AA", &limits), Some(100));
    assert_eq!(limit_of_written("AA LONG", &limits), Some(150));
    assert_eq!(limit_of_written("AA, (SHORT)", &limits), Some(100));
    assert_eq!(limit_of_written("aa", &limits), None);
}

#[test]
fn readings_are_placed_by_day_or_by_turn() {
    let days = vec![100, 110, 130];
    assert_eq!(place_across(Some(100), &days, 3, 0), 80);
    assert_eq!(place_across(Some(110), &days, 3, 1), 2027);
    assert_eq!(place_across(Some(130), &days, 3, 2), 5920);
    assert_eq!(place_across(None, &days, 3, 1), 3000);
    assert_eq!(place_across(None, &vec![], 1, 0), 3000);
    assert_eq!(place_across(Some(7), &vec![7, 7], 2, 1), 5920);
}

#[test]
fn a_negative_resistance_leaves_the_rest_of_the_chart_in_its_frame() {
    let mut ms = fixture_measurements();
    ms[1].ir_mohm = Some(-500);
    let c = health::summarise(&battery(), &ms, &Dict::new(), None, &HashMap::new()).chart.unwrap();
    for p in &c.series {
        assert!((80..=5920).contains(&p.x));
        assert!((120..=1280).contains(&p.cap_y.unwrap()));
    }
    assert!(c.series.iter().any(|p| !(120..=1280).contains(&p.ir_y.unwrap())));
}
