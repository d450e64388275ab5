use logtime::Db;
use logtime::Stretch;
use logtime::report::{time_since, time_in_range, dates, dates_to_timestamp_ranges};
use logtime::tz::{parse_local_ts, parse_date, local_day, day_open, day_close};
use logtime::duration_hms;

fn scenario_db() -> Db {
    // project "ACME", stretch on ACME-1-1 from 23:00 local to 01:00
    // local the next day
    let mut db = Db::new();
    let start = parse_local_ts("2023-01-01T23:00:00").unwrap();
    db.switch_to("ACME-1-1", start).unwrap();
    db.stop_all_at(Some("2023-01-02T01:00:00"), 0).unwrap();
    db
}

#[test]
fn midnight_spanning_stretch_splits_per_day() {
    let db = scenario_db();
    let from = parse_date("2023-01-01").unwrap();
    let today = parse_date("2023-01-02").unwrap();
    let report = time_since(&db, from, today);
    assert_eq!(report.len(), 2);
    assert_eq!(report[0].day, from);
    assert_eq!(report[1].day, today);
    for day in &report {
        assert_eq!(day.entries.len(), 1);
        assert_eq!(day.entries[0].code, "ACME-1-1");
        assert_eq!(day.entries[0].seconds, 3600);
        assert_eq!(duration_hms(day.entries[0].seconds), (1, 0, 0));
    }
}

#[test]
fn day_split_conserves_total_duration() {
    let db = scenario_db();
    let from = parse_date("2023-01-01").unwrap();
    let today = parse_date("2023-01-02").unwrap();
    let report = time_since(&db, from, today);
    let total: i64 = report.iter().flat_map(|d| d.entries.iter()).map(|e| e.seconds).sum();
    let s = &db.stretches[0];
    assert_eq!(total, s.end.unwrap() - s.start);
}

#[test]
fn report_excludes_stretches_outside_the_window() {
    let db = scenario_db();
    // window entirely after the stretch
    let from = parse_date("2023-02-01").unwrap();
    let today = parse_date("2023-02-03").unwrap();
    assert!(time_since(&db, from, today).is_empty());
    // window entirely before the stretch
    let from = parse_date("2022-12-01").unwrap();
    let today = parse_date("2022-12-31").unwrap();
    assert!(time_since(&db, from, today).is_empty());
}

#[test]
fn report_clips_days_outside_the_window() {
    let db = scenario_db();
    let day2 = parse_date("2023-01-02").unwrap();
    let report = time_since(&db, day2, day2);
    assert_eq!(report.len(), 1);
    assert_eq!(report[0].day, day2);
    assert_eq!(report[0].entries[0].seconds, 3600);
}

#[test]
fn same_day_stretches_accumulate() {
    let mut db = Db::new();
    let start = parse_local_ts("2023-03-06T09:00:00").unwrap();
    db.switch_to("ACME-1-1", start).unwrap();
    db.stop_all_at(Some("2023-03-06T10:00:00"), 0).unwrap();
    let again = parse_local_ts("2023-03-06T14:00:00").unwrap();
    db.switch_to("ACME-1-1", again).unwrap();
    db.stop_all_at(Some("2023-03-06T14:30:00"), 0).unwrap();
    let d = parse_date("2023-03-06").unwrap();
    let report = time_since(&db, d, d);
    assert_eq!(report.len(), 1);
    assert_eq!(report[0].entries.len(), 1);
    assert_eq!(report[0].entries[0].seconds, 5400);
}

#[test]
fn report_orders_days_and_codes() {
    let mut db = Db::new();
    let t1 = parse_local_ts("2023-03-06T09:00:00").unwrap();
    db.switch_to("BETA-1-1", t1).unwrap();
    db.stop_all_at(Some("2023-03-06T10:00:00"), 0).unwrap();
    let t2 = parse_local_ts("2023-03-06T11:00:00").unwrap();
    db.switch_to("ALPHA-1-1", t2).unwrap();
    db.stop_all_at(Some("2023-03-07T11:30:00"), 0).unwrap();
    let from = parse_date("2023-03-06").unwrap();
    let today = parse_date("2023-03-07").unwrap();
    let report = time_since(&db, from, today);
    assert_eq!(report.len(), 2);
    assert!(report[0].day < report[1].day);
    assert_eq!(report[0].entries[0].code, "ALPHA-1-1");
    assert_eq!(report[0].entries[1].code, "BETA-1-1");
    assert_eq!(report[1].entries.len(), 1);
    assert_eq!(report[1].entries[0].code, "ALPHA-1-1");
}

#[test]
fn open_stretch_contributes_nothing() {
    let mut db = Db::new();
    let start = parse_local_ts("2023-03-06T09:00:00").unwrap();
    db.switch_to("ACME-1-1", start).unwrap();
    let d = parse_date("2023-03-06").unwrap();
    assert!(time_since(&db, d, d).is_empty());
}

#[test]
fn time_in_range_clamps_and_rejects() {
    let s = Stretch { id: 1, subtask_id: 1, start: 100, end: Some(300) };
    assert_eq!(time_in_range(&s, 0, 1000), Some(200));
    assert_eq!(time_in_range(&s, 150, 250), Some(100));
    assert_eq!(time_in_range(&s, 300, 1000), Some(0));
    assert_eq!(time_in_range(&s, 400, 1000), None);
    let open = Stretch { id: 2, subtask_id: 1, start: 100, end: None };
    assert_eq!(time_in_range(&open, 0, 1000), None);
}

#[test]
fn dates_enumerates_local_days() {
    let start = parse_local_ts("2023-01-01T23:00:00").unwrap();
    let end = parse_local_ts("2023-01-03T01:00:00").unwrap();
    let s = Stretch { id: 1, subtask_id: 1, start, end: Some(end) };
    let days = dates(&s);
    assert_eq!(days.len(), 3);
    assert_eq!(days[0], parse_date("2023-01-01").unwrap());
    assert_eq!(days[2], parse_date("2023-01-03").unwrap());
    let open = Stretch { id: 1, subtask_id: 1, start, end: None };
    assert!(dates(&open).is_empty());
}

#[test]
fn day_ranges_tile_ordinary_days() {
    let d = parse_date("2023-03-06").unwrap();
    let ranges = dates_to_timestamp_ranges(&vec![d, d + 1]).unwrap();
    assert_eq!(ranges.len(), 2);
    // an ordinary day is 86400 seconds and meets the next at midnight
    assert_eq!(ranges[0].1 - ranges[0].0, 86400);
    assert_eq!(ranges[0].1, ranges[1].0);
    assert_eq!(ranges[0].0, day_open(d).unwrap());
    assert_eq!(ranges[0].1, day_close(d).unwrap());
}

#[test]
fn local_day_respects_the_fixed_zone() {
    // 2023-01-01T23:30 local lies on Jan 1 even though it is Jan 1
    // 10:30 UTC; Auckland runs 13 hours ahead in January
    let ts = parse_local_ts("2023-01-01T23:30:00").unwrap();
    assert_eq!(local_day(ts), parse_date("2023-01-01").unwrap());
}

#[test]
fn duration_formatting() {
    assert_eq!(duration_hms(0), (0, 0, 0));
    assert_eq!(duration_hms(3661), (1, 1, 1));
    assert_eq!(duration_hms(59), (0, 0, 59));
    // hours count past a single day rather than wrapping
    assert_eq!(duration_hms(90000), (25, 0, 0));
}
