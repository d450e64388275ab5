use logtime::Db;

#[test]
fn project_resolution_is_idempotent() {
    let mut db = Db::new();
    let a = db.get_project("ACME");
    let id_a = db.projects[a].id;
    let count = db.projects.len();
    let b = db.get_project("ACME");
    let id_b = db.projects[b].id;
    assert_eq!(id_a, id_b);
    assert_eq!(db.projects.len(), count);
    let c = db.get_project("OTHER");
    assert_ne!(db.projects[c].id, id_a);
    assert_eq!(db.projects.len(), 2);
}

#[test]
fn task_resolution_is_idempotent() {
    let mut db = Db::new();
    let p = db.get_project("ACME");
    let pid = db.projects[p].id;
    let t1 = db.task(pid, 3);
    let t2 = db.task(pid, 3);
    assert_eq!(db.tasks[t1].id, db.tasks[t2].id);
    assert_eq!(db.tasks.len(), 1);
    db.task(pid, 4);
    assert_eq!(db.tasks.len(), 2);
}

#[test]
fn explicit_subtask_is_created_active() {
    let mut db = Db::new();
    let p = db.get_project("ACME");
    let pid = db.projects[p].id;
    let t = db.task(pid, 1);
    let tid = db.tasks[t].id;
    let s = db.load_or_create_subtask(tid, 5);
    assert_eq!(db.subtasks[s].number, 5);
    assert!(db.subtasks[s].active);
    assert!(db.subtasks[s].branch.is_none());
    let s2 = db.load_or_create_subtask(tid, 5);
    assert_eq!(db.subtasks[s].id, db.subtasks[s2].id);
    assert_eq!(db.subtasks.len(), 1);
}

#[test]
fn latest_subtask_starts_at_one() {
    let mut db = Db::new();
    let p = db.get_project("ACME");
    let pid = db.projects[p].id;
    let t = db.task(pid, 1);
    let tid = db.tasks[t].id;
    let s = db.latest_subtask(tid);
    assert_eq!(db.subtasks[s].number, 1);
}

#[test]
fn latest_subtask_resumes_highest_number() {
    let mut db = Db::new();
    let p = db.get_project("ACME");
    let pid = db.projects[p].id;
    let t = db.task(pid, 1);
    let tid = db.tasks[t].id;
    db.load_or_create_subtask(tid, 2);
    db.load_or_create_subtask(tid, 7);
    db.load_or_create_subtask(tid, 4);
    let s = db.latest_subtask(tid);
    assert_eq!(db.subtasks[s].number, 7);
    assert_eq!(db.subtasks.len(), 3);
}

#[test]
fn for_code_materializes_the_triple() {
    let mut db = Db::new();
    let (p, t, s) = db.for_code("ACME-2-3").unwrap();
    assert_eq!(db.projects[p].code, "ACME");
    assert_eq!(db.tasks[t].number, 2);
    assert_eq!(db.subtasks[s].number, 3);
    assert_eq!(db.tasks[t].project_id, db.projects[p].id);
    assert_eq!(db.subtasks[s].task_id, db.tasks[t].id);
}

#[test]
fn for_code_rejects_malformed_codes() {
    let mut db = Db::new();
    assert!(db.for_code("nodashes").is_err());
    assert!(db.for_code("A-x").is_err());
    assert_eq!(db.projects.len(), 0);
}

#[test]
fn switch_leaves_one_open_stretch() {
    let mut db = Db::new();
    db.switch_to("ACME-1-1", 1000).unwrap();
    db.switch_to("ACME-1-2", 2000).unwrap();
    db.switch_to("OTHER-1", 3000).unwrap();
    let open: Vec<&logtime::Stretch> =
        db.stretches.iter().filter(|s| s.end.is_none()).collect();
    assert_eq!(open.len(), 1);
    assert_eq!(open[0].start, 3000);
}

#[test]
fn switch_chronology_close_before_open() {
    let mut db = Db::new();
    db.switch_to("ACME-1-1", 1000).unwrap();
    db.switch_to("ACME-1-2", 2500).unwrap();
    // the first stretch closed exactly when the second began
    assert_eq!(db.stretches[0].end, Some(2500));
    assert_eq!(db.stretches[1].start, 2500);
    assert!(db.stretches[0].end.unwrap() <= db.stretches[1].start);
}

#[test]
fn stop_all_closes_every_open_stretch() {
    let mut db = Db::new();
    let (_, _, s) = db.for_code("ACME-1-1").unwrap();
    db.begin(s, 100);
    db.begin(s, 200);
    db.stop_all(900).unwrap();
    assert!(db.stretches.iter().all(|st| st.end == Some(900)));
}

#[test]
fn stop_all_at_explicit_timestamp() {
    let mut db = Db::new();
    let (_, _, s) = db.for_code("ACME-1-1").unwrap();
    // 2023-01-01T23:00:00 in the fixed zone (UTC+13 during southern summer)
    let ts = logtime::tz::parse_local_ts("2023-01-01T23:00:00").unwrap();
    db.begin(s, ts);
    db.stop_all_at(Some("2023-01-02T01:00:00"), 0).unwrap();
    let end = db.stretches[0].end.unwrap();
    assert_eq!(end - ts, 2 * 3600);
}

#[test]
fn stop_all_at_rejects_bad_timestamp() {
    let mut db = Db::new();
    let (_, _, s) = db.for_code("ACME-1-1").unwrap();
    db.begin(s, 100);
    let r = db.stop_all_at(Some("never oclock"), 0);
    assert!(r.is_err());
    assert!(db.stretches[0].end.is_none());
}

#[test]
fn current_queries_follow_the_open_stretch() {
    let mut db = Db::new();
    assert!(db.current_stretch().is_none());
    assert!(db.current_task().is_none());
    assert!(db.current_project().is_none());
    db.switch_to("ACME-4-2", 500).unwrap();
    let ci = db.current_stretch().unwrap();
    assert!(db.stretches[ci].end.is_none());
    let ti = db.current_task().unwrap();
    assert_eq!(db.tasks[ti].number, 4);
    assert_eq!(db.task_code(ti), "ACME-4");
    let pi = db.current_project().unwrap();
    assert_eq!(db.projects[pi].code, "ACME");
}

#[test]
fn current_stretch_prefers_latest_start() {
    let mut db = Db::new();
    let (_, _, s) = db.for_code("ACME-1-1").unwrap();
    db.begin(s, 100);
    db.begin(s, 300);
    db.begin(s, 200);
    let ci = db.current_stretch().unwrap();
    assert_eq!(db.stretches[ci].start, 300);
}

#[test]
fn listing_and_active_subtask() {
    let mut db = Db::new();
    let (p, t, s) = db.for_code("ACME-1-1").unwrap();
    db.for_code("ACME-1-2").unwrap();
    db.for_code("ACME-2-1").unwrap();
    let pid = db.projects[p].id;
    let tid = db.tasks[t].id;
    assert_eq!(db.tasks_of(pid).len(), 2);
    assert_eq!(db.subtasks_of(tid).len(), 2);
    // no active subtask marked
    assert!(db.active_subtask(t).is_none());
    db.tasks[t].active_subtask = Some(db.subtasks[s].id);
    let found = db.active_subtask(t).unwrap();
    assert_eq!(db.subtasks[found].id, db.subtasks[s].id);
}

#[test]
fn check_wf_accepts_and_rejects() {
    let mut db = Db::new();
    db.for_code("ACME-1-1").unwrap();
    assert!(db.check_wf());
    // a dangling stretch breaks well-formedness
    db.stretches.push(logtime::Stretch { id: 99, subtask_id: 12345, start: 0, end: None });
    assert!(!db.check_wf());
}
