use timetrack::{
    chrono_to_sql, decode_tags, encode_tags, entry_billable, entry_end, remote_project_id, remote_task_id,
    sql_to_chrono, Error, ProjectRef, TimeEntry, TimeTracker, TimeblockRef, MAX_TIMESTAMP, MIN_TIMESTAMP,
};

#[test]
fn timestamps_as_text() {
    assert_eq!(chrono_to_sql(0), "1970-01-01T00:00:00+00:00");
    assert_eq!(chrono_to_sql(1451629020004), "2016-01-01T06:17:00.004+00:00");
    assert_eq!(sql_to_chrono("2016-01-01T06:17:00Z".to_string()), Ok(1451629020000));
    assert_eq!(sql_to_chrono("2016-01-01T07:17:00+01:00".to_string()), Ok(1451629020000));
    assert_eq!(sql_to_chrono("yesterday".to_string()), Err(Error::ParseError));
    for t in [MIN_TIMESTAMP, -1, 0, 1, 947638923004, MAX_TIMESTAMP] {
        assert_eq!(sql_to_chrono(chrono_to_sql(t)), Ok(t));
    }
    assert!(chrono_to_sql(1000) < chrono_to_sql(2000));
}

#[test]
fn tags_stored_as_lines() {
    let tags = vec!["a".to_string(), "".to_string(), "c d".to_string()];
    let s = encode_tags(&tags);
    assert_eq!(s, "a\n\nc d");
    assert_eq!(decode_tags(&s), tags);
    assert_eq!(encode_tags(&vec![]), "");
    assert_eq!(decode_tags(&String::new()), Vec::<String>::new());
    assert_eq!(decode_tags(&"x\n".to_string()), vec!["x".to_string(), "".to_string()]);
}

#[test]
fn remote_keys() {
    assert_eq!(remote_project_id("12"), "/projects/12");
    assert_eq!(remote_task_id("7"), "/tasks/7");
    assert!(entry_billable(&"True".to_string()));
    assert!(!entry_billable(&"true".to_string()));
    assert_eq!(entry_end(1_000, Some(2), Some(30)), Some(1_000 + 2 * 3_600_000 + 30 * 60_000));
    assert_eq!(entry_end(1_000, Some(2), None), None);
    assert_eq!(entry_end(i64::MAX, Some(1), Some(0)), None);
}

#[test]
fn sync_records_projects_tasks_and_entries() {
    let mut t = TimeTracker::new();
    let p = t.sync_project_at("Site".to_string(), "12", 10).unwrap();
    assert_eq!(p.remote_id, "/projects/12");
    assert_eq!(t.sync_task_at("Fix".to_string(), "7", "99", 11).unwrap_err(), Error::NotFound);
    let task = t.sync_task_at("Fix".to_string(), "7", "12", 12).unwrap();
    assert_eq!(task.parent_eid, Some(p.ev.eid));
    assert_eq!(t.projects.fqn(&ProjectRef::EId(task.ev.eid), None), "Site/Fix");
    let entry = TimeEntry {
        id: "e1".to_string(),
        project_id: "12".to_string(),
        task_id: "7".to_string(),
        start: 1_000,
        hours: Some(1),
        minutes: Some(15),
        billable: "True".to_string(),
    };
    let tb = t.sync_time_entry_at(entry, 13).unwrap();
    assert_eq!(tb.project_eid, task.ev.eid);
    assert_eq!(tb.end, Some(1_000 + 75 * 60_000));
    assert!(tb.billable);
    assert_eq!(tb.remote_id, Some("e1".to_string()));
    let found = t.timeblocks.get(&TimeblockRef::RemoteId("e1".to_string()), None).unwrap();
    assert_eq!(found.ev.eid, tb.ev.eid);
    let open_entry = TimeEntry {
        id: "e2".to_string(),
        project_id: "12".to_string(),
        task_id: String::new(),
        start: 1_000,
        hours: None,
        minutes: None,
        billable: "False".to_string(),
    };
    assert_eq!(t.sync_time_entry_at(open_entry, 14).unwrap_err(), Error::InvariantViolation);
}

#[test]
fn same_entry_is_recorded_once() {
    let mut t = TimeTracker::new();
    t.sync_project_at("Site".to_string(), "12", 10).unwrap();
    let entry = || TimeEntry {
        id: "e1".to_string(),
        project_id: "12".to_string(),
        task_id: String::new(),
        start: 1_000,
        hours: Some(0),
        minutes: Some(30),
        billable: "False".to_string(),
    };
    let first = t.sync_time_entry_at(entry(), 20).unwrap();
    let again = t.sync_time_entry_at(entry(), 30).unwrap();
    assert_eq!(again.ev.eid, first.ev.eid);
    assert_eq!(again.ev.vid, first.ev.vid);
    assert_eq!(t.timeblocks.rows.len(), 1);
    assert_eq!(t.timeblocks.rows.iter().filter(|b| b.remote_id.as_deref() == Some("e1")).count(), 1);
}
