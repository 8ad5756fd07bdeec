use timetrack::{
    Error, ProjectDataSource, ProjectRef, Timeblock, TimeblockDataSource, TimeblockFilter, TimeblockRef,
};

fn setup() -> (ProjectDataSource, TimeblockDataSource) {
    let mut p = ProjectDataSource::new();
    p.upsert_at("Acme".to_string(), "ext-1".to_string(), None, 1).unwrap();
    p.upsert_at("Beta".to_string(), "ext-2".to_string(), None, 1).unwrap();
    (p, TimeblockDataSource::new())
}

fn open_block(t: &mut TimeblockDataSource, p: &ProjectDataSource, proj: i64, start: i64) -> Timeblock {
    t.upsert_at(p, None, None, ProjectRef::EId(proj), start, None, false, String::new(), vec![], true, start)
        .unwrap()
}

#[test]
fn upsert_creates_then_appends() {
    let (p, mut t) = setup();
    let a = open_block(&mut t, &p, 1, 100);
    assert_eq!(a.ev.eid, 1);
    assert_eq!(a.ev.vid, 0);
    assert_eq!(a.project_eid, 1);
    let b = t
        .upsert_at(&p, Some(TimeblockRef::EId(a.ev.eid)), None, ProjectRef::EId(1), 100, Some(200), true,
            "n".to_string(), vec!["x".to_string()], true, 200)
        .unwrap();
    assert_eq!(b.ev.eid, a.ev.eid);
    assert_eq!(b.ev.vid, a.ev.vid + 1);
    assert!(b.ev.vtime >= a.ev.vtime);
    assert_eq!(b.end, Some(200));
    assert_eq!(b.tags, vec!["x".to_string()]);
    assert_eq!(t.rows.len(), 2);
}

#[test]
fn upsert_with_clock_appends_version() {
    let (p, mut t) = setup();
    let a = t.upsert(&p, None, None, ProjectRef::EId(1), 5, None, false, String::new(), vec![], true).unwrap();
    let b = t
        .upsert(&p, Some(TimeblockRef::Obj(a.clone())), None, ProjectRef::EId(1), 5, Some(6), false,
            String::new(), vec![], true)
        .unwrap();
    assert_eq!(b.ev.eid, a.ev.eid);
    assert_eq!(b.ev.vid, 1);
    assert!(b.ev.vtime >= a.ev.vtime);
}

#[test]
fn upsert_unknown_project_fails() {
    let (p, mut t) = setup();
    let r = t.upsert_at(&p, None, None, ProjectRef::EId(9), 1, None, false, String::new(), vec![], true, 1);
    assert_eq!(r.unwrap_err(), Error::NotFound);
    let r = t.upsert_at(&p, None, None, ProjectRef::RemoteId("zzz".to_string()), 1, None, false,
        String::new(), vec![], true, 1);
    assert_eq!(r.unwrap_err(), Error::NotFound);
    assert!(t.rows.is_empty());
}

#[test]
fn upsert_remote_id_without_end_fails() {
    let (p, mut t) = setup();
    let r = t.upsert_at(&p, None, Some("r1".to_string()), ProjectRef::EId(1), 1, None, false, String::new(),
        vec![], true, 1);
    assert_eq!(r.unwrap_err(), Error::InvariantViolation);
}

#[test]
fn upsert_repeated_remote_id_on_entity_fails() {
    let (p, mut t) = setup();
    let a = t
        .upsert_at(&p, None, Some("r1".to_string()), ProjectRef::RemoteId("ext-1".to_string()), 1, Some(2),
            false, String::new(), vec![], true, 3)
        .unwrap();
    assert_eq!(a.project_eid, 1);
    let r = t.upsert_at(&p, Some(TimeblockRef::RemoteId("r1".to_string())), Some("r1".to_string()),
        ProjectRef::EId(1), 1, Some(4), false, String::new(), vec![], true, 5);
    assert_eq!(r.unwrap_err(), Error::ConstraintViolation);
    let ok = t
        .upsert_at(&p, Some(TimeblockRef::RemoteId("r1".to_string())), Some("r2".to_string()),
            ProjectRef::EId(1), 1, Some(4), false, String::new(), vec![], true, 5)
        .unwrap();
    assert_eq!(ok.ev.eid, a.ev.eid);
    assert_eq!(ok.ev.vid, 1);
}

#[test]
fn upsert_when_versions_are_exhausted_fails() {
    let (p, mut t) = setup();
    let mut b = open_block(&mut t, &p, 1, 1);
    b.ev.eid = 2;
    b.ev.vid = i64::MAX;
    t.restore(b).unwrap();
    let r = t.upsert_at(&p, Some(TimeblockRef::EId(2)), None, ProjectRef::EId(1), 1, Some(2), false,
        String::new(), vec![], true, 3);
    assert_eq!(r.unwrap_err(), Error::StorageError);
}

#[test]
fn get_as_of_and_by_reference() {
    let (p, mut t) = setup();
    let a = open_block(&mut t, &p, 1, 100);
    t.upsert_at(&p, Some(TimeblockRef::EV(a.ev)), None, ProjectRef::EId(1), 100, Some(150), false,
        String::new(), vec![], true, 150)
        .unwrap();
    assert_eq!(t.get(&TimeblockRef::EId(1), Some(120)).unwrap().end, None);
    assert_eq!(t.get(&TimeblockRef::EId(1), Some(150)).unwrap().end, Some(150));
    assert_eq!(t.get(&TimeblockRef::EId(1), None).unwrap().ev.vid, 1);
    assert!(t.get(&TimeblockRef::EId(1), Some(99)).is_none());
    assert!(t.get(&TimeblockRef::RemoteId("none".to_string()), None).is_none());
}

#[test]
fn search_open_returns_only_open_blocks() {
    let (p, mut t) = setup();
    open_block(&mut t, &p, 1, 10);
    let b = open_block(&mut t, &p, 2, 20);
    t.upsert_at(&p, None, Some("remote".to_string()), ProjectRef::EId(1), 5, Some(8), false, String::new(),
        vec![], true, 30)
        .unwrap();
    t.upsert_at(&p, Some(TimeblockRef::EId(b.ev.eid)), None, ProjectRef::EId(2), 20, Some(40), false,
        String::new(), vec![], true, 40)
        .unwrap();
    let open = t.search(&p, Some(TimeblockFilter::Open(true)));
    assert_eq!(open.len(), 1);
    assert_eq!(open[0].ev.eid, 1);
    for tb in &open {
        assert!(tb.end.is_none());
        assert!(tb.remote_id.is_none());
    }
    let closed = t.search(&p, Some(TimeblockFilter::Open(false)));
    let ids: Vec<i64> = closed.iter().map(|b| b.ev.eid).collect();
    assert_eq!(ids, vec![2, 3]);
    assert_eq!(t.search(&p, None).len(), 3);
}

#[test]
fn search_filters_compose() {
    let (p, mut t) = setup();
    t.upsert_at(&p, None, None, ProjectRef::EId(1), 1, None, false, String::new(),
        vec!["a".to_string(), "bb".to_string()], true, 1)
        .unwrap();
    t.upsert_at(&p, None, None, ProjectRef::EId(2), 2, None, false, String::new(), vec!["b".to_string()], true, 2)
        .unwrap();
    let tag_b = t.search(&p, Some(TimeblockFilter::Tag("b".to_string())));
    assert_eq!(tag_b.len(), 1);
    assert_eq!(tag_b[0].ev.eid, 2);
    let by_remote = t.search(&p, Some(TimeblockFilter::Project(Some(ProjectRef::RemoteId("ext-1".to_string())))));
    assert_eq!(by_remote.len(), 1);
    assert_eq!(by_remote[0].project_eid, 1);
    let either = TimeblockFilter::Or(
        Box::new(TimeblockFilter::Ref(TimeblockRef::EId(1))),
        Box::new(TimeblockFilter::Ref(TimeblockRef::EId(2))),
    );
    let both = TimeblockFilter::And(Box::new(either), Box::new(TimeblockFilter::Project(Some(ProjectRef::EId(2)))));
    let r = t.search(&p, Some(both));
    assert_eq!(r.len(), 1);
    assert_eq!(r[0].ev.eid, 2);
    assert_eq!(t.search(&p, Some(TimeblockFilter::AtTime(1))).len(), 1);
    assert_eq!(t.search(&p, Some(TimeblockFilter::Project(None))).len(), 2);
}

#[test]
fn last_sync_is_latest_version_time() {
    let (p, mut t) = setup();
    assert_eq!(t.last_sync(), None);
    open_block(&mut t, &p, 1, 70);
    open_block(&mut t, &p, 1, 40);
    assert_eq!(t.last_sync(), Some(70));
}

#[test]
fn restore_checks_rows() {
    let (p, mut t) = setup();
    let a = open_block(&mut t, &p, 1, 10);
    let mut other = TimeblockDataSource::new();
    let mut bad = a.clone();
    bad.remote_id = Some("r".to_string());
    assert_eq!(other.restore(bad).unwrap_err(), Error::ConstraintViolation);
    let mut newline = a.clone();
    newline.tags = vec!["a\nb".to_string()];
    assert_eq!(other.restore(newline).unwrap_err(), Error::ConstraintViolation);
    other.restore(a.clone()).unwrap();
    assert_eq!(other.restore(a.clone()).unwrap_err(), Error::ConstraintViolation);
    assert_eq!(other.next_eid, 2);
}

#[test]
fn list_reads_blocks_as_of() {
    let (p, mut t) = setup();
    let a = open_block(&mut t, &p, 1, 10);
    open_block(&mut t, &p, 2, 20);
    t.upsert_at(&p, Some(TimeblockRef::EId(a.ev.eid)), None, ProjectRef::EId(1), 10, Some(30), false,
        String::new(), vec![], true, 30)
        .unwrap();
    let now = t.list(None);
    assert_eq!(now.len(), 2);
    assert_eq!(now[0].end, Some(30));
    assert_eq!(now[1].ev.eid, 2);
    let then = t.list(Some(15));
    assert_eq!(then.len(), 1);
    assert_eq!(then[0].end, None);
}

#[test]
fn reads_without_time_are_as_of_now() {
    let (p, mut t) = setup();
    let a = open_block(&mut t, &p, 1, 10);
    let future = i64::MAX / 2;
    t.upsert_at(&p, Some(TimeblockRef::EId(a.ev.eid)), None, ProjectRef::EId(1), 10, Some(20), false,
        String::new(), vec![], true, future)
        .unwrap();
    open_block(&mut t, &p, 2, future);
    assert_eq!(t.get(&TimeblockRef::EId(1), None).unwrap().end, None);
    assert_eq!(t.get(&TimeblockRef::EId(1), Some(future)).unwrap().end, Some(20));
    assert!(t.search(&p, None).is_empty());
    assert_eq!(t.search(&p, Some(TimeblockFilter::AtTime(future))).len(), 2);
    assert_eq!(t.list(None).len(), 1);
    assert_eq!(t.list(Some(future)).len(), 2);
}

#[test]
fn reserve_eid_only_raises() {
    let (_, mut t) = setup();
    t.reserve_eid(9);
    assert_eq!(t.next_eid, 10);
    t.reserve_eid(3);
    assert_eq!(t.next_eid, 10);
}
