use timetrack::{Error, Project, ProjectDataSource, ProjectRef};

fn name_of(p: &Option<Project>) -> String {
    p.as_ref().map(|p| p.name.clone()).unwrap_or_default()
}

#[test]
fn upsert_same_remote_id_keeps_identity() {
    let mut s = ProjectDataSource::new();
    let a = s.upsert_at("Acme".to_string(), "ext-1".to_string(), None, 100).unwrap();
    let b = s.upsert_at("Acme Corp".to_string(), "ext-1".to_string(), None, 200).unwrap();
    assert_eq!(a.ev.eid, b.ev.eid);
    assert_eq!(a.ev.vid, 0);
    assert_eq!(b.ev.vid, a.ev.vid + 1);
    assert_eq!(b.ev.vtime, 200);
    assert_eq!(s.rows.len(), 2);
}

#[test]
fn upsert_with_clock_increments_version() {
    let mut s = ProjectDataSource::new();
    let a = s.upsert("Acme".to_string(), "ext-1".to_string(), None).unwrap();
    let b = s.upsert("Acme".to_string(), "ext-1".to_string(), None).unwrap();
    assert_eq!(a.ev.eid, b.ev.eid);
    assert_eq!(b.ev.vid, a.ev.vid + 1);
    assert!(b.ev.vtime >= a.ev.vtime);
}

#[test]
fn version_time_never_goes_back() {
    let mut s = ProjectDataSource::new();
    let a = s.upsert_at("A".to_string(), "r".to_string(), None, 500).unwrap();
    let b = s.upsert_at("A".to_string(), "r".to_string(), None, 300).unwrap();
    assert_eq!(a.ev.vtime, 500);
    assert_eq!(b.ev.vtime, 500);
    assert_eq!(b.ev.vid, 1);
}

#[test]
fn distinct_remote_ids_get_distinct_entities() {
    let mut s = ProjectDataSource::new();
    let a = s.upsert_at("A".to_string(), "r1".to_string(), None, 1).unwrap();
    let b = s.upsert_at("B".to_string(), "r2".to_string(), None, 2).unwrap();
    assert_eq!(a.ev.eid, 1);
    assert_eq!(b.ev.eid, 2);
    assert_eq!(s.next_eid, 3);
}

#[test]
fn as_of_reads_version_in_force() {
    let mut s = ProjectDataSource::new();
    s.upsert_at("v0".to_string(), "r".to_string(), None, 10).unwrap();
    s.upsert_at("v1".to_string(), "r".to_string(), None, 20).unwrap();
    s.upsert_at("v2".to_string(), "r".to_string(), None, 30).unwrap();
    let e = ProjectRef::EId(1);
    assert!(s.get(&e, Some(9)).is_none());
    assert_eq!(name_of(&s.get(&e, Some(10))), "v0");
    assert_eq!(name_of(&s.get(&e, Some(15))), "v0");
    assert_eq!(name_of(&s.get(&e, Some(19))), "v0");
    assert_eq!(name_of(&s.get(&e, Some(20))), "v1");
    assert_eq!(name_of(&s.get(&e, Some(29))), "v1");
    assert_eq!(name_of(&s.get(&e, Some(30))), "v2");
    assert_eq!(name_of(&s.get(&e, None)), "v2");
    assert_eq!(name_of(&s.get(&ProjectRef::RemoteId("r".to_string()), Some(25))), "v1");
    assert!(s.get(&ProjectRef::RemoteId("nope".to_string()), None).is_none());
    assert!(s.get(&ProjectRef::EId(7), None).is_none());
}

#[test]
fn get_by_version_handle_reads_entity() {
    let mut s = ProjectDataSource::new();
    let a = s.upsert_at("old".to_string(), "r".to_string(), None, 10).unwrap();
    s.upsert_at("new".to_string(), "r".to_string(), None, 20).unwrap();
    assert_eq!(name_of(&s.get(&ProjectRef::EV(a.ev), None)), "new");
}

#[test]
fn get_materialized_returns_it() {
    let s = ProjectDataSource::new();
    let mut p = s_project("x", "rx", 4);
    p.alive = false;
    let got = s.get(&ProjectRef::Obj(p.clone()), None).unwrap();
    assert_eq!(got.name, "x");
    assert_eq!(got.ev.eid, 4);
    assert!(!got.alive);
}

fn s_project(name: &str, rid: &str, eid: i64) -> Project {
    Project {
        remote_id: rid.to_string(),
        name: name.to_string(),
        parent_eid: None,
        alive: true,
        ev: timetrack::EntityVersion { eid, vid: 0, vtime: 0 },
    }
}

#[test]
fn upsert_with_missing_parent_fails() {
    let mut s = ProjectDataSource::new();
    let r = s.upsert_at("A".to_string(), "r".to_string(), Some(9), 1);
    assert_eq!(r.unwrap_err(), Error::NotFound);
    assert!(s.rows.is_empty());
}

#[test]
fn upsert_with_dead_parent_fails() {
    let mut s = ProjectDataSource::new();
    let mut dead = s_project("dead", "rd", 1);
    dead.alive = false;
    s.restore(dead).unwrap();
    let r = s.upsert_at("A".to_string(), "r".to_string(), Some(1), 1);
    assert_eq!(r.unwrap_err(), Error::NotFound);
}

#[test]
fn upsert_when_ids_are_exhausted_fails() {
    let mut s = ProjectDataSource::new();
    s.next_eid = i64::MAX;
    let r = s.upsert_at("A".to_string(), "r".to_string(), None, 1);
    assert_eq!(r.unwrap_err(), Error::StorageError);
}

#[test]
fn list_is_in_entity_order_as_of() {
    let mut s = ProjectDataSource::new();
    s.upsert_at("A".to_string(), "ra".to_string(), None, 10).unwrap();
    s.upsert_at("B".to_string(), "rb".to_string(), None, 20).unwrap();
    s.upsert_at("A2".to_string(), "ra".to_string(), None, 30).unwrap();
    let now: Vec<String> = s.list(None).iter().map(|p| p.name.clone()).collect();
    assert_eq!(now, vec!["A2", "B"]);
    let then: Vec<String> = s.list(Some(15)).iter().map(|p| p.name.clone()).collect();
    assert_eq!(then, vec!["A"]);
    assert!(s.list(Some(5)).is_empty());
}

#[test]
fn fqn_of_three_level_chain() {
    let mut s = ProjectDataSource::new();
    let a = s.upsert_at("A".to_string(), "ra".to_string(), None, 1).unwrap();
    let b = s.upsert_at("B".to_string(), "rb".to_string(), Some(a.ev.eid), 2).unwrap();
    let c = s.upsert_at("C".to_string(), "rc".to_string(), Some(b.ev.eid), 3).unwrap();
    assert_eq!(s.fqn(&ProjectRef::EId(c.ev.eid), None), "A/B/C");
    let chain: Vec<String> = s.parents(&ProjectRef::EId(c.ev.eid), None).iter().map(|p| p.name.clone()).collect();
    assert_eq!(chain, vec!["A", "B", "C"]);
}

#[test]
fn fqn_escapes_slash() {
    let mut s = ProjectDataSource::new();
    let a = s.upsert_at("x/y".to_string(), "ra".to_string(), None, 1).unwrap();
    let b = s.upsert_at("z".to_string(), "rb".to_string(), Some(a.ev.eid), 2).unwrap();
    assert_eq!(s.fqn(&ProjectRef::EId(a.ev.eid), None), "x\\/y");
    assert_eq!(s.fqn(&ProjectRef::EId(b.ev.eid), None), "x\\/y/z");
}

#[test]
fn fqn_of_unknown_project_is_empty() {
    let s = ProjectDataSource::new();
    assert_eq!(s.fqn(&ProjectRef::EId(3), None), "");
    assert!(s.parents(&ProjectRef::EId(3), None).is_empty());
}

#[test]
fn fqn_reads_names_as_of() {
    let mut s = ProjectDataSource::new();
    let a = s.upsert_at("Old".to_string(), "ra".to_string(), None, 1).unwrap();
    let b = s.upsert_at("B".to_string(), "rb".to_string(), Some(a.ev.eid), 2).unwrap();
    s.upsert_at("New".to_string(), "ra".to_string(), None, 5).unwrap();
    assert_eq!(s.fqn(&ProjectRef::EId(b.ev.eid), Some(3)), "Old/B");
    assert_eq!(s.fqn(&ProjectRef::EId(b.ev.eid), None), "New/B");
}

#[test]
fn parents_stops_at_cycle() {
    let mut s = ProjectDataSource::new();
    let a = s.upsert_at("A".to_string(), "ra".to_string(), None, 1).unwrap();
    let b = s.upsert_at("B".to_string(), "rb".to_string(), Some(a.ev.eid), 2).unwrap();
    s.upsert_at("A".to_string(), "ra".to_string(), Some(b.ev.eid), 3).unwrap();
    let chain: Vec<String> = s.parents(&ProjectRef::EId(b.ev.eid), None).iter().map(|p| p.name.clone()).collect();
    assert_eq!(chain, vec!["A", "B"]);
    assert_eq!(s.fqn(&ProjectRef::EId(a.ev.eid), None), "B/A");
}

#[test]
fn restore_accepts_chain_and_rejects_out_of_order() {
    let mut s = ProjectDataSource::new();
    let mut head = s_project("A", "ra", 5);
    head.ev.vtime = 10;
    s.restore(head).unwrap();
    assert_eq!(s.next_eid, 6);
    let mut later = s_project("A2", "ra", 5);
    later.ev.vid = 3;
    later.ev.vtime = 20;
    s.restore(later).unwrap();
    let mut stale = s_project("A3", "ra", 5);
    stale.ev.vid = 2;
    stale.ev.vtime = 30;
    assert_eq!(s.restore(stale).unwrap_err(), Error::ConstraintViolation);
    let other_id = s_project("B", "ra", 6);
    assert_eq!(s.restore(other_id).unwrap_err(), Error::ConstraintViolation);
    let mut renamed = s_project("A", "rz", 5);
    renamed.ev.vid = 4;
    renamed.ev.vtime = 30;
    assert_eq!(s.restore(renamed).unwrap_err(), Error::ConstraintViolation);
    assert_eq!(s.rows.len(), 2);
    let next = s.upsert_at("A4".to_string(), "ra".to_string(), None, 40).unwrap();
    assert_eq!(next.ev.vid, 4);
    let fresh = s.upsert_at("C".to_string(), "rc".to_string(), None, 40).unwrap();
    assert_eq!(fresh.ev.eid, 6);
}

#[test]
fn next_version_steps_one_and_keeps_time_order() {
    let cur = timetrack::EntityVersion { eid: 3, vid: 4, vtime: 100 };
    assert_eq!(timetrack::next_version(cur, 150), timetrack::EntityVersion { eid: 3, vid: 5, vtime: 150 });
    assert_eq!(timetrack::next_version(cur, 50), timetrack::EntityVersion { eid: 3, vid: 5, vtime: 100 });
}

#[test]
fn get_without_time_is_as_of_now() {
    let mut s = ProjectDataSource::new();
    s.upsert_at("now".to_string(), "r".to_string(), None, 10).unwrap();
    s.upsert_at("later".to_string(), "r".to_string(), None, i64::MAX / 2).unwrap();
    assert_eq!(name_of(&s.get(&ProjectRef::EId(1), None)), "now");
    assert_eq!(name_of(&s.get(&ProjectRef::EId(1), Some(i64::MAX / 2))), "later");
    assert_eq!(s.fqn(&ProjectRef::EId(1), None), "now");
    assert_eq!(s.list(None).len(), 1);
    s.reserve_eid(5);
    assert_eq!(s.next_eid, 6);
}
