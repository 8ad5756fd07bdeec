use timetrack::{Error, Project, ProjectRef, TimeTracker, TimeblockRef};

fn tracker_with(names: &[(&str, &str)]) -> (TimeTracker, Vec<Project>) {
    let mut t = TimeTracker::new();
    let mut ps = Vec::new();
    for (i, (name, rid)) in names.iter().enumerate() {
        ps.push(t.projects.upsert_at(name.to_string(), rid.to_string(), None, i as i64).unwrap());
    }
    (t, ps)
}

fn open_for(t: &TimeTracker, now: i64, eid: i64) -> usize {
    t.status_at(now).unwrap().open.iter().filter(|(p, _)| p.ev.eid == eid).count()
}

#[test]
fn punch_in_then_out_then_out_again() {
    let (mut t, ps) = tracker_with(&[("P", "rp")]);
    let p = &ps[0];
    assert_eq!(open_for(&t, 10, p.ev.eid), 0);
    t.punchin_at(p, 100).unwrap();
    assert_eq!(open_for(&t, 150, p.ev.eid), 1);
    t.punchout_at(Some(p), 200).unwrap();
    assert_eq!(open_for(&t, 250, p.ev.eid), 0);
    assert_eq!(t.punchout_at(Some(p), 300).unwrap_err(), Error::NoOpenTimeblock);
    assert_eq!(t.timeblocks.rows.len(), 2);
}

#[test]
fn punch_with_clock() {
    let (mut t, ps) = tracker_with(&[("P", "rp")]);
    t.punchin(&ps[0]).unwrap();
    let s = t.status().unwrap();
    assert_eq!(s.open.len(), 1);
    assert!(s.open[0].1 >= 0);
    t.punchout(None).unwrap();
    assert!(t.status().unwrap().open.is_empty());
    assert_eq!(t.punchout(None).unwrap_err(), Error::NoOpenTimeblock);
}

#[test]
fn status_reports_elapsed_time() {
    let (mut t, ps) = tracker_with(&[("A", "ra"), ("B", "rb")]);
    t.punchin_at(&ps[0], 1_000).unwrap();
    t.punchin_at(&ps[1], 4_000).unwrap();
    let s = t.status_at(10_000).unwrap();
    assert_eq!(s.open.len(), 2);
    assert_eq!(s.open[0].0.name, "A");
    assert_eq!(s.open[0].1, 9_000);
    assert_eq!(s.open[1].0.name, "B");
    assert_eq!(s.open[1].1, 6_000);
}

#[test]
fn punch_out_picks_the_given_project() {
    let (mut t, ps) = tracker_with(&[("A", "ra"), ("B", "rb")]);
    t.punchin_at(&ps[0], 10).unwrap();
    t.punchin_at(&ps[1], 20).unwrap();
    t.punchout_at(Some(&ps[1]), 30).unwrap();
    let s = t.status_at(40).unwrap();
    assert_eq!(s.open.len(), 1);
    assert_eq!(s.open[0].0.ev.eid, ps[0].ev.eid);
    t.punchout_at(None, 50).unwrap();
    assert!(t.status_at(60).unwrap().open.is_empty());
}

#[test]
fn punch_in_unknown_project_fails() {
    let (mut t, ps) = tracker_with(&[("A", "ra")]);
    let mut ghost = ps[0].clone();
    ghost.ev.eid = 77;
    assert_eq!(t.punchin_at(&ghost, 5).unwrap_err(), Error::NotFound);
    assert!(t.timeblocks.rows.is_empty());
}

#[test]
fn acme_scenario() {
    let mut t = TimeTracker::new();
    let acme = t.projects.upsert_at("Acme".to_string(), "ext-1".to_string(), None, 1_000).unwrap();
    t.punchin_at(&acme, 2_000).unwrap();
    t.punchout_at(Some(&acme), 5_000).unwrap();
    let eid = t.timeblocks.rows[0].ev.eid;
    let open = t.timeblocks.get(&TimeblockRef::EId(eid), Some(4_999)).unwrap();
    assert_eq!(open.ev.vid, 0);
    assert_eq!(open.start, 2_000);
    assert_eq!(open.end, None);
    let closed = t.timeblocks.get(&TimeblockRef::EId(eid), Some(5_000)).unwrap();
    assert_eq!(closed.ev.vid, 1);
    assert_eq!(closed.start, 2_000);
    assert_eq!(closed.end, Some(5_000));
    assert_eq!(closed.project_eid, acme.ev.eid);
    assert_eq!(t.projects.fqn(&ProjectRef::EId(closed.project_eid), None), "Acme");
}
