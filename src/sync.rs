use vstd::prelude::*;

use crate::model::{Error, Project, ProjectRef, Timeblock, TimeblockRef, Timestamp};
use crate::projects::project_eid_by_remote;
use crate::timeblocks::block_eid_by_remote;
use crate::tracker::TimeTracker;
use crate::versions::latest_as_of;

verus! {

/// Milliseconds in an hour.
pub const HOUR_MS: i128 = 3600000;

/// Milliseconds in a minute.
pub const MINUTE_MS: i128 = 60000;

/// A time entry as the remote service reports it.
pub struct TimeEntry {
    pub id: String,
    pub project_id: String,
    pub task_id: String,
    pub start: Timestamp,
    pub hours: Option<i64>,
    pub minutes: Option<i64>,
    pub billable: String,
}

/// The local remote id of the remote project `id`.
pub open spec fn project_key(id: Seq<char>) -> Seq<char> {
    "/projects/"@ + id
}

/// The local remote id of the remote task `id`.
pub open spec fn task_key(id: Seq<char>) -> Seq<char> {
    "/tasks/"@ + id
}

/// What a time entry is booked on: its task when it names one, else its
/// project.
pub open spec fn entry_key(task_id: Seq<char>, project_id: Seq<char>) -> Seq<char> {
    if task_id.len() > 0 {
        task_key(task_id)
    } else {
        project_key(project_id)
    }
}

/// When a time entry ends: its start plus its hours and minutes, when both
/// are given and the result is a representable instant.
pub open spec fn entry_end_spec(start: Timestamp, hours: Option<i64>, minutes: Option<i64>) -> Option<
    Timestamp,
> {
    match (hours, minutes) {
        (Some(h), Some(m)) => {
            let e = start + h * HOUR_MS + m * MINUTE_MS;
            if i64::MIN <= e <= i64::MAX {
                Some(e as Timestamp)
            } else {
                None
            }
        },
        _ => None,
    }
}

/// The local remote id of the remote project `id`.
pub fn remote_project_id(id: &str) -> (r: String)
    ensures
        r@ == project_key(id@),
{
    let mut s = String::from_str("/projects/");
    s.append(id);
    s
}

/// The local remote id of the remote task `id`.
pub fn remote_task_id(id: &str) -> (r: String)
    ensures
        r@ == task_key(id@),
{
    let mut s = String::from_str("/tasks/");
    s.append(id);
    s
}

/// Whether the remote service's billable flag is set.
pub fn entry_billable(flag: &String) -> (r: bool)
    ensures
        r == (flag@ == "True"@),
{
    *flag == String::from_str("True")
}

/// When a time entry ends.
pub fn entry_end(start: Timestamp, hours: Option<i64>, minutes: Option<i64>) -> (r: Option<Timestamp>)
    ensures
        r == entry_end_spec(start, hours, minutes),
{
    match (hours, minutes) {
        (Some(h), Some(m)) => {
            let e: i128 = start as i128 + h as i128 * HOUR_MS + m as i128 * MINUTE_MS;
            if i64::MIN as i128 <= e && e <= i64::MAX as i128 {
                Some(e as i64)
            } else {
                None
            }
        },
        _ => None,
    }
}

impl TimeTracker {
    /// How recording `entry` at time `now` takes `self` to `after` with
    /// result `r`: an entry already recorded changes nothing and gives back
    /// its block; any other is written as a new block.
    pub open spec fn entry_post(
        &self,
        after: Self,
        entry: TimeEntry,
        now: Timestamp,
        r: Result<Timeblock, Error>,
    ) -> bool {
        let known = self.timeblocks.lookup(TimeblockRef::RemoteId(entry.id), None);
        &&& after.projects == self.projects
        &&& known is Some ==> {
            &&& r is Ok
            &&& r->Ok_0.eqv(known->0)
            &&& after == *self
        }
        &&& known is None ==> exists|p: ProjectRef|
            p is RemoteId && p->RemoteId_0@ == entry_key(entry.task_id@, entry.project_id@)
                && self.timeblocks.upsert_post(
                after.timeblocks,
                self.projects,
                None,
                Some(entry.id),
                p,
                entry.start,
                entry_end_spec(entry.start, entry.hours, entry.minutes),
                entry.billable@ == "True"@,
                Seq::empty(),
                Seq::empty(),
                true,
                now,
                r,
            )
    }

    /// Records, at time `now`, the remote project `id` named `name`.
    pub fn sync_project_at(&mut self, name: String, id: &str, now: Timestamp) -> (r: Result<
        Project,
        Error,
    >)
        requires
            old(self).wf(),
        ensures
            final(self).wf(),
            final(self).timeblocks == old(self).timeblocks,
            old(self).projects.upsert_post(final(self).projects, name@, project_key(id@), None, now, r),
    {
        let rid = remote_project_id(id);
        self.projects.upsert_at(name, rid, None, now)
    }

    /// Records, at time `now`, the remote task `id` named `name` as a
    /// project under the project of remote project `project_id`, which must
    /// be known.
    pub fn sync_task_at(&mut self, name: String, id: &str, project_id: &str, now: Timestamp) -> (r:
        Result<Project, Error>)
        requires
            old(self).wf(),
        ensures
            final(self).wf(),
            final(self).timeblocks == old(self).timeblocks,
            match project_eid_by_remote(old(self).projects.rows@, project_key(project_id@)) {
                Some(e) => match latest_as_of(old(self).projects.rows@, e, None) {
                    Some(parent) => old(self).projects.upsert_post(
                        final(self).projects,
                        name@,
                        task_key(id@),
                        Some(parent.ev.eid),
                        now,
                        r,
                    ),
                    None => r == Err::<Project, Error>(Error::NotFound) && *final(self) == *old(self),
                },
                None => r == Err::<Project, Error>(Error::NotFound) && *final(self) == *old(self),
            },
    {
        let pref = ProjectRef::RemoteId(remote_project_id(project_id));
        match self.projects.read(&pref, None) {
            Some(parent) => {
                let rid = remote_task_id(id);
                self.projects.upsert_at(name, rid, Some(parent.ev.eid), now)
            },
            None => Err(Error::NotFound),
        }
    }

    /// Records, at time `now`, a time entry of the remote service as a new
    /// closed time block of the task (or project) it is booked on. An entry
    /// already recorded (a block carries its id as remote id) is not written
    /// again: that block is returned and nothing changes.
    pub fn sync_time_entry_at(&mut self, entry: TimeEntry, now: Timestamp) -> (r: Result<
        Timeblock,
        Error,
    >)
        requires
            old(self).wf(),
        ensures
            final(self).wf(),
            old(self).entry_post(*final(self), entry, now, r),
    {
        let known = TimeblockRef::RemoteId(entry.id.clone());
        if let Some(t) = self.timeblocks.read(&known, None) {
            return Ok(t);
        }
        let key = if entry.task_id.as_str().unicode_len() > 0 {
            remote_task_id(entry.task_id.as_str())
        } else {
            remote_project_id(entry.project_id.as_str())
        };
        let pref = ProjectRef::RemoteId(key);
        let end = entry_end(entry.start, entry.hours, entry.minutes);
        let billable = entry_billable(&entry.billable);
        self.timeblocks.upsert_at(
            &self.projects,
            None,
            Some(entry.id),
            pref,
            entry.start,
            end,
            billable,
            String::new(),
            Vec::new(),
            true,
            now,
        )
    }
}

/// Recording the same remote time entry twice writes it once: the second
/// call changes nothing and returns the block of the first, so exactly one
/// entity carries the entry's id.
pub proof fn lemma_entry_recorded_once(
    s0: TimeTracker,
    s1: TimeTracker,
    s2: TimeTracker,
    entry: TimeEntry,
    now1: Timestamp,
    now2: Timestamp,
    r1: Result<Timeblock, Error>,
    r2: Result<Timeblock, Error>,
)
    requires
        s0.wf(),
        s0.entry_post(s1, entry, now1, r1),
        r1 is Ok,
        s1.entry_post(s2, entry, now2, r2),
    ensures
        s2 == s1,
        r2 is Ok,
        r2->Ok_0.ev.eid == r1->Ok_0.ev.eid,
{
    let k0 = s0.timeblocks.lookup(TimeblockRef::RemoteId(entry.id), None);
    if k0 is None {
        let p = choose|p: ProjectRef|
            p is RemoteId && p->RemoteId_0@ == entry_key(entry.task_id@, entry.project_id@)
                && s0.timeblocks.upsert_post(
                s1.timeblocks,
                s0.projects,
                None,
                Some(entry.id),
                p,
                entry.start,
                entry_end_spec(entry.start, entry.hours, entry.minutes),
                entry.billable@ == "True"@,
                Seq::empty(),
                Seq::empty(),
                true,
                now1,
                r1,
            );
        let rows1 = s1.timeblocks.rows@;
        let row = rows1.last();
        assert(rows1 == rows1.drop_last().push(row));
        assert(row.remote_id == Some(entry.id));
        assert(block_eid_by_remote(rows1, entry.id@) == Some(row.ev.eid));
        assert(latest_as_of(rows1, row.ev.eid, None) == Some(row));
    }
}

} // verus!
