use vstd::prelude::*;

use crate::codec::clock_now;
use crate::filter::TimeblockFilter;
use crate::model::{DbId, EntityVersion, Error, Project, ProjectRef, Timeblock, TimeblockRef, Timestamp};
use crate::projects::ProjectDataSource;
use crate::timeblocks::{
    count_for, lemma_latest_has_eid, lemma_selected_members, lemma_selected_push, selected, shown,
    written_block, TimeblockDataSource,
};
use crate::versions::{latest_as_of, lemma_as_of_is_latest_visible};

verus! {

/// The position of the first block in `s` that belongs to project `pe`
/// (of the first block at all when `pe` is absent).
pub open spec fn first_index(s: Seq<Timeblock>, pe: Option<DbId>) -> Option<int>
    decreases s.len(),
{
    if s.len() == 0 {
        None
    } else {
        match first_index(s.drop_last(), pe) {
            Some(k) => Some(k),
            None => if pe is None || s.last().project_eid == pe->0 {
                Some(s.len() - 1)
            } else {
                None
            },
        }
    }
}

proof fn lemma_first_index_prefix(s: Seq<Timeblock>, n: int, pe: Option<DbId>)
    requires
        0 <= n <= s.len(),
        first_index(s.subrange(0, n), pe) is Some,
    ensures
        first_index(s, pe) == first_index(s.subrange(0, n), pe),
    decreases s.len(),
{
    if n == s.len() {
        assert(s.subrange(0, n) =~= s);
    } else {
        assert(s.drop_last().subrange(0, n) =~= s.subrange(0, n));
        lemma_first_index_prefix(s.drop_last(), n, pe);
    }
}

proof fn lemma_first_index_same(a: Seq<Timeblock>, b: Seq<Timeblock>, pe: Option<DbId>)
    requires
        a.len() == b.len(),
        forall|k: int| 0 <= k < a.len() ==> (#[trigger] a[k]).project_eid == b[k].project_eid,
    ensures
        first_index(a, pe) == first_index(b, pe),
    decreases a.len(),
{
    if a.len() > 0 {
        assert forall|k: int| 0 <= k < a.len() - 1 implies (#[trigger] a.drop_last()[k]).project_eid
            == b.drop_last()[k].project_eid by {
            assert(a.drop_last()[k] == a[k] && b.drop_last()[k] == b[k]);
        }
        lemma_first_index_same(a.drop_last(), b.drop_last(), pe);
    }
}

proof fn lemma_first_index_count(s: Seq<Timeblock>, pe: DbId)
    ensures
        first_index(s, Some(pe)) is Some ==> {
            let k = first_index(s, Some(pe))->0;
            0 <= k < s.len() && s[k].project_eid == pe && count_for(s, pe) > 0
        },
        first_index(s, Some(pe)) is None ==> count_for(s, pe) == 0,
    decreases s.len(),
{
    if s.len() > 0 {
        lemma_first_index_count(s.drop_last(), pe);
        if first_index(s.drop_last(), Some(pe)) is Some {
            let k = first_index(s.drop_last(), Some(pe))->0;
            assert(s.drop_last()[k] == s[k]);
        }
    }
}

fn first_matching(open: &Vec<Timeblock>, pe: Option<DbId>) -> (r: Option<usize>)
    ensures
        match r {
            Some(k) => k < open.len() && first_index(open@, pe) == Some(k as int),
            None => first_index(open@, pe) is None,
        },
{
    let mut k: usize = 0;
    assert(open@.subrange(0, 0).len() == 0);
    while k < open.len()
        invariant
            k <= open.len(),
            first_index(open@.subrange(0, k as int), pe) is None,
        decreases open.len() - k,
    {
        let ghost pre = open@.subrange(0, k + 1);
        assert(pre.drop_last() =~= open@.subrange(0, k as int));
        let hit = match pe {
            Some(e) => open[k].project_eid == e,
            None => true,
        };
        if hit {
            proof {
                lemma_first_index_prefix(open@, k + 1, pe);
            }
            return Some(k);
        }
        k += 1;
    }
    assert(open@.subrange(0, open.len() as int) =~= open@);
    None
}

/// The entity id of a project, if one is given.
pub open spec fn eid_of(proj: Option<&Project>) -> Option<DbId> {
    match proj {
        Some(p) => Some(p.ev.eid),
        None => None,
    }
}

/// What is open now: each open time block's project, with the time elapsed
/// since the block started, in milliseconds.
pub struct Status {
    pub open: Vec<(Project, i128)>,
}

/// Punching in and out of projects, over a ledger of projects and time
/// blocks.
pub struct TimeTracker {
    pub projects: ProjectDataSource,
    pub timeblocks: TimeblockDataSource,
}

impl TimeTracker {
    pub open spec fn wf(&self) -> bool {
        self.projects.wf() && self.timeblocks.wf()
    }

    /// The newest version of every open time block whose project exists,
    /// in ascending entity id order.
    pub open spec fn open_blocks(&self) -> Seq<Timeblock> {
        selected(
            self.timeblocks.rows@,
            self.projects.rows@,
            Some(TimeblockFilter::Open(true)),
            self.timeblocks.next_eid as int,
        )
    }

    /// What `status_at(now)` returns: for each open block, its project as
    /// of now and `now - start`.
    pub open spec fn status_post(&self, now: Timestamp, r: Result<Status, Error>) -> bool {
        let open = self.open_blocks();
        &&& r is Ok
        &&& r->Ok_0.open@.len() == open.len()
        &&& forall|k: int|
            0 <= k < open.len() ==> {
                let e = #[trigger] r->Ok_0.open@[k];
                &&& latest_as_of(self.projects.rows@, open[k].project_eid, None) == Some(e.0)
                &&& e.1 == now - open[k].start
            }
    }

    /// How `punchin_at(proj, now)` takes `self` to `after`: a new open
    /// block of the project starting at `now`, with no notes or tags.
    pub open spec fn punchin_post(
        &self,
        after: Self,
        proj: Project,
        now: Timestamp,
        r: Result<(), Error>,
    ) -> bool {
        let rows = self.timeblocks.rows@;
        let next = self.timeblocks.next_eid;
        let unchanged = after == *self;
        match latest_as_of(self.projects.rows@, proj.ev.eid, None) {
            None => r == Err::<(), Error>(Error::NotFound) && unchanged,
            Some(_) => if next == i64::MAX {
                r == Err::<(), Error>(Error::StorageError) && unchanged
            } else {
                &&& r == Ok::<(), Error>(())
                &&& after.projects == self.projects
                &&& after.timeblocks.rows@.len() == rows.len() + 1
                &&& after.timeblocks.rows@.drop_last() == rows
                &&& written_block(
                    after.timeblocks.rows@.last(),
                    None,
                    proj.ev.eid,
                    now,
                    None,
                    false,
                    Seq::empty(),
                    Seq::empty(),
                    true,
                    EntityVersion { eid: next, vid: 0, vtime: now },
                )
                &&& after.timeblocks.next_eid == next + 1
            },
        }
    }

    /// How `punchout_at(proj, now)` takes `self` to `after`, where `pe` is
    /// the entity id of `proj`: the first open block (of that project, when
    /// given) gets a new version that ends at `now`.
    pub open spec fn punchout_post(
        &self,
        after: Self,
        pe: Option<DbId>,
        now: Timestamp,
        r: Result<(), Error>,
    ) -> bool {
        let rows = self.timeblocks.rows@;
        let open = self.open_blocks();
        let unchanged = after == *self;
        match first_index(open, pe) {
            None => r == Err::<(), Error>(Error::NoOpenTimeblock) && unchanged,
            Some(k) => {
                let tb = open[k];
                if tb.ev.vid == i64::MAX {
                    r == Err::<(), Error>(Error::StorageError) && unchanged
                } else {
                    let ev = EntityVersion {
                        eid: tb.ev.eid,
                        vid: (tb.ev.vid + 1) as DbId,
                        vtime: if now < tb.ev.vtime {
                            tb.ev.vtime
                        } else {
                            now
                        },
                    };
                    &&& r == Ok::<(), Error>(())
                    &&& after.projects == self.projects
                    &&& after.timeblocks.rows@.len() == rows.len() + 1
                    &&& after.timeblocks.rows@.drop_last() == rows
                    &&& written_block(
                        after.timeblocks.rows@.last(),
                        tb.remote_id,
                        tb.project_eid,
                        tb.start,
                        Some(now),
                        tb.billable,
                        tb.notes@,
                        tb.tags@,
                        tb.alive,
                        ev,
                    )
                    &&& after.timeblocks.next_eid == self.timeblocks.next_eid
                }
            },
        }
    }

    /// A tracker over an empty ledger.
    pub fn new() -> (r: Self)
        ensures
            r.wf(),
            r.projects.rows@.len() == 0,
            r.timeblocks.rows@.len() == 0,
    {
        TimeTracker { projects: ProjectDataSource::new(), timeblocks: TimeblockDataSource::new() }
    }

    /// The open time blocks at time `now`.
    pub fn status_at(&self, now: Timestamp) -> (r: Result<Status, Error>)
        requires
            self.wf(),
        ensures
            self.status_post(now, r),
    {
        let open = self.timeblocks.select(&self.projects, Some(TimeblockFilter::Open(true)));
        let ghost sel = self.open_blocks();
        proof {
            lemma_selected_members(
                self.timeblocks.rows@,
                self.projects.rows@,
                Some(TimeblockFilter::Open(true)),
                self.timeblocks.next_eid as int,
            );
        }
        let mut entries: Vec<(Project, i128)> = Vec::new();
        let mut i: usize = 0;
        while i < open.len()
            invariant
                i <= open.len(),
                open@.len() == sel.len(),
                forall|k: int| 0 <= k < open@.len() ==> (#[trigger] open@[k]).eqv(sel[k]),
                forall|k: int| 0 <= k < sel.len() ==> shown(#[trigger] sel[k], self.projects.rows@, Some(TimeblockFilter::Open(true))),
                entries@.len() == i,
                forall|k: int|
                    0 <= k < i ==> {
                        let e = #[trigger] entries@[k];
                        &&& latest_as_of(self.projects.rows@, sel[k].project_eid, None) == Some(e.0)
                        &&& e.1 == now - sel[k].start
                    },
            decreases open.len() - i,
        {
            let tb = &open[i];
            assert(tb.eqv(sel[i as int]));
            match self.projects.read(&ProjectRef::EId(tb.project_eid), None) {
                Some(p) => {
                    entries.push((p, now as i128 - tb.start as i128));
                },
                None => {
                    assert(shown(sel[i as int], self.projects.rows@, Some(TimeblockFilter::Open(true))));
                    return Err(Error::NotFound);
                },
            }
            i += 1;
        }
        Ok(Status { open: entries })
    }

    /// The open time blocks now.
    pub fn status(&self) -> (r: Result<Status, Error>)
        requires
            self.wf(),
        ensures
            exists|now: Timestamp| self.status_post(now, r),
    {
        let now = clock_now();
        self.status_at(now)
    }

    /// Opens a time block of `proj` starting at `now`.
    pub fn punchin_at(&mut self, proj: &Project, now: Timestamp) -> (r: Result<(), Error>)
        requires
            old(self).wf(),
        ensures
            final(self).wf(),
            old(self).punchin_post(*final(self), *proj, now, r),
    {
        proof {
            lemma_latest_has_eid(self.projects.rows@, proj.ev.eid, None);
        }
        match self.timeblocks.upsert_at(
            &self.projects,
            None,
            None,
            ProjectRef::EId(proj.ev.eid),
            now,
            None,
            false,
            String::new(),
            Vec::new(),
            true,
            now,
        ) {
            Ok(_) => Ok(()),
            Err(e) => Err(e),
        }
    }

    /// Opens a time block of `proj` starting now.
    pub fn punchin(&mut self, proj: &Project) -> (r: Result<(), Error>)
        requires
            old(self).wf(),
        ensures
            final(self).wf(),
            exists|now: Timestamp| old(self).punchin_post(*final(self), *proj, now, r),
    {
        let now = clock_now();
        self.punchin_at(proj, now)
    }

    /// Closes at `now` the first open time block of `proj`, or the first
    /// open block of any project when `proj` is absent.
    pub fn punchout_at(&mut self, proj: Option<&Project>, now: Timestamp) -> (r: Result<(), Error>)
        requires
            old(self).wf(),
        ensures
            final(self).wf(),
            old(self).punchout_post(*final(self), eid_of(proj), now, r),
    {
        let open = self.timeblocks.select(&self.projects, Some(TimeblockFilter::Open(true)));
        let ghost sel = self.open_blocks();
        let pe: Option<DbId> = match proj {
            Some(p) => Some(p.ev.eid),
            None => None,
        };
        proof {
            lemma_first_index_same(open@, sel, pe);
        }
        let k = match first_matching(&open, pe) {
            Some(k) => k,
            None => {
                return Err(Error::NoOpenTimeblock);
            },
        };
        let c = open[k].clone();
        proof {
            lemma_selected_members(
                self.timeblocks.rows@,
                self.projects.rows@,
                Some(TimeblockFilter::Open(true)),
                self.timeblocks.next_eid as int,
            );
            assert(c.eqv(sel[k as int]));
            lemma_as_of_is_latest_visible(self.timeblocks.rows@, c.ev.eid, None);
            lemma_latest_has_eid(self.projects.rows@, c.project_eid, None);
        }
        if c.ev.vid == i64::MAX {
            return Err(Error::StorageError);
        }
        match self.timeblocks.upsert_at(
            &self.projects,
            Some(TimeblockRef::EId(c.ev.eid)),
            c.remote_id,
            ProjectRef::EId(c.project_eid),
            c.start,
            Some(now),
            c.billable,
            c.notes,
            c.tags,
            c.alive,
            now,
        ) {
            Ok(_) => Ok(()),
            Err(e) => Err(e),
        }
    }

    /// Closes now the first open time block of `proj`, or the first open
    /// block of any project when `proj` is absent.
    pub fn punchout(&mut self, proj: Option<&Project>) -> (r: Result<(), Error>)
        requires
            old(self).wf(),
        ensures
            final(self).wf(),
            exists|now: Timestamp| old(self).punchout_post(*final(self), eid_of(proj), now, r),
    {
        let now = clock_now();
        self.punchout_at(proj, now)
    }
}

/// How many entries of a status belong to project `pe`.
pub open spec fn entries_for(s: Seq<(Project, i128)>, pe: DbId) -> nat
    decreases s.len(),
{
    if s.len() == 0 {
        0
    } else {
        entries_for(s.drop_last(), pe) + if s.last().0.ev.eid == pe {
            1nat
        } else {
            0nat
        }
    }
}

proof fn lemma_entries_match(a: Seq<(Project, i128)>, b: Seq<Timeblock>, pe: DbId)
    requires
        a.len() == b.len(),
        forall|k: int| 0 <= k < a.len() ==> (#[trigger] a[k]).0.ev.eid == b[k].project_eid,
    ensures
        entries_for(a, pe) == count_for(b, pe),
    decreases a.len(),
{
    if a.len() > 0 {
        assert forall|k: int| 0 <= k < a.len() - 1 implies (#[trigger] a.drop_last()[k]).0.ev.eid
            == b.drop_last()[k].project_eid by {
            assert(a.drop_last()[k] == a[k] && b.drop_last()[k] == b[k]);
        }
        lemma_entries_match(a.drop_last(), b.drop_last(), pe);
        assert(a.last() == a[a.len() - 1] && b.last() == b[b.len() - 1]);
    }
}

/// A status lists, for each project, as many entries as the project has
/// open time blocks.
pub proof fn lemma_status_counts(s: TimeTracker, now: Timestamp, r: Result<Status, Error>, pe: DbId)
    requires
        s.wf(),
        s.status_post(now, r),
    ensures
        entries_for(r->Ok_0.open@, pe) == count_for(s.open_blocks(), pe),
{
    let a = r->Ok_0.open@;
    let b = s.open_blocks();
    assert forall|k: int| 0 <= k < a.len() implies (#[trigger] a[k]).0.ev.eid == b[k].project_eid by {
        lemma_latest_has_eid(s.projects.rows@, b[k].project_eid, None);
    }
    lemma_entries_match(a, b, pe);
}

/// Punching in to a project that has no open time block leaves exactly one
/// open block of that project.
pub proof fn lemma_punch_in_opens_one(
    s0: TimeTracker,
    s1: TimeTracker,
    proj: Project,
    now: Timestamp,
    r: Result<(), Error>,
)
    requires
        s0.wf(),
        count_for(s0.open_blocks(), proj.ev.eid) == 0,
        s0.punchin_post(s1, proj, now, r),
        r is Ok,
    ensures
        count_for(s1.open_blocks(), proj.ev.eid) == 1,
{
    let rows0 = s0.timeblocks.rows@;
    let rows1 = s1.timeblocks.rows@;
    let x = rows1.last();
    let next0 = s0.timeblocks.next_eid;
    let f = Some(TimeblockFilter::Open(true));
    let prows = s0.projects.rows@;
    assert(rows1 =~= rows0.push(x));
    lemma_selected_push(rows0, x, prows, f, next0 as int, proj.ev.eid);
    assert(rows1.drop_last() =~= rows0);
    assert(latest_as_of(rows1, next0, None) == Some(x));
    assert(shown(x, prows, f));
    let b = selected(rows1, prows, f, next0 as int);
    assert(s1.open_blocks() == b.push(x));
    assert(b.push(x).drop_last() =~= b);
}

/// Punching out of a project that has exactly one open time block leaves
/// it with none.
pub proof fn lemma_punch_out_closes_it(
    s0: TimeTracker,
    s1: TimeTracker,
    proj: Project,
    now: Timestamp,
    r: Result<(), Error>,
)
    requires
        s0.wf(),
        count_for(s0.open_blocks(), proj.ev.eid) == 1,
        s0.punchout_post(s1, Some(proj.ev.eid), now, r),
        r is Ok,
    ensures
        count_for(s1.open_blocks(), proj.ev.eid) == 0,
{
    let rows0 = s0.timeblocks.rows@;
    let rows1 = s1.timeblocks.rows@;
    let x = rows1.last();
    let next0 = s0.timeblocks.next_eid;
    let f = Some(TimeblockFilter::Open(true));
    let prows = s0.projects.rows@;
    let open0 = s0.open_blocks();
    lemma_first_index_count(open0, proj.ev.eid);
    lemma_selected_members(rows0, prows, f, next0 as int);
    let k = first_index(open0, Some(proj.ev.eid))->0;
    let tb = open0[k];
    assert(rows1 =~= rows0.push(x));
    assert(!shown(x, prows, f));
    lemma_selected_push(rows0, x, prows, f, next0 as int, proj.ev.eid);
}

/// Punching out of a project that has no open time block fails with
/// `NoOpenTimeblock` and changes nothing; so punching out twice in a row
/// of a project that had one open block fails the second time.
pub proof fn lemma_punch_out_without_open_fails(
    s0: TimeTracker,
    s1: TimeTracker,
    proj: Project,
    now: Timestamp,
    r: Result<(), Error>,
)
    requires
        s0.wf(),
        count_for(s0.open_blocks(), proj.ev.eid) == 0,
        s0.punchout_post(s1, Some(proj.ev.eid), now, r),
    ensures
        r == Err::<(), Error>(Error::NoOpenTimeblock),
        s1 == s0,
{
    lemma_first_index_count(s0.open_blocks(), proj.ev.eid);
}

} // verus!
