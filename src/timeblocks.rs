use vstd::prelude::*;

use crate::codec::{clock_now, time_or_now};
use crate::filter::TimeblockFilter;
use crate::model::{DbId, EntityVersion, Error, Project, ProjectRef, RemoteId, Timeblock, TimeblockRef, Timestamp};
use crate::projects::ProjectDataSource;
use crate::versions::{
    chains_ordered, find_latest, lemma_as_of_is_latest_visible, latest_as_of, next_version,
    visible_at, Versioned,
};

verus! {

/// No tag holds a line break, the separator of the stored tag list.
pub open spec fn tags_clean(tags: Seq<String>) -> bool {
    forall|k: int, c: int|
        0 <= k < tags.len() && 0 <= c < tags[k]@.len() ==> (#[trigger] tags[k]@[c]) != '\n'
}

/// Two time blocks that agree in every field but the tags, whose texts
/// agree, count as the same; so do two absent ones.
pub open spec fn same_block(a: Option<Timeblock>, b: Option<Timeblock>) -> bool {
    match (a, b) {
        (Some(x), Some(y)) => x.eqv(y),
        (None, None) => true,
        _ => false,
    }
}

/// The entity of the most recently stored time-block version carrying
/// remote id `rid`.
pub open spec fn block_eid_by_remote(rows: Seq<Timeblock>, rid: Seq<char>) -> Option<DbId>
    decreases rows.len(),
{
    if rows.len() == 0 {
        None
    } else if rows.last().remote_id is Some && rows.last().remote_id->0@ == rid {
        Some(rows.last().ev.eid)
    } else {
        block_eid_by_remote(rows.drop_last(), rid)
    }
}

/// Whether a search shows `t`: its project exists and the filter, if any,
/// accepts it.
pub open spec fn shown(t: Timeblock, projects: Seq<Project>, filter: Option<TimeblockFilter>) -> bool {
    &&& latest_as_of(projects, t.project_eid, None) is Some
    &&& match filter {
        Some(f) => f.admits(t, projects),
        None => true,
    }
}

/// The newest version of each time block with entity id below `hi` that a
/// search shows, in ascending entity id order.
pub open spec fn selected(
    rows: Seq<Timeblock>,
    projects: Seq<Project>,
    filter: Option<TimeblockFilter>,
    hi: int,
) -> Seq<Timeblock>
    decreases hi,
{
    if hi <= 1 {
        Seq::empty()
    } else {
        let before = selected(rows, projects, filter, hi - 1);
        match latest_as_of(rows, (hi - 1) as DbId, None) {
            Some(t) => if shown(t, projects, filter) {
                before.push(t)
            } else {
                before
            },
            None => before,
        }
    }
}

/// `latest_as_of` for every time-block entity id below `hi`, in ascending
/// id order, skipping blocks with no version visible at `when`.
pub open spec fn blocks_upto(rows: Seq<Timeblock>, hi: int, when: Option<Timestamp>) -> Seq<Timeblock>
    decreases hi,
{
    if hi <= 1 {
        Seq::empty()
    } else {
        let before = blocks_upto(rows, hi - 1, when);
        match latest_as_of(rows, (hi - 1) as DbId, when) {
            Some(t) => before.push(t),
            None => before,
        }
    }
}

/// The latest version time among `rows`.
pub open spec fn newest_time(rows: Seq<Timeblock>) -> Option<Timestamp>
    decreases rows.len(),
{
    if rows.len() == 0 {
        None
    } else {
        let t = rows.last().ev.vtime;
        match newest_time(rows.drop_last()) {
            Some(u) => Some(if u < t { t } else { u }),
            None => Some(t),
        }
    }
}

/// The fields that an upsert writes into a new time-block version.
pub open spec fn written_block(
    t: Timeblock,
    remote_id: Option<RemoteId>,
    project_eid: DbId,
    start: Timestamp,
    end: Option<Timestamp>,
    billable: bool,
    notes: Seq<char>,
    tags: Seq<String>,
    alive: bool,
    ev: EntityVersion,
) -> bool {
    &&& t.remote_id == remote_id
    &&& t.project_eid == project_eid
    &&& t.start == start
    &&& t.end == end
    &&& t.billable == billable
    &&& t.notes@ == notes
    &&& t.tags@ == tags
    &&& t.alive == alive
    &&& t.ev == ev
}

/// Each block that a search selects is the newest version of its entity,
/// has an entity id below `hi`, and is shown.
pub proof fn lemma_selected_members(
    rows: Seq<Timeblock>,
    projects: Seq<Project>,
    filter: Option<TimeblockFilter>,
    hi: int,
)
    requires
        hi <= i64::MAX,
    ensures
        forall|k: int|
            0 <= k < selected(rows, projects, filter, hi).len() ==> {
                let t = #[trigger] selected(rows, projects, filter, hi)[k];
                &&& latest_as_of(rows, t.ev.eid, None) == Some(t)
                &&& 1 <= t.ev.eid < hi
                &&& shown(t, projects, filter)
            },
    decreases hi,
{
    if hi > 1 {
        lemma_selected_members(rows, projects, filter, hi - 1);
        let before = selected(rows, projects, filter, hi - 1);
        match latest_as_of(rows, (hi - 1) as DbId, None) {
            Some(t) => {
                lemma_latest_has_eid(rows, (hi - 1) as DbId, None);
                if shown(t, projects, filter) {
                    assert forall|k: int| 0 <= k < before.len() implies before.push(t)[k] == before[k] by {}
                }
            },
            None => {},
        }
    }
}

/// The row that `latest_as_of` returns belongs to the entity asked for.
pub proof fn lemma_latest_has_eid<T: Versioned>(rows: Seq<T>, eid: DbId, when: Option<Timestamp>)
    ensures
        latest_as_of(rows, eid, when) is Some ==> latest_as_of(rows, eid, when)->0.version().eid == eid,
    decreases rows.len(),
{
    if rows.len() > 0 {
        lemma_latest_has_eid(rows.drop_last(), eid, when);
    }
}

/// A search for open blocks returns only blocks without an end, and so,
/// in a well-formed store, never a block that carries a remote id.
pub proof fn lemma_open_search_only_open(s: TimeblockDataSource, projects: Seq<Project>)
    requires
        s.wf(),
    ensures
        forall|k: int|
            0 <= k < selected(s.rows@, projects, Some(TimeblockFilter::Open(true)), s.next_eid as int).len()
                ==> {
                let t = #[trigger] selected(
                    s.rows@,
                    projects,
                    Some(TimeblockFilter::Open(true)),
                    s.next_eid as int,
                )[k];
                t.end is None && t.remote_id is None
            },
{
    let f = Some(TimeblockFilter::Open(true));
    let sel = selected(s.rows@, projects, f, s.next_eid as int);
    lemma_selected_members(s.rows@, projects, f, s.next_eid as int);
    assert forall|k: int| 0 <= k < sel.len() implies (#[trigger] sel[k]).end is None
        && sel[k].remote_id is None by {
        lemma_as_of_is_latest_visible(s.rows@, sel[k].ev.eid, None);
        let i = choose|i: int| 0 <= i < s.rows@.len() && s.rows@[i] == sel[k];
        assert(s.rows@[i] == sel[k]);
    }
}

/// How many blocks of `s` belong to project `pe`.
pub open spec fn count_for(s: Seq<Timeblock>, pe: DbId) -> nat
    decreases s.len(),
{
    if s.len() == 0 {
        0
    } else {
        count_for(s.drop_last(), pe) + if s.last().project_eid == pe {
            1nat
        } else {
            0nat
        }
    }
}

/// Appending a row `x` to the history changes, among the selected blocks of
/// project `pe`, only the entry of `x`'s entity: what it was before (`c0`)
/// is replaced by what `x` gives (`c1`).
pub proof fn lemma_selected_push(
    rows: Seq<Timeblock>,
    x: Timeblock,
    projects: Seq<Project>,
    filter: Option<TimeblockFilter>,
    hi: int,
    pe: DbId,
)
    requires
        1 <= x.ev.eid,
        hi <= i64::MAX,
    ensures
        ({
            let c0: nat = if x.ev.eid < hi && latest_as_of(rows, x.ev.eid, None) is Some && shown(
                latest_as_of(rows, x.ev.eid, None)->0,
                projects,
                filter,
            ) && latest_as_of(rows, x.ev.eid, None)->0.project_eid == pe {
                1
            } else {
                0
            };
            let c1: nat = if x.ev.eid < hi && shown(x, projects, filter) && x.project_eid == pe {
                1
            } else {
                0
            };
            count_for(selected(rows.push(x), projects, filter, hi), pe) + c0 == count_for(
                selected(rows, projects, filter, hi),
                pe,
            ) + c1
        }),
    decreases hi,
{
    let rows1 = rows.push(x);
    assert(rows1.drop_last() =~= rows);
    if hi > 1 {
        lemma_selected_push(rows, x, projects, filter, hi - 1, pe);
        let e = (hi - 1) as DbId;
        let b0 = selected(rows, projects, filter, hi - 1);
        let b1 = selected(rows1, projects, filter, hi - 1);
        match latest_as_of(rows1, e, None) {
            Some(t) => {
                if shown(t, projects, filter) {
                    assert(b1.push(t).drop_last() =~= b1);
                }
            },
            None => {},
        }
        match latest_as_of(rows, e, None) {
            Some(t) => {
                if shown(t, projects, filter) {
                    assert(b0.push(t).drop_last() =~= b0);
                }
            },
            None => {},
        }
    }
}

fn text_clean(s: &String) -> (r: bool)
    ensures
        r == forall|c: int| 0 <= c < s@.len() ==> s@[c] != '\n',
{
    let st = s.as_str();
    let n = st.unicode_len();
    let mut i: usize = 0;
    while i < n
        invariant
            n == s@.len(),
            st@ == s@,
            i <= n,
            forall|c: int| 0 <= c < i ==> s@[c] != '\n',
        decreases n - i,
    {
        if st.get_char(i) == '\n' {
            return false;
        }
        i += 1;
    }
    true
}

fn tags_are_clean(tags: &Vec<String>) -> (r: bool)
    ensures
        r == tags_clean(tags@),
{
    let mut k: usize = 0;
    while k < tags.len()
        invariant
            k <= tags.len(),
            forall|j: int, c: int|
                0 <= j < k && 0 <= c < tags@[j]@.len() ==> (#[trigger] tags@[j]@[c]) != '\n',
        decreases tags.len() - k,
    {
        if !text_clean(&tags[k]) {
            return false;
        }
        k += 1;
    }
    true
}

/// The time blocks of the ledger: every version ever written, in the order
/// in which they were written, and the next entity id to hand out.
pub struct TimeblockDataSource {
    pub rows: Vec<Timeblock>,
    pub next_eid: DbId,
}

impl TimeblockDataSource {
    /// Entity ids are in range, each entity's versions are ordered, a block
    /// with a remote id is closed, no entity carries one remote id twice, and
    /// no tag holds a line break.
    pub open spec fn wf(&self) -> bool {
        let rows = self.rows@;
        &&& 1 <= self.next_eid
        &&& forall|i: int|
            0 <= i < rows.len() ==> 1 <= (#[trigger] rows[i]).ev.eid < self.next_eid && 0
                <= rows[i].ev.vid
        &&& chains_ordered(rows)
        &&& forall|i: int| 0 <= i < rows.len() && (#[trigger] rows[i]).remote_id is Some ==> rows[i].end is Some
        &&& forall|i: int, j: int|
            0 <= i < rows.len() && 0 <= j < rows.len() && i != j && (#[trigger] rows[i]).ev.eid == (
            #[trigger] rows[j]).ev.eid && rows[i].remote_id is Some && rows[j].remote_id is Some
                ==> rows[i].remote_id->0@ != rows[j].remote_id->0@
        &&& forall|i: int| 0 <= i < rows.len() ==> tags_clean((#[trigger] rows[i]).tags@)
    }

    /// The entity that a reference names.
    pub open spec fn resolve(&self, r: TimeblockRef) -> Option<DbId> {
        match r {
            TimeblockRef::EV(ev) => Some(ev.eid),
            TimeblockRef::EId(e) => Some(e),
            TimeblockRef::RemoteId(rid) => block_eid_by_remote(self.rows@, rid@),
            TimeblockRef::Obj(t) => Some(t.ev.eid),
        }
    }

    /// What `get` returns: a materialized block is handed back as it is;
    /// any other reference reads its entity as of `when`.
    pub open spec fn lookup(&self, r: TimeblockRef, when: Option<Timestamp>) -> Option<Timeblock> {
        match r {
            TimeblockRef::Obj(t) => Some(t),
            _ => match self.resolve(r) {
                Some(e) => latest_as_of(self.rows@, e, when),
                None => None,
            },
        }
    }

    /// The stored block that an upsert through `tb` writes a new version of.
    pub open spec fn target(&self, tb: Option<TimeblockRef>) -> Option<Timeblock> {
        match tb {
            Some(r) => match self.resolve(r) {
                Some(e) => latest_as_of(self.rows@, e, None),
                None => None,
            },
            None => None,
        }
    }

    /// Whether some version of entity `e` already carries remote id `rid`.
    pub open spec fn remote_taken(&self, e: DbId, rid: Seq<char>) -> bool {
        exists|i: int|
            0 <= i < self.rows@.len() && (#[trigger] self.rows@[i]).ev.eid == e
                && self.rows@[i].remote_id is Some && self.rows@[i].remote_id->0@ == rid
    }

    /// How an upsert at time `now` takes `self` to `after` with result `r`.
    pub open spec fn upsert_post(
        &self,
        after: Self,
        projects: ProjectDataSource,
        tb: Option<TimeblockRef>,
        remote_id: Option<RemoteId>,
        project: ProjectRef,
        start: Timestamp,
        end: Option<Timestamp>,
        billable: bool,
        notes: Seq<char>,
        tags: Seq<String>,
        alive: bool,
        now: Timestamp,
        r: Result<Timeblock, Error>,
    ) -> bool {
        let rows = self.rows@;
        let unchanged = after == *self;
        let row = after.rows@.last();
        match projects.lookup(project, None) {
            None => r == Err::<Timeblock, Error>(Error::NotFound) && unchanged,
            Some(p) => if remote_id is Some && end is None {
                r == Err::<Timeblock, Error>(Error::InvariantViolation) && unchanged
            } else {
                match self.target(tb) {
                    Some(prev) => if remote_id is Some && self.remote_taken(
                        prev.ev.eid,
                        remote_id->0@,
                    ) {
                        r == Err::<Timeblock, Error>(Error::ConstraintViolation) && unchanged
                    } else if prev.ev.vid == i64::MAX {
                        r == Err::<Timeblock, Error>(Error::StorageError) && unchanged
                    } else {
                        let ev = EntityVersion {
                            eid: prev.ev.eid,
                            vid: (prev.ev.vid + 1) as DbId,
                            vtime: if now < prev.ev.vtime {
                                prev.ev.vtime
                            } else {
                                now
                            },
                        };
                        &&& after.rows@.len() == rows.len() + 1
                        &&& after.rows@.drop_last() == rows
                        &&& written_block(row, remote_id, p.ev.eid, start, end, billable, notes, tags, alive, ev)
                        &&& r is Ok && r->Ok_0.eqv(row)
                        &&& after.next_eid == self.next_eid
                    },
                    None => if self.next_eid == i64::MAX {
                        r == Err::<Timeblock, Error>(Error::StorageError) && unchanged
                    } else {
                        let ev = EntityVersion { eid: self.next_eid, vid: 0, vtime: now };
                        &&& after.rows@.len() == rows.len() + 1
                        &&& after.rows@.drop_last() == rows
                        &&& written_block(row, remote_id, p.ev.eid, start, end, billable, notes, tags, alive, ev)
                        &&& r is Ok && r->Ok_0.eqv(row)
                        &&& after.next_eid == self.next_eid + 1
                    },
                }
            },
        }
    }

    /// A store with no time blocks.
    pub fn new() -> (r: Self)
        ensures
            r.wf(),
            r.rows@.len() == 0,
            r.next_eid == 1,
    {
        TimeblockDataSource { rows: Vec::new(), next_eid: 1 }
    }

    fn find_eid_by_remote(&self, rid: &String) -> (r: Option<DbId>)
        ensures
            r == block_eid_by_remote(self.rows@, rid@),
    {
        let mut i: usize = self.rows.len();
        assert(self.rows@.subrange(0, i as int) =~= self.rows@);
        while i > 0
            invariant
                i <= self.rows.len(),
                block_eid_by_remote(self.rows@, rid@) == block_eid_by_remote(
                    self.rows@.subrange(0, i as int),
                    rid@,
                ),
            decreases i,
        {
            let ghost pre = self.rows@.subrange(0, i as int);
            assert(pre.drop_last() =~= self.rows@.subrange(0, i - 1));
            match &self.rows[i - 1].remote_id {
                Some(x) => {
                    if *x == *rid {
                        return Some(self.rows[i - 1].ev.eid);
                    }
                },
                None => {},
            }
            i -= 1;
        }
        None
    }

    fn resolve_ref(&self, r: &TimeblockRef) -> (e: Option<DbId>)
        ensures
            e == self.resolve(*r),
    {
        match r {
            TimeblockRef::EV(ev) => Some(ev.eid),
            TimeblockRef::EId(e) => Some(*e),
            TimeblockRef::RemoteId(rid) => self.find_eid_by_remote(rid),
            TimeblockRef::Obj(t) => Some(t.ev.eid),
        }
    }

    fn remote_taken_exec(&self, e: DbId, rid: &String) -> (r: bool)
        ensures
            r == self.remote_taken(e, rid@),
    {
        let mut i: usize = 0;
        while i < self.rows.len()
            invariant
                i <= self.rows.len(),
                forall|k: int|
                    0 <= k < i ==> !((#[trigger] self.rows@[k]).ev.eid == e && self.rows@[k].remote_id is Some
                        && self.rows@[k].remote_id->0@ == rid@),
            decreases self.rows.len() - i,
        {
            if self.rows[i].ev.eid == e {
                match &self.rows[i].remote_id {
                    Some(x) => {
                        if *x == *rid {
                            assert(self.rows@[i as int].ev.eid == e);
                            return true;
                        }
                    },
                    None => {},
                }
            }
            i += 1;
        }
        false
    }

    /// Reads the time block that `tb` names, as of `when` (`None`: its
    /// newest version).
    pub(crate) fn read(&self, tb: &TimeblockRef, when: Option<Timestamp>) -> (r: Option<Timeblock>)
        ensures
            same_block(r, self.lookup(*tb, when)),
    {
        match tb {
            TimeblockRef::Obj(t) => Some(t.clone()),
            _ => match self.resolve_ref(tb) {
                Some(e) => match find_latest(&self.rows, e, when) {
                    Some(i) => Some(self.rows[i].clone()),
                    None => None,
                },
                None => None,
            },
        }
    }

    /// `upsert_at` at the current time.
    pub fn upsert(
        &mut self,
        projects: &ProjectDataSource,
        tb: Option<TimeblockRef>,
        remote_id: Option<RemoteId>,
        project: ProjectRef,
        start: Timestamp,
        end: Option<Timestamp>,
        billable: bool,
        notes: String,
        tags: Vec<String>,
        alive: bool,
    ) -> (r: Result<Timeblock, Error>)
        requires
            old(self).wf(),
            tags_clean(tags@),
        ensures
            final(self).wf(),
            exists|now: Timestamp|
                old(self).upsert_post(
                    *final(self),
                    *projects,
                    tb,
                    remote_id,
                    project,
                    start,
                    end,
                    billable,
                    notes@,
                    tags@,
                    alive,
                    now,
                    r,
                ),
    {
        let now = clock_now();
        self.upsert_at(projects, tb, remote_id, project, start, end, billable, notes, tags, alive, now)
    }

    /// Whether a stored version `t` may be loaded back after the rows
    /// already held: it is well-formed on its own and continues its
    /// entity's chain (a higher version number, no earlier time, a remote
    /// id not yet carried by the entity), or starts a new entity.
    pub open spec fn restorable(&self, t: Timeblock) -> bool {
        &&& 1 <= t.ev.eid < i64::MAX
        &&& 0 <= t.ev.vid
        &&& t.remote_id is Some ==> t.end is Some
        &&& tags_clean(t.tags@)
        &&& match latest_as_of(self.rows@, t.ev.eid, None) {
            Some(q) => q.ev.vid < t.ev.vid && q.ev.vtime <= t.ev.vtime && !(t.remote_id is Some
                && self.remote_taken(t.ev.eid, t.remote_id->0@)),
            None => true,
        }
    }

    /// Loads a stored version back into the store, after those already
    /// loaded.
    pub fn restore(&mut self, t: Timeblock) -> (r: Result<(), Error>)
        requires
            old(self).wf(),
        ensures
            final(self).wf(),
            old(self).restorable(t) ==> r is Ok && final(self).rows@ == old(self).rows@.push(t)
                && final(self).next_eid == if t.ev.eid < old(self).next_eid {
                old(self).next_eid
            } else {
                (t.ev.eid + 1) as DbId
            },
            !old(self).restorable(t) ==> r == Err::<(), Error>(Error::ConstraintViolation)
                && *final(self) == *old(self),
    {
        if t.ev.eid < 1 || t.ev.eid == i64::MAX || t.ev.vid < 0 {
            return Err(Error::ConstraintViolation);
        }
        if t.remote_id.is_some() && t.end.is_none() {
            return Err(Error::ConstraintViolation);
        }
        if !tags_are_clean(&t.tags) {
            return Err(Error::ConstraintViolation);
        }
        let ghost rows = self.rows@;
        proof {
            lemma_as_of_is_latest_visible(rows, t.ev.eid, None);
        }
        match find_latest(&self.rows, t.ev.eid, None) {
            Some(i) => {
                let q = self.rows[i].ev;
                if !(q.vid < t.ev.vid && q.vtime <= t.ev.vtime) {
                    return Err(Error::ConstraintViolation);
                }
                if let Some(rid) = &t.remote_id {
                    if self.remote_taken_exec(t.ev.eid, rid) {
                        return Err(Error::ConstraintViolation);
                    }
                }
            },
            None => {},
        }
        let eid = t.ev.eid;
        self.rows.push(t);
        if eid >= self.next_eid {
            self.next_eid = eid + 1;
        }
        proof {
            let nr = self.rows@;
            let n = rows.len() as int;
            assert(nr.drop_last() =~= rows);
            assert forall|i: int| 0 <= i < rows.len() implies nr[i] == rows[i] by {}
            assert(chains_ordered(nr)) by {
                assert forall|i: int, j: int|
                    0 <= i < j < nr.len() && (#[trigger] nr[i]).version().eid == (
                    #[trigger] nr[j]).version().eid implies nr[i].version().vid
                    < nr[j].version().vid && nr[i].version().vtime <= nr[j].version().vtime by {
                    if j == n {
                        assert(visible_at(rows[i].ev, None));
                    }
                }
            }
            assert forall|i: int, j: int|
                0 <= i < nr.len() && 0 <= j < nr.len() && i != j && (#[trigger] nr[i]).ev.eid == (
                #[trigger] nr[j]).ev.eid && nr[i].remote_id is Some && nr[j].remote_id is Some implies nr[i].remote_id->0@
                != nr[j].remote_id->0@ by {
                if i == n {
                    assert(nr[j] == rows[j]);
                }
                if j == n {
                    assert(nr[i] == rows[i]);
                }
            }
        }
        Ok(())
    }

    /// The time of the latest version ever written, if any.
    pub fn last_sync(&self) -> (r: Option<Timestamp>)
        ensures
            r == newest_time(self.rows@),
    {
        let mut best: Option<Timestamp> = None;
        let mut i: usize = 0;
        while i < self.rows.len()
            invariant
                i <= self.rows.len(),
                best == newest_time(self.rows@.subrange(0, i as int)),
            decreases self.rows.len() - i,
        {
            let ghost pre = self.rows@.subrange(0, i + 1);
            assert(pre.drop_last() =~= self.rows@.subrange(0, i as int));
            let t = self.rows[i].ev.vtime;
            best = match best {
                Some(u) => Some(if u < t { t } else { u }),
                None => Some(t),
            };
            i += 1;
        }
        assert(self.rows@.subrange(0, self.rows.len() as int) =~= self.rows@);
        best
    }

    /// The newest version of every time block as of `when` (`None`:
    /// without a time bound), in ascending entity id order.
    fn read_list(&self, when: Option<Timestamp>) -> (r: Vec<Timeblock>)
        requires
            self.wf(),
        ensures
            r@.len() == blocks_upto(self.rows@, self.next_eid as int, when).len(),
            forall|k: int|
                0 <= k < r@.len() ==> (#[trigger] r@[k]).eqv(
                    blocks_upto(self.rows@, self.next_eid as int, when)[k],
                ),
    {
        let mut out: Vec<Timeblock> = Vec::new();
        let mut e: DbId = 1;
        while e < self.next_eid
            invariant
                1 <= e <= self.next_eid,
                out@.len() == blocks_upto(self.rows@, e as int, when).len(),
                forall|k: int|
                    0 <= k < out@.len() ==> (#[trigger] out@[k]).eqv(
                        blocks_upto(self.rows@, e as int, when)[k],
                    ),
            decreases self.next_eid - e,
        {
            if let Some(i) = find_latest(&self.rows, e, when) {
                out.push(self.rows[i].clone());
            }
            e = e + 1;
        }
        out
    }

    /// The newest version of every time block whose project exists and
    /// that `filter` accepts (every one when there is none), in ascending
    /// entity id order.
    pub(crate) fn select(&self, projects: &ProjectDataSource, filter: Option<TimeblockFilter>) -> (r: Vec<
        Timeblock,
    >)
        requires
            self.wf(),
        ensures
            r@.len() == selected(self.rows@, projects.rows@, filter, self.next_eid as int).len(),
            forall|k: int|
                0 <= k < r@.len() ==> (#[trigger] r@[k]).eqv(
                    selected(self.rows@, projects.rows@, filter, self.next_eid as int)[k],
                ),
    {
        let mut out: Vec<Timeblock> = Vec::new();
        let mut e: DbId = 1;
        while e < self.next_eid
            invariant
                1 <= e <= self.next_eid,
                out@.len() == selected(self.rows@, projects.rows@, filter, e as int).len(),
                forall|k: int|
                    0 <= k < out@.len() ==> (#[trigger] out@[k]).eqv(
                        selected(self.rows@, projects.rows@, filter, e as int)[k],
                    ),
            decreases self.next_eid - e,
        {
            if let Some(i) = find_latest(&self.rows, e, None) {
                let t = &self.rows[i];
                let joined = find_latest(&projects.rows, t.project_eid, None).is_some();
                let ok = joined && match &filter {
                    Some(f) => f.accepts(t, projects),
                    None => true,
                };
                if ok {
                    out.push(t.clone());
                }
            }
            e = e + 1;
        }
        out
    }
    /// Reads the time block that `tb` names as of `when`, or as of now when
    /// no time is given.
    pub fn get(&self, tb: &TimeblockRef, when: Option<Timestamp>) -> (r: Option<Timeblock>)
        ensures
            match when {
                Some(_) => same_block(r, self.lookup(*tb, when)),
                None => exists|now: Timestamp| 0 <= now && same_block(r, self.lookup(*tb, Some(now))),
            },
    {
        let t = time_or_now(when);
        self.read(tb, Some(t))
    }

    /// The version of every time block as of `when` (or now), in ascending
    /// entity id order.
    pub fn list(&self, when: Option<Timestamp>) -> (r: Vec<Timeblock>)
        requires
            self.wf(),
        ensures
            exists|t: Timestamp|
                (when is Some ==> t == when->0) && (when is None ==> 0 <= t) && r@.len()
                    == blocks_upto(self.rows@, self.next_eid as int, Some(t)).len() && forall|k: int|
                    0 <= k < r@.len() ==> (#[trigger] r@[k]).eqv(
                        blocks_upto(self.rows@, self.next_eid as int, Some(t))[k],
                    ),
    {
        let t = time_or_now(when);
        self.read_list(Some(t))
    }

    /// The newest version of every time block whose project exists and
    /// that `filter` accepts, in ascending entity id order. Without a filter
    /// the search is as of now: the blocks whose newest version was written
    /// by the current time.
    pub fn search(&self, projects: &ProjectDataSource, filter: Option<TimeblockFilter>) -> (r: Vec<
        Timeblock,
    >)
        requires
            self.wf(),
        ensures
            exists|f: TimeblockFilter|
                (filter is Some ==> f == filter->0) && (filter is None ==> exists|now: Timestamp|
                    0 <= now && f == TimeblockFilter::AtTime(now)) && r@.len() == selected(
                    self.rows@,
                    projects.rows@,
                    Some(f),
                    self.next_eid as int,
                ).len() && forall|k: int|
                    0 <= k < r@.len() ==> (#[trigger] r@[k]).eqv(
                        selected(self.rows@, projects.rows@, Some(f), self.next_eid as int)[k],
                    ),
    {
        let f = match filter {
            Some(f) => f,
            None => TimeblockFilter::AtTime(clock_now()),
        };
        self.select(projects, Some(f))
    }

    /// Raises the next entity id to hand out above `taken`, an id already
    /// used elsewhere; it never lowers it.
    pub fn reserve_eid(&mut self, taken: DbId)
        requires
            old(self).wf(),
        ensures
            final(self).wf(),
            final(self).rows@ == old(self).rows@,
            final(self).next_eid == if old(self).next_eid <= taken < i64::MAX {
                (taken + 1) as DbId
            } else {
                old(self).next_eid
            },
    {
        if self.next_eid <= taken && taken < i64::MAX {
            self.next_eid = taken + 1;
        }
    }

    /// Writes a version of a time block at time `now`: a new version of the
    /// stored block that `tb` names, or a new block when `tb` is absent or
    /// names none. The project must resolve, and a block with a remote id
    /// must have an end.
    pub fn upsert_at(
        &mut self,
        projects: &ProjectDataSource,
        tb: Option<TimeblockRef>,
        remote_id: Option<RemoteId>,
        project: ProjectRef,
        start: Timestamp,
        end: Option<Timestamp>,
        billable: bool,
        notes: String,
        tags: Vec<String>,
        alive: bool,
        now: Timestamp,
    ) -> (r: Result<Timeblock, Error>)
        requires
            old(self).wf(),
            tags_clean(tags@),
        ensures
            final(self).wf(),
            old(self).upsert_post(
                *final(self),
                *projects,
                tb,
                remote_id,
                project,
                start,
                end,
                billable,
                notes@,
                tags@,
                alive,
                now,
                r,
            ),
    {
        let proj = match projects.read(&project, None) {
            Some(p) => p,
            None => {
                return Err(Error::NotFound);
            },
        };
        if remote_id.is_some() && end.is_none() {
            return Err(Error::InvariantViolation);
        }
        let target_eid = match &tb {
            Some(r) => self.resolve_ref(r),
            None => None,
        };
        let target = match target_eid {
            Some(e) => find_latest(&self.rows, e, None),
            None => None,
        };
        let ghost rows = self.rows@;
        match target {
            Some(i) => {
                let prev = self.rows[i].ev;
                if let Some(rid) = &remote_id {
                    if self.remote_taken_exec(prev.eid, rid) {
                        return Err(Error::ConstraintViolation);
                    }
                }
                if prev.vid == i64::MAX {
                    return Err(Error::StorageError);
                }
                proof {
                    lemma_as_of_is_latest_visible(rows, target_eid->0, None);
                }
                let ev = next_version(prev, now);
                let t = Timeblock {
                    remote_id,
                    project_eid: proj.ev.eid,
                    start,
                    end,
                    billable,
                    notes,
                    tags,
                    alive,
                    ev,
                };
                let out = t.clone();
                self.rows.push(t);
                proof {
                    let nr = self.rows@;
                    let n = rows.len() as int;
                    assert(nr.drop_last() =~= rows);
                    assert forall|i: int| 0 <= i < rows.len() implies nr[i] == rows[i] by {}
                    assert(chains_ordered(nr)) by {
                        assert forall|i: int, j: int|
                            0 <= i < j < nr.len() && (#[trigger] nr[i]).version().eid == (
                            #[trigger] nr[j]).version().eid implies nr[i].version().vid
                            < nr[j].version().vid && nr[i].version().vtime
                            <= nr[j].version().vtime by {
                            if j == n {
                                assert(visible_at(rows[i].ev, None));
                            }
                        }
                    }
                    assert forall|i: int, j: int|
                        0 <= i < nr.len() && 0 <= j < nr.len() && i != j && (#[trigger] nr[i]).ev.eid
                            == (#[trigger] nr[j]).ev.eid && nr[i].remote_id is Some
                            && nr[j].remote_id is Some implies nr[i].remote_id->0@
                        != nr[j].remote_id->0@ by {
                        if i == n {
                            assert(nr[j] == rows[j]);
                        }
                        if j == n {
                            assert(nr[i] == rows[i]);
                        }
                    }
                }
                Ok(out)
            },
            None => {
                if self.next_eid == i64::MAX {
                    return Err(Error::StorageError);
                }
                let ev = EntityVersion { eid: self.next_eid, vid: 0, vtime: now };
                let t = Timeblock {
                    remote_id,
                    project_eid: proj.ev.eid,
                    start,
                    end,
                    billable,
                    notes,
                    tags,
                    alive,
                    ev,
                };
                let out = t.clone();
                self.rows.push(t);
                self.next_eid = self.next_eid + 1;
                proof {
                    let nr = self.rows@;
                    let n = rows.len() as int;
                    assert(nr.drop_last() =~= rows);
                    assert forall|i: int| 0 <= i < rows.len() implies nr[i] == rows[i] by {}
                    assert(chains_ordered(nr)) by {
                        assert forall|i: int, j: int|
                            0 <= i < j < nr.len() && (#[trigger] nr[i]).version().eid == (
                            #[trigger] nr[j]).version().eid implies nr[i].version().vid
                            < nr[j].version().vid && nr[i].version().vtime
                            <= nr[j].version().vtime by {
                            if j == n {
                                assert(rows[i].ev.eid < ev.eid);
                            }
                        }
                    }
                    assert forall|i: int, j: int|
                        0 <= i < nr.len() && 0 <= j < nr.len() && i != j && (#[trigger] nr[i]).ev.eid
                            == (#[trigger] nr[j]).ev.eid && nr[i].remote_id is Some
                            && nr[j].remote_id is Some implies nr[i].remote_id->0@
                        != nr[j].remote_id->0@ by {
                        if i == n {
                            assert(nr[j] == rows[j]);
                        }
                        if j == n {
                            assert(nr[i] == rows[i]);
                        }
                    }
                }
                Ok(out)
            },
        }
    }
}

/// Two upserts in a row on one time block (the second naming the block
/// that the first wrote) write two versions of one entity: the second's
/// version number is the first's plus one, and its version time is no
/// earlier than the first's.
pub proof fn lemma_block_upserts_extend_one_chain(
    s0: TimeblockDataSource,
    s1: TimeblockDataSource,
    s2: TimeblockDataSource,
    projects: ProjectDataSource,
    tb1: Option<TimeblockRef>,
    remote_id1: Option<RemoteId>,
    project1: ProjectRef,
    start1: Timestamp,
    end1: Option<Timestamp>,
    billable1: bool,
    notes1: Seq<char>,
    tags1: Seq<String>,
    alive1: bool,
    now1: Timestamp,
    r1: Result<Timeblock, Error>,
    remote_id2: Option<RemoteId>,
    project2: ProjectRef,
    start2: Timestamp,
    end2: Option<Timestamp>,
    billable2: bool,
    notes2: Seq<char>,
    tags2: Seq<String>,
    alive2: bool,
    now2: Timestamp,
    r2: Result<Timeblock, Error>,
)
    requires
        s0.wf(),
        s0.upsert_post(s1, projects, tb1, remote_id1, project1, start1, end1, billable1, notes1, tags1, alive1, now1, r1),
        r1 is Ok,
        s1.upsert_post(
            s2,
            projects,
            Some(TimeblockRef::EId(r1->Ok_0.ev.eid)),
            remote_id2,
            project2,
            start2,
            end2,
            billable2,
            notes2,
            tags2,
            alive2,
            now2,
            r2,
        ),
        r2 is Ok,
    ensures
        r2->Ok_0.ev.eid == r1->Ok_0.ev.eid,
        r2->Ok_0.ev.vid == r1->Ok_0.ev.vid + 1,
        r1->Ok_0.ev.vtime <= r2->Ok_0.ev.vtime,
{
    let row1 = s1.rows@.last();
    assert(s1.rows@ == s1.rows@.drop_last().push(row1));
    assert(latest_as_of(s1.rows@, row1.ev.eid, None) == Some(row1));
}

} // verus!
