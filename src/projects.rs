use vstd::prelude::*;

use crate::codec::{clock_now, time_or_now};
use crate::model::{DbId, EntityVersion, Error, Project, ProjectRef, RemoteId, Timestamp};
use crate::versions::{
    chains_ordered, find_latest, lemma_as_of_is_latest_visible, latest_as_of, next_version,
    visible_at, Versioned,
};

verus! {

/// The entity of the most recently stored project version carrying `rid`.
pub open spec fn project_eid_by_remote(rows: Seq<Project>, rid: Seq<char>) -> Option<DbId>
    decreases rows.len(),
{
    if rows.len() == 0 {
        None
    } else if rows.last().remote_id@ == rid {
        Some(rows.last().ev.eid)
    } else {
        project_eid_by_remote(rows.drop_last(), rid)
    }
}

/// `latest_as_of` for every entity id below `hi`, in ascending id order,
/// skipping entities with no visible version.
pub open spec fn listed_upto(rows: Seq<Project>, hi: int, when: Option<Timestamp>) -> Seq<Project>
    decreases hi,
{
    if hi <= 1 {
        Seq::empty()
    } else {
        let before = listed_upto(rows, hi - 1, when);
        match latest_as_of(rows, (hi - 1) as DbId, when) {
            Some(p) => before.push(p),
            None => before,
        }
    }
}

/// The version of the project with entity id `e`, as of now, if that
/// project exists and is alive.
pub open spec fn live_as_of_now(rows: Seq<Project>, e: DbId) -> bool {
    match latest_as_of(rows, e, None) {
        Some(p) => p.alive,
        None => false,
    }
}

/// The fields that an upsert writes into a new project version.
pub open spec fn written_project(
    p: Project,
    name: Seq<char>,
    rid: Seq<char>,
    parent: Option<DbId>,
    ev: EntityVersion,
) -> bool {
    &&& p.name@ == name
    &&& p.remote_id@ == rid
    &&& p.parent_eid == parent
    &&& p.alive
    &&& p.ev == ev
}

proof fn lemma_eid_by_remote(rows: Seq<Project>, rid: Seq<char>)
    ensures
        match project_eid_by_remote(rows, rid) {
            Some(e) => exists|k: int|
                0 <= k < rows.len() && (#[trigger] rows[k]).ev.eid == e && rows[k].remote_id@ == rid,
            None => forall|k: int| 0 <= k < rows.len() ==> (#[trigger] rows[k]).remote_id@ != rid,
        },
    decreases rows.len(),
{
    if rows.len() > 0 {
        let init = rows.drop_last();
        lemma_eid_by_remote(init, rid);
        if rows.last().remote_id@ == rid {
            assert(rows[rows.len() - 1] == rows.last());
        } else {
            match project_eid_by_remote(init, rid) {
                Some(e) => {
                    let k = choose|k: int|
                        0 <= k < init.len() && (#[trigger] init[k]).ev.eid == e && init[k].remote_id@
                            == rid;
                    assert(rows[k] == init[k]);
                },
                None => {
                    assert forall|k: int| 0 <= k < rows.len() implies (
                    #[trigger] rows[k]).remote_id@ != rid by {
                        if k < rows.len() - 1 {
                            assert(rows[k] == init[k]);
                        }
                    }
                },
            }
        }
    }
}

/// A name with each `/` written as `\\/`.
pub open spec fn escaped(s: Seq<char>) -> Seq<char>
    decreases s.len(),
{
    if s.len() == 0 {
        Seq::empty()
    } else {
        escaped(s.drop_last()) + if s.last() == '/' {
            seq!['\\', '/']
        } else {
            seq![s.last()]
        }
    }
}

/// The escaped names of a chain of projects, joined with `/`.
pub open spec fn joined_path(chain: Seq<Project>) -> Seq<char>
    decreases chain.len(),
{
    if chain.len() == 0 {
        Seq::empty()
    } else if chain.len() == 1 {
        escaped(chain[0].name@)
    } else {
        joined_path(chain.drop_last()) + seq!['/'] + escaped(chain.last().name@)
    }
}

fn holds_id(v: &Vec<DbId>, e: DbId) -> (r: bool)
    ensures
        r == v@.contains(e),
{
    let mut i: usize = 0;
    while i < v.len()
        invariant
            i <= v.len(),
            forall|k: int| 0 <= k < i ==> v@[k] != e,
        decreases v.len() - i,
    {
        if v[i] == e {
            assert(v@[i as int] == e);
            return true;
        }
        i += 1;
    }
    false
}

fn reversed(v: Vec<Project>) -> (r: Vec<Project>)
    ensures
        r@ == v@.reverse(),
{
    let ghost orig = v@;
    let n = v.len();
    let mut rest = v;
    let mut out: Vec<Project> = Vec::new();
    while rest.len() > 0
        invariant
            out.len() + rest.len() == n,
            n == orig.len(),
            rest@ == orig.subrange(0, rest.len() as int),
            forall|k: int| 0 <= k < out.len() ==> out@[k] == orig[n - 1 - k],
        decreases rest.len(),
    {
        let p = rest.pop().unwrap();
        assert(rest@ =~= orig.subrange(0, rest.len() as int));
        out.push(p);
    }
    assert(out@ =~= orig.reverse());
    out
}

fn escape_name(s: &String) -> (r: String)
    ensures
        r@ == escaped(s@),
{
    let st = s.as_str();
    let n = st.unicode_len();
    let mut out = String::new();
    let mut i: usize = 0;
    proof {
        reveal_strlit("\\/");
        assert(s@.subrange(0, 0) =~= Seq::<char>::empty());
    }
    while i < n
        invariant
            n == s@.len(),
            st@ == s@,
            i <= n,
            out@ == escaped(s@.subrange(0, i as int)),
        decreases n - i,
    {
        let c = st.get_char(i);
        let ghost pre = s@.subrange(0, i + 1);
        assert(pre.drop_last() =~= s@.subrange(0, i as int));
        assert(pre.last() == c);
        if c == '/' {
            proof {
                reveal_strlit("\\/");
            }
            out.append("\\/");
            assert("\\/"@ =~= seq!['\\', '/']);
        } else {
            let one = st.substring_char(i, i + 1);
            assert(one@ =~= seq![c]);
            out.append(one);
        }
        i += 1;
    }
    assert(s@.subrange(0, n as int) =~= s@);
    out
}

/// The projects of the ledger: every version ever written, in the order in
/// which they were written, and the next entity id to hand out.
pub struct ProjectDataSource {
    pub rows: Vec<Project>,
    pub next_eid: DbId,
}

impl ProjectDataSource {
    /// Entity ids are in range, each entity's versions are ordered, and a
    /// remote id belongs to exactly one entity.
    pub open spec fn wf(&self) -> bool {
        let rows = self.rows@;
        &&& 1 <= self.next_eid
        &&& forall|i: int|
            0 <= i < rows.len() ==> 1 <= (#[trigger] rows[i]).ev.eid < self.next_eid && 0
                <= rows[i].ev.vid
        &&& chains_ordered(rows)
        &&& forall|i: int, j: int|
            0 <= i < rows.len() && 0 <= j < rows.len() ==> ((#[trigger] rows[i]).remote_id@ == (
            #[trigger] rows[j]).remote_id@ <==> rows[i].ev.eid == rows[j].ev.eid)
    }

    /// The entity that a reference names.
    pub open spec fn resolve(&self, r: ProjectRef) -> Option<DbId> {
        match r {
            ProjectRef::EV(ev) => Some(ev.eid),
            ProjectRef::EId(e) => Some(e),
            ProjectRef::RemoteId(rid) => project_eid_by_remote(self.rows@, rid@),
            ProjectRef::Obj(p) => Some(p.ev.eid),
        }
    }

    /// What `get` returns: a materialized project is handed back as it is;
    /// any other reference reads its entity as of `when`.
    pub open spec fn lookup(&self, r: ProjectRef, when: Option<Timestamp>) -> Option<Project> {
        match r {
            ProjectRef::Obj(p) => Some(p),
            _ => match self.resolve(r) {
                Some(e) => latest_as_of(self.rows@, e, when),
                None => None,
            },
        }
    }

    /// How an upsert of `(name, rid, parent)` at time `now` takes `self`
    /// to `after` with result `r`.
    pub open spec fn upsert_post(
        &self,
        after: Self,
        name: Seq<char>,
        rid: Seq<char>,
        parent: Option<DbId>,
        now: Timestamp,
        r: Result<Project, Error>,
    ) -> bool {
        let rows = self.rows@;
        let unchanged = after == *self;
        let parent_ok = match parent {
            Some(e) => live_as_of_now(rows, e),
            None => true,
        };
        if !parent_ok {
            r == Err::<Project, Error>(Error::NotFound) && unchanged
        } else {
            match project_eid_by_remote(rows, rid) {
                Some(e) => match latest_as_of(rows, e, None) {
                    Some(prev) => if prev.ev.vid == i64::MAX {
                        r == Err::<Project, Error>(Error::StorageError) && unchanged
                    } else {
                        let ev = EntityVersion {
                            eid: e,
                            vid: (prev.ev.vid + 1) as DbId,
                            vtime: if now < prev.ev.vtime {
                                prev.ev.vtime
                            } else {
                                now
                            },
                        };
                        &&& r is Ok
                        &&& written_project(r->Ok_0, name, rid, parent, ev)
                        &&& after.rows@ == rows.push(r->Ok_0)
                        &&& after.next_eid == self.next_eid
                    },
                    None => r == Err::<Project, Error>(Error::NotFound) && unchanged,
                },
                None => if self.next_eid == i64::MAX {
                    r == Err::<Project, Error>(Error::StorageError) && unchanged
                } else {
                    let ev = EntityVersion { eid: self.next_eid, vid: 0, vtime: now };
                    &&& r is Ok
                    &&& written_project(r->Ok_0, name, rid, parent, ev)
                    &&& after.rows@ == rows.push(r->Ok_0)
                    &&& after.next_eid == self.next_eid + 1
                },
            }
        }
    }

    /// A store with no projects.
    pub fn new() -> (r: Self)
        ensures
            r.wf(),
            r.rows@.len() == 0,
            r.next_eid == 1,
    {
        ProjectDataSource { rows: Vec::new(), next_eid: 1 }
    }

    fn find_eid_by_remote(&self, rid: &String) -> (r: Option<DbId>)
        ensures
            r == project_eid_by_remote(self.rows@, rid@),
    {
        let mut i: usize = self.rows.len();
        assert(self.rows@.subrange(0, i as int) =~= self.rows@);
        while i > 0
            invariant
                i <= self.rows.len(),
                project_eid_by_remote(self.rows@, rid@) == project_eid_by_remote(
                    self.rows@.subrange(0, i as int),
                    rid@,
                ),
            decreases i,
        {
            let ghost pre = self.rows@.subrange(0, i as int);
            assert(pre.drop_last() =~= self.rows@.subrange(0, i - 1));
            if self.rows[i - 1].remote_id == *rid {
                return Some(self.rows[i - 1].ev.eid);
            }
            i -= 1;
        }
        None
    }

    fn latest(&self, eid: DbId, when: Option<Timestamp>) -> (r: Option<Project>)
        ensures
            r == latest_as_of(self.rows@, eid, when),
    {
        match find_latest(&self.rows, eid, when) {
            Some(i) => Some(self.rows[i].clone()),
            None => None,
        }
    }

    /// Reads the project that `proj` names, as of `when` (`None`: its
    /// newest version).
    pub(crate) fn read(&self, proj: &ProjectRef, when: Option<Timestamp>) -> (r: Option<Project>)
        ensures
            r == self.lookup(*proj, when),
    {
        match proj {
            ProjectRef::Obj(p) => Some(p.clone()),
            ProjectRef::EV(ev) => self.latest(ev.eid, when),
            ProjectRef::EId(e) => self.latest(*e, when),
            ProjectRef::RemoteId(rid) => match self.find_eid_by_remote(rid) {
                Some(e) => self.latest(e, when),
                None => None,
            },
        }
    }
    /// Writes a new version of the project with remote id `remote_id` at
    /// time `now`, or creates the project when no entity carries that remote
    /// id. A parent must name a live project.
    pub fn upsert_at(
        &mut self,
        name: String,
        remote_id: RemoteId,
        parent_eid: Option<DbId>,
        now: Timestamp,
    ) -> (r: Result<Project, Error>)
        requires
            old(self).wf(),
        ensures
            final(self).wf(),
            old(self).upsert_post(*final(self), name@, remote_id@, parent_eid, now, r),
    {
        if let Some(e) = parent_eid {
            match self.latest(e, None) {
                Some(p) => {
                    if !p.alive {
                        return Err(Error::NotFound);
                    }
                },
                None => {
                    return Err(Error::NotFound);
                },
            }
        }
        let ghost rows = self.rows@;
        proof {
            lemma_eid_by_remote(rows, remote_id@);
        }
        match self.find_eid_by_remote(&remote_id) {
            Some(e) => {
                match self.latest(e, None) {
                    None => Err(Error::NotFound),
                    Some(prev) => {
                        if prev.ev.vid == i64::MAX {
                            return Err(Error::StorageError);
                        }
                        proof {
                            lemma_as_of_is_latest_visible(rows, e, None);
                        }
                        let ev = next_version(prev.ev, now);
                        let p = Project { remote_id, name, parent_eid, alive: true, ev };
                        self.rows.push(p.clone());
                        proof {
                            let k = choose|k: int|
                                0 <= k < rows.len() && (#[trigger] rows[k]).ev.eid == e
                                    && rows[k].remote_id@ == p.remote_id@;
                            let nr = self.rows@;
                            assert(nr[rows.len() as int] == p);
                            assert forall|i: int| 0 <= i < rows.len() implies nr[i] == rows[i] by {}
                            assert(chains_ordered(nr)) by {
                                assert forall|i: int, j: int|
                                    0 <= i < j < nr.len() && (#[trigger] nr[i]).version().eid == (
                                    #[trigger] nr[j]).version().eid implies nr[i].version().vid
                                    < nr[j].version().vid && nr[i].version().vtime
                                    <= nr[j].version().vtime by {
                                    if j == rows.len() {
                                        assert(visible_at(rows[i].ev, None));
                                    }
                                }
                            }
                            assert forall|i: int, j: int|
                                0 <= i < nr.len() && 0 <= j < nr.len() implies ((
                            #[trigger] nr[i]).remote_id@ == (#[trigger] nr[j]).remote_id@
                                <==> nr[i].ev.eid == nr[j].ev.eid) by {
                                if i < rows.len() {
                                    assert(rows[i].remote_id@ == rows[k].remote_id@ <==> rows[i].ev.eid
                                        == rows[k].ev.eid);
                                }
                                if j < rows.len() {
                                    assert(rows[j].remote_id@ == rows[k].remote_id@ <==> rows[j].ev.eid
                                        == rows[k].ev.eid);
                                }
                            }
                        }
                        Ok(p)
                    },
                }
            },
            None => {
                if self.next_eid == i64::MAX {
                    return Err(Error::StorageError);
                }
                let ev = EntityVersion { eid: self.next_eid, vid: 0, vtime: now };
                let p = Project { remote_id, name, parent_eid, alive: true, ev };
                self.rows.push(p.clone());
                self.next_eid = self.next_eid + 1;
                proof {
                    let nr = self.rows@;
                    assert(nr[rows.len() as int] == p);
                    assert forall|i: int| 0 <= i < rows.len() implies nr[i] == rows[i] by {}
                    assert(chains_ordered(nr)) by {
                        assert forall|i: int, j: int|
                            0 <= i < j < nr.len() && (#[trigger] nr[i]).version().eid == (
                            #[trigger] nr[j]).version().eid implies nr[i].version().vid
                            < nr[j].version().vid && nr[i].version().vtime
                            <= nr[j].version().vtime by {
                            if j == rows.len() {
                                assert(rows[i].ev.eid < p.ev.eid);
                            }
                        }
                    }
                }
                Ok(p)
            },
        }
    }
    /// `upsert_at` at the current time.
    pub fn upsert(&mut self, name: String, remote_id: RemoteId, parent_eid: Option<DbId>) -> (r:
        Result<Project, Error>)
        requires
            old(self).wf(),
        ensures
            final(self).wf(),
            exists|now: Timestamp|
                old(self).upsert_post(*final(self), name@, remote_id@, parent_eid, now, r),
    {
        let now = clock_now();
        self.upsert_at(name, remote_id, parent_eid, now)
    }

    /// Whether a stored version `p` may be loaded back after the rows
    /// already held: it continues its entity's chain (a higher version
    /// number, no earlier time, the same remote id), or starts a new entity
    /// whose remote id is not taken.
    pub open spec fn restorable(&self, p: Project) -> bool {
        &&& 1 <= p.ev.eid < i64::MAX
        &&& 0 <= p.ev.vid
        &&& match latest_as_of(self.rows@, p.ev.eid, None) {
            Some(q) => q.ev.vid < p.ev.vid && q.ev.vtime <= p.ev.vtime && q.remote_id@ == p.remote_id@,
            None => project_eid_by_remote(self.rows@, p.remote_id@) is None,
        }
    }

    /// Loads a stored version back into the store, after those already
    /// loaded.
    pub fn restore(&mut self, p: Project) -> (r: Result<(), Error>)
        requires
            old(self).wf(),
        ensures
            final(self).wf(),
            old(self).restorable(p) ==> r is Ok && final(self).rows@ == old(self).rows@.push(p)
                && final(self).next_eid == if p.ev.eid < old(self).next_eid {
                old(self).next_eid
            } else {
                (p.ev.eid + 1) as DbId
            },
            !old(self).restorable(p) ==> r == Err::<(), Error>(Error::ConstraintViolation)
                && *final(self) == *old(self),
    {
        if p.ev.eid < 1 || p.ev.eid == i64::MAX || p.ev.vid < 0 {
            return Err(Error::ConstraintViolation);
        }
        let ghost rows = self.rows@;
        proof {
            lemma_eid_by_remote(rows, p.remote_id@);
            lemma_as_of_is_latest_visible(rows, p.ev.eid, None);
        }
        match self.latest(p.ev.eid, None) {
            Some(q) => {
                if !(q.ev.vid < p.ev.vid && q.ev.vtime <= p.ev.vtime && q.remote_id == p.remote_id) {
                    return Err(Error::ConstraintViolation);
                }
                proof {
                    let k = choose|k: int| 0 <= k < rows.len() && rows[k] == q;
                    assert(rows[k] == q);
                }
            },
            None => {
                if self.find_eid_by_remote(&p.remote_id).is_some() {
                    return Err(Error::ConstraintViolation);
                }
            },
        }
        let eid = p.ev.eid;
        self.rows.push(p);
        if eid >= self.next_eid {
            self.next_eid = eid + 1;
        }
        proof {
            let nr = self.rows@;
            let n = rows.len() as int;
            assert(nr[n] == p);
            assert forall|i: int| 0 <= i < rows.len() implies nr[i] == rows[i] by {}
            assert(chains_ordered(nr)) by {
                assert forall|i: int, j: int|
                    0 <= i < j < nr.len() && (#[trigger] nr[i]).version().eid == (
                    #[trigger] nr[j]).version().eid implies nr[i].version().vid
                    < nr[j].version().vid && nr[i].version().vtime <= nr[j].version().vtime by {
                    if j == n {
                        assert(visible_at(rows[i].ev, None));
                    }
                }
            }
            assert forall|i: int, j: int|
                0 <= i < nr.len() && 0 <= j < nr.len() implies ((#[trigger] nr[i]).remote_id@ == (
            #[trigger] nr[j]).remote_id@ <==> nr[i].ev.eid == nr[j].ev.eid) by {
                if latest_as_of(rows, p.ev.eid, None) is Some {
                    let q = latest_as_of(rows, p.ev.eid, None)->0;
                    let k = choose|k: int| 0 <= k < rows.len() && rows[k] == q;
                    if i < n {
                        assert(rows[i].remote_id@ == rows[k].remote_id@ <==> rows[i].ev.eid
                            == rows[k].ev.eid);
                    }
                    if j < n {
                        assert(rows[j].remote_id@ == rows[k].remote_id@ <==> rows[j].ev.eid
                            == rows[k].ev.eid);
                    }
                }
            }
        }
        Ok(())
    }

    /// The newest version of every project as of `when` (`None`: without
    /// a time bound), in ascending entity id order.
    fn read_list(&self, when: Option<Timestamp>) -> (r: Vec<Project>)
        requires
            self.wf(),
        ensures
            r@ == listed_upto(self.rows@, self.next_eid as int, when),
    {
        let mut out: Vec<Project> = Vec::new();
        let mut e: DbId = 1;
        while e < self.next_eid
            invariant
                1 <= e <= self.next_eid,
                out@ == listed_upto(self.rows@, e as int, when),
            decreases self.next_eid - e,
        {
            if let Some(p) = self.latest(e, when) {
                out.push(p);
            }
            e = e + 1;
        }
        out
    }
    /// The walk from `p` up through its parents, `p` first, as of `when`:
    /// it stops at a project without a parent, at a parent that cannot be
    /// read as of `when`, at an entity already visited (`seen`), or after
    /// `fuel` steps.
    pub open spec fn ancestry(
        &self,
        p: Project,
        when: Option<Timestamp>,
        seen: Seq<DbId>,
        fuel: nat,
    ) -> Seq<Project>
        decreases fuel,
    {
        if fuel == 0 {
            seq![p]
        } else {
            match p.parent_eid {
                None => seq![p],
                Some(e) => if seen.contains(e) {
                    seq![p]
                } else {
                    match latest_as_of(self.rows@, e, when) {
                        Some(q) => seq![p] + self.ancestry(q, when, seen.push(e), (fuel - 1) as nat),
                        None => seq![p],
                    }
                },
            }
        }
    }

    /// What `parents` returns: the chain from the root down to the project
    /// that `r` names, as of `when`; empty when it names none.
    pub open spec fn chain(&self, r: ProjectRef, when: Option<Timestamp>) -> Seq<Project> {
        match self.lookup(r, when) {
            Some(p) => self.ancestry(p, when, seq![p.ev.eid], self.rows@.len()).reverse(),
            None => Seq::empty(),
        }
    }

    /// The chain of projects from the root down to the project that `proj`
    /// names, each read as of `when` (`None`: without a time bound). A cycle
    /// of parents is cut where it would come back to a project already in
    /// the chain.
    fn read_parents(&self, proj: &ProjectRef, when: Option<Timestamp>) -> (r: Vec<Project>)
        ensures
            r@ == self.chain(*proj, when),
    {
        let start = match self.read(proj, when) {
            Some(p) => p,
            None => {
                return Vec::new();
            },
        };
        let ghost total = self.ancestry(start, when, seq![start.ev.eid], self.rows@.len() as nat);
        let mut walk: Vec<Project> = Vec::new();
        let mut seen: Vec<DbId> = Vec::new();
        seen.push(start.ev.eid);
        assert(seen@ =~= seq![start.ev.eid]);
        let mut cur = start;
        let mut fuel: usize = self.rows.len();
        loop
            invariant_except_break
                total == walk@ + self.ancestry(cur, when, seen@, fuel as nat),
            ensures
                total == walk@,
            decreases fuel,
        {
            let next = if fuel == 0 {
                None
            } else {
                match cur.parent_eid {
                    None => None,
                    Some(e) => {
                        if holds_id(&seen, e) {
                            None
                        } else {
                            match self.latest(e, when) {
                                Some(q) => Some((e, q)),
                                None => None,
                            }
                        }
                    },
                }
            };
            match next {
                None => {
                    let ghost w = walk@;
                    walk.push(cur);
                    assert(walk@ =~= w + seq![cur]);
                    break ;
                },
                Some((e, q)) => {
                    let ghost w = walk@;
                    let ghost c = cur;
                    let ghost s0 = seen@;
                    assert(c.parent_eid == Some(e) && !s0.contains(e) && fuel > 0);
                    assert(self.ancestry(c, when, s0, fuel as nat) == seq![c] + self.ancestry(
                        q,
                        when,
                        s0.push(e),
                        (fuel - 1) as nat,
                    ));
                    walk.push(cur);
                    seen.push(e);
                    cur = q;
                    fuel = fuel - 1;
                    assert(walk@ =~= w + seq![c]);
                    assert(w + seq![c] + self.ancestry(cur, when, seen@, fuel as nat) =~= walk@
                        + self.ancestry(cur, when, seen@, fuel as nat));
                },
            }
        }
        reversed(walk)
    }

    /// The escaped names of `read_parents(proj, when)`, joined with `/`.
    fn read_fqn(&self, proj: &ProjectRef, when: Option<Timestamp>) -> (r: String)
        ensures
            r@ == joined_path(self.chain(*proj, when)),
    {
        let chain = self.read_parents(proj, when);
        let mut out = String::new();
        let mut i: usize = 0;
        proof {
            reveal_strlit("/");
        }
        while i < chain.len()
            invariant
                i <= chain.len(),
                out@ == joined_path(chain@.subrange(0, i as int)),
            decreases chain.len() - i,
        {
            let ghost pre = chain@.subrange(0, i + 1);
            assert(pre.drop_last() =~= chain@.subrange(0, i as int));
            if i > 0 {
                out.append("/");
            }
            let esc = escape_name(&chain[i].name);
            out.append(esc.as_str());
            assert(pre.last() == chain@[i as int]);
            if i == 0 {
                assert(pre[0] == chain@[0]);
                assert(out@ =~= joined_path(pre));
            } else {
                proof {
                    reveal_strlit("/");
                }
                assert(out@ =~= joined_path(pre));
            }
            i += 1;
        }
        assert(chain@.subrange(0, chain.len() as int) =~= chain@);
        out
    }
    /// Reads the project that `proj` names as of `when`, or as of now when
    /// no time is given: among its versions written by then, the one with
    /// the highest version number.
    pub fn get(&self, proj: &ProjectRef, when: Option<Timestamp>) -> (r: Option<Project>)
        ensures
            match when {
                Some(_) => r == self.lookup(*proj, when),
                None => exists|now: Timestamp| 0 <= now && r == self.lookup(*proj, Some(now)),
            },
    {
        let t = time_or_now(when);
        self.read(proj, Some(t))
    }

    /// The version of every project as of `when` (or now), in ascending
    /// entity id order.
    pub fn list(&self, when: Option<Timestamp>) -> (r: Vec<Project>)
        requires
            self.wf(),
        ensures
            match when {
                Some(_) => r@ == listed_upto(self.rows@, self.next_eid as int, when),
                None => exists|now: Timestamp|
                    0 <= now && r@ == listed_upto(self.rows@, self.next_eid as int, Some(now)),
            },
    {
        let t = time_or_now(when);
        self.read_list(Some(t))
    }

    /// The chain of projects from the root down to the project that `proj`
    /// names, each read as of `when` (or now). A cycle of parents is cut
    /// where it would come back to a project already in the chain.
    pub fn parents(&self, proj: &ProjectRef, when: Option<Timestamp>) -> (r: Vec<Project>)
        ensures
            match when {
                Some(_) => r@ == self.chain(*proj, when),
                None => exists|now: Timestamp| 0 <= now && r@ == self.chain(*proj, Some(now)),
            },
    {
        let t = time_or_now(when);
        self.read_parents(proj, Some(t))
    }

    /// The escaped names of `parents(proj, when)`, joined with `/`. The
    /// ancestors are read as of the same time as the project itself.
    pub fn fqn(&self, proj: &ProjectRef, when: Option<Timestamp>) -> (r: String)
        ensures
            match when {
                Some(_) => r@ == joined_path(self.chain(*proj, when)),
                None => exists|now: Timestamp|
                    0 <= now && r@ == joined_path(self.chain(*proj, Some(now))),
            },
    {
        let t = time_or_now(when);
        self.read_fqn(proj, Some(t))
    }

    /// Raises the next entity id to hand out above `taken`, an id already
    /// used elsewhere; it never lowers it.
    pub fn reserve_eid(&mut self, taken: DbId)
        requires
            old(self).wf(),
        ensures
            final(self).wf(),
            final(self).rows@ == old(self).rows@,
            final(self).next_eid == if old(self).next_eid <= taken < i64::MAX {
                (taken + 1) as DbId
            } else {
                old(self).next_eid
            },
    {
        if self.next_eid <= taken && taken < i64::MAX {
            self.next_eid = taken + 1;
        }
    }
}

/// Two upserts in a row with the same remote id write two versions of one
/// entity: the second's version number is the first's plus one, and its
/// version time is no earlier than the first's.
pub proof fn lemma_upserts_extend_one_chain(
    s0: ProjectDataSource,
    s1: ProjectDataSource,
    s2: ProjectDataSource,
    rid: Seq<char>,
    name1: Seq<char>,
    parent1: Option<DbId>,
    now1: Timestamp,
    r1: Result<Project, Error>,
    name2: Seq<char>,
    parent2: Option<DbId>,
    now2: Timestamp,
    r2: Result<Project, Error>,
)
    requires
        s0.wf(),
        s0.upsert_post(s1, name1, rid, parent1, now1, r1),
        s1.upsert_post(s2, name2, rid, parent2, now2, r2),
        r1 is Ok,
        r2 is Ok,
    ensures
        r2->Ok_0.ev.eid == r1->Ok_0.ev.eid,
        r2->Ok_0.ev.vid == r1->Ok_0.ev.vid + 1,
        r1->Ok_0.ev.vtime <= r2->Ok_0.ev.vtime,
{
    let first = r1->Ok_0;
    assert(s1.rows@.last() == first);
    assert(project_eid_by_remote(s1.rows@, rid) == Some(first.ev.eid));
    assert(latest_as_of(s1.rows@, first.ev.eid, None) == Some(first));
}

} // verus!
