use vstd::prelude::*;

use crate::versions::Versioned;

verus! {

/// Durable identity of an entity (a project or a time block).
pub type DbId = i64;

/// Identifier given to an entity by a remote system.
pub type RemoteId = String;

/// An instant, in milliseconds since 1970-01-01T00:00:00Z.
pub type Timestamp = i64;

/// One immutable version of one entity.
#[derive(Debug, Clone, Copy, PartialEq, Eq, Structural)]
pub struct EntityVersion {
    pub eid: DbId,
    pub vid: DbId,
    pub vtime: Timestamp,
}

/// One version of a project.
#[derive(Debug)]
pub struct Project {
    pub remote_id: RemoteId,
    pub name: String,
    pub parent_eid: Option<DbId>,
    pub alive: bool,
    pub ev: EntityVersion,
}

impl Clone for Project {
    fn clone(&self) -> (r: Self)
        ensures
            r == *self,
    {
        Project {
            remote_id: self.remote_id.clone(),
            name: self.name.clone(),
            parent_eid: self.parent_eid,
            alive: self.alive,
            ev: self.ev,
        }
    }
}

impl Versioned for Project {
    open spec fn version(&self) -> EntityVersion {
        self.ev
    }

    fn ev(&self) -> (r: EntityVersion) {
        self.ev
    }
}

/// The ways a caller can point at a project.
#[derive(Debug)]
pub enum ProjectRef {
    EV(EntityVersion),
    EId(DbId),
    RemoteId(RemoteId),
    Obj(Project),
}

impl Clone for ProjectRef {
    fn clone(&self) -> (r: Self)
        ensures
            r == *self,
    {
        match self {
            ProjectRef::EV(ev) => ProjectRef::EV(*ev),
            ProjectRef::EId(e) => ProjectRef::EId(*e),
            ProjectRef::RemoteId(r) => ProjectRef::RemoteId(r.clone()),
            ProjectRef::Obj(p) => ProjectRef::Obj(p.clone()),
        }
    }
}

fn clone_strings(v: &Vec<String>) -> (r: Vec<String>)
    ensures
        r@ == v@,
{
    let mut out: Vec<String> = Vec::new();
    let mut i: usize = 0;
    while i < v.len()
        invariant
            i <= v.len(),
            out@ == v@.subrange(0, i as int),
        decreases v.len() - i,
    {
        out.push(v[i].clone());
        assert(out@ =~= v@.subrange(0, i + 1));
        i += 1;
    }
    assert(v@.subrange(0, v.len() as int) =~= v@);
    out
}

/// One version of a time block: work on a project from `start` to `end`
/// (open while `end` is absent).
#[derive(Debug)]
pub struct Timeblock {
    pub remote_id: Option<RemoteId>,
    pub project_eid: DbId,
    pub start: Timestamp,
    pub end: Option<Timestamp>,
    pub billable: bool,
    pub notes: String,
    pub tags: Vec<String>,
    pub alive: bool,
    pub ev: EntityVersion,
}

impl Timeblock {
    /// Equal in every field, the tags compared by their text.
    pub open spec fn eqv(self, o: Timeblock) -> bool {
        &&& self.remote_id == o.remote_id
        &&& self.project_eid == o.project_eid
        &&& self.start == o.start
        &&& self.end == o.end
        &&& self.billable == o.billable
        &&& self.notes == o.notes
        &&& self.tags@ == o.tags@
        &&& self.alive == o.alive
        &&& self.ev == o.ev
    }
}

impl Clone for Timeblock {
    fn clone(&self) -> (r: Self)
        ensures
            r.eqv(*self),
    {
        let remote_id = match &self.remote_id {
            Some(s) => Some(s.clone()),
            None => None,
        };
        let tags = clone_strings(&self.tags);
        Timeblock {
            remote_id,
            project_eid: self.project_eid,
            start: self.start,
            end: self.end,
            billable: self.billable,
            notes: self.notes.clone(),
            tags,
            alive: self.alive,
            ev: self.ev,
        }
    }
}

impl Versioned for Timeblock {
    open spec fn version(&self) -> EntityVersion {
        self.ev
    }

    fn ev(&self) -> (r: EntityVersion) {
        self.ev
    }
}

/// The ways a caller can point at a time block.
#[derive(Debug)]
pub enum TimeblockRef {
    EV(EntityVersion),
    EId(DbId),
    RemoteId(RemoteId),
    Obj(Timeblock),
}

impl Clone for TimeblockRef {
    fn clone(&self) -> (r: Self)
        ensures
            match (r, *self) {
                (TimeblockRef::Obj(a), TimeblockRef::Obj(b)) => a.eqv(b),
                _ => r == *self,
            },
    {
        match self {
            TimeblockRef::EV(ev) => TimeblockRef::EV(*ev),
            TimeblockRef::EId(e) => TimeblockRef::EId(*e),
            TimeblockRef::RemoteId(r) => TimeblockRef::RemoteId(r.clone()),
            TimeblockRef::Obj(t) => TimeblockRef::Obj(t.clone()),
        }
    }
}

/// Failures reported by the ledger.
#[derive(Debug, Clone, Copy, PartialEq, Eq, Structural)]
pub enum Error {
    /// A referenced entity or project does not exist.
    NotFound,
    /// A uniqueness constraint would be broken.
    ConstraintViolation,
    /// A time block with a remote id must have an end.
    InvariantViolation,
    /// The storage cannot take another entity or version.
    StorageError,
    /// There is no open time block to close.
    NoOpenTimeblock,
    /// A timestamp could not be read from its text form.
    ParseError,
}

} // verus!
