use vstd::prelude::*;

use crate::model::{DbId, EntityVersion, Timestamp};

verus! {

/// A value stored as one version in an entity's chain of versions.
pub trait Versioned: Sized {
    spec fn version(&self) -> EntityVersion;

    fn ev(&self) -> (r: EntityVersion)
        ensures
            r == self.version(),
    ;
}

/// Whether a version had become effective by `when` (`None` reads without a
/// time bound).
pub open spec fn visible_at(ev: EntityVersion, when: Option<Timestamp>) -> bool {
    match when {
        Some(t) => ev.vtime <= t,
        None => true,
    }
}

/// Within each entity, later rows carry higher version numbers and times
/// that never go back.
pub open spec fn chains_ordered<T: Versioned>(rows: Seq<T>) -> bool {
    forall|i: int, j: int|
        0 <= i < j < rows.len() && (#[trigger] rows[i]).version().eid == (#[trigger] rows[
            j
        ]).version().eid ==> rows[i].version().vid < rows[j].version().vid
            && rows[i].version().vtime <= rows[j].version().vtime
}

/// The last stored row of entity `eid` that is visible at `when`.
pub open spec fn latest_as_of<T: Versioned>(rows: Seq<T>, eid: DbId, when: Option<Timestamp>) -> Option<T>
    decreases rows.len(),
{
    if rows.len() == 0 {
        None
    } else if rows.last().version().eid == eid && visible_at(rows.last().version(), when) {
        Some(rows.last())
    } else {
        latest_as_of(rows.drop_last(), eid, when)
    }
}

/// The version of an entity as of a time is, among the versions written no
/// later than that time, the one with the highest version number (and the
/// latest time); when no version was written by then there is none.
pub proof fn lemma_as_of_is_latest_visible<T: Versioned>(
    rows: Seq<T>,
    eid: DbId,
    when: Option<Timestamp>,
)
    requires
        chains_ordered(rows),
    ensures
        match latest_as_of(rows, eid, when) {
            Some(p) => {
                &&& rows.contains(p)
                &&& p.version().eid == eid
                &&& visible_at(p.version(), when)
                &&& forall|j: int|
                    0 <= j < rows.len() && (#[trigger] rows[j]).version().eid == eid && visible_at(
                        rows[j].version(),
                        when,
                    ) ==> rows[j].version().vid <= p.version().vid && rows[j].version().vtime
                        <= p.version().vtime
            },
            None => forall|j: int|
                0 <= j < rows.len() && (#[trigger] rows[j]).version().eid == eid ==> !visible_at(
                    rows[j].version(),
                    when,
                ),
        },
    decreases rows.len(),
{
    if rows.len() > 0 {
        let init = rows.drop_last();
        assert(chains_ordered(init)) by {
            assert forall|i: int, j: int|
                0 <= i < j < init.len() && (#[trigger] init[i]).version().eid == (#[trigger] init[
                    j
                ]).version().eid implies init[i].version().vid < init[j].version().vid
                && init[i].version().vtime <= init[j].version().vtime by {
                assert(init[i] == rows[i] && init[j] == rows[j]);
            }
        }
        lemma_as_of_is_latest_visible(init, eid, when);
        let last = rows.last();
        if last.version().eid == eid && visible_at(last.version(), when) {
            assert(rows[rows.len() - 1] == last);
        } else {
            match latest_as_of(init, eid, when) {
                Some(p) => {
                    let k = choose|k: int| 0 <= k < init.len() && init[k] == p;
                    assert(rows[k] == p);
                    assert forall|j: int|
                        0 <= j < rows.len() && (#[trigger] rows[j]).version().eid == eid
                            && visible_at(rows[j].version(), when) implies rows[j].version().vid
                        <= p.version().vid && rows[j].version().vtime <= p.version().vtime by {
                        if j < rows.len() - 1 {
                            assert(rows[j] == init[j]);
                        }
                    }
                },
                None => {
                    assert forall|j: int|
                        0 <= j < rows.len() && (#[trigger] rows[j]).version().eid
                            == eid implies !visible_at(rows[j].version(), when) by {
                        if j < rows.len() - 1 {
                            assert(rows[j] == init[j]);
                        }
                    }
                },
            }
        }
    }
}

/// The row returned by `latest_as_of` on a time bound that no version of the
/// entity exceeds is its newest row.
pub proof fn lemma_as_of_after_all<T: Versioned>(rows: Seq<T>, eid: DbId, t: Timestamp)
    requires
        forall|j: int|
            0 <= j < rows.len() && (#[trigger] rows[j]).version().eid == eid
                ==> rows[j].version().vtime <= t,
    ensures
        latest_as_of(rows, eid, Some(t)) == latest_as_of(rows, eid, None),
    decreases rows.len(),
{
    if rows.len() > 0 {
        let init = rows.drop_last();
        assert forall|j: int|
            0 <= j < init.len() && (#[trigger] init[j]).version().eid == eid implies init[
            j
        ].version().vtime <= t by {
            assert(init[j] == rows[j]);
        }
        assert(rows[rows.len() - 1] == rows.last());
        lemma_as_of_after_all(init, eid, t);
    }
}

/// Finds the position of the last row of `eid` visible at `when`,
/// scanning from the end.
pub fn find_latest<T: Versioned>(rows: &Vec<T>, eid: DbId, when: Option<Timestamp>) -> (r: Option<
    usize,
>)
    ensures
        match r {
            Some(i) => i < rows.len() && latest_as_of(rows@, eid, when) == Some(rows@[i as int]),
            None => latest_as_of(rows@, eid, when) is None,
        },
{
    let mut i: usize = rows.len();
    assert(rows@.subrange(0, i as int) =~= rows@);
    while i > 0
        invariant
            i <= rows.len(),
            latest_as_of(rows@, eid, when) == latest_as_of(rows@.subrange(0, i as int), eid, when),
        decreases i,
    {
        let ghost pre = rows@.subrange(0, i as int);
        assert(pre.drop_last() =~= rows@.subrange(0, i - 1));
        let ev = rows[i - 1].ev();
        let vis = match when {
            Some(t) => ev.vtime <= t,
            None => true,
        };
        if ev.eid == eid && vis {
            return Some(i - 1);
        }
        i -= 1;
    }
    assert(rows@.subrange(0, 0).len() == 0);
    None
}

/// The version that follows `current` when a change is written at `now`:
/// same entity, next version number, and a time that never goes back.
pub fn next_version(current: EntityVersion, now: Timestamp) -> (r: EntityVersion)
    requires
        current.vid < i64::MAX,
    ensures
        r.eid == current.eid,
        r.vid == current.vid + 1,
        r.vtime == if now < current.vtime {
            current.vtime
        } else {
            now
        },
{
    EntityVersion {
        eid: current.eid,
        vid: current.vid + 1,
        vtime: if now < current.vtime {
            current.vtime
        } else {
            now
        },
    }
}

} // verus!
