use vstd::prelude::*;

use crate::model::{Project, ProjectRef, Timeblock, TimeblockRef, Timestamp};
use crate::projects::ProjectDataSource;
use crate::versions::latest_as_of;

verus! {

/// A positional parameter of a compiled filter.
#[derive(Debug, PartialEq, Eq)]
pub enum SqlParam {
    Int(i64),
    Text(String),
    Time(Timestamp),
}

/// A query over time blocks, built from references, project, open/closed,
/// tag and time conditions, and their conjunctions and disjunctions.
#[derive(Debug)]
pub enum TimeblockFilter {
    Ref(TimeblockRef),
    And(Box<TimeblockFilter>, Box<TimeblockFilter>),
    Or(Box<TimeblockFilter>, Box<TimeblockFilter>),
    Project(Option<ProjectRef>),
    Open(bool),
    Tag(String),
    AtTime(Timestamp),
}

/// The number of `?` placeholders in a query text.
pub open spec fn placeholders(s: Seq<char>) -> nat
    decreases s.len(),
{
    if s.len() == 0 {
        0
    } else {
        placeholders(s.drop_last()) + if s.last() == '?' {
            1nat
        } else {
            0nat
        }
    }
}

/// Whether a time block carries `tag` among its tags.
pub open spec fn has_tag(tb: Timeblock, tag: Seq<char>) -> bool {
    exists|i: int| 0 <= i < tb.tags@.len() && (#[trigger] tb.tags@[i])@ == tag
}

fn carries_tag(tb: &Timeblock, tag: &String) -> (r: bool)
    ensures
        r == has_tag(*tb, tag@),
{
    let mut i: usize = 0;
    while i < tb.tags.len()
        invariant
            i <= tb.tags@.len(),
            forall|k: int| 0 <= k < i ==> (#[trigger] tb.tags@[k])@ != tag@,
        decreases tb.tags.len() - i,
    {
        if tb.tags[i] == *tag {
            assert((tb.tags@[i as int])@ == tag@);
            return true;
        }
        i += 1;
    }
    false
}

proof fn lemma_placeholders_concat(a: Seq<char>, b: Seq<char>)
    ensures
        placeholders(a + b) == placeholders(a) + placeholders(b),
    decreases b.len(),
{
    if b.len() == 0 {
        assert(a + b =~= a);
    } else {
        assert((a + b).drop_last() =~= a + b.drop_last());
        assert((a + b).last() == b.last());
        lemma_placeholders_concat(a, b.drop_last());
    }
}

proof fn lemma_literal_placeholders_0()
    ensures
        placeholders("("@) == 0,
{
    reveal_strlit("(");
    reveal_with_fuel(placeholders, 2);
}

proof fn lemma_literal_placeholders_1()
    ensures
        placeholders(" AND "@) == 0,
{
    reveal_strlit(" AND ");
    reveal_with_fuel(placeholders, 6);
}

proof fn lemma_literal_placeholders_2()
    ensures
        placeholders(" OR "@) == 0,
{
    reveal_strlit(" OR ");
    reveal_with_fuel(placeholders, 5);
}

proof fn lemma_literal_placeholders_3()
    ensures
        placeholders(")"@) == 0,
{
    reveal_strlit(")");
    reveal_with_fuel(placeholders, 2);
}

proof fn lemma_literal_placeholders_4()
    ensures
        placeholders("1"@) == 0,
{
    reveal_strlit("1");
    reveal_with_fuel(placeholders, 2);
}

proof fn lemma_literal_placeholders_5()
    ensures
        placeholders("(tb.remote_id=?)"@) == 1,
{
    reveal_strlit("(tb.remote_id=?)");
    reveal_with_fuel(placeholders, 17);
}

proof fn lemma_literal_placeholders_6()
    ensures
        placeholders("(tb.eid=?)"@) == 1,
{
    reveal_strlit("(tb.eid=?)");
    reveal_with_fuel(placeholders, 11);
}

proof fn lemma_literal_placeholders_7()
    ensures
        placeholders("(p.remote_id=?)"@) == 1,
{
    reveal_strlit("(p.remote_id=?)");
    reveal_with_fuel(placeholders, 16);
}

proof fn lemma_literal_placeholders_8()
    ensures
        placeholders("(p.eid=?)"@) == 1,
{
    reveal_strlit("(p.eid=?)");
    reveal_with_fuel(placeholders, 10);
}

proof fn lemma_literal_placeholders_9()
    ensures
        placeholders("(tb.end IS NULL)"@) == 0,
{
    reveal_strlit("(tb.end IS NULL)");
    reveal_with_fuel(placeholders, 17);
}

proof fn lemma_literal_placeholders_10()
    ensures
        placeholders("(tb.end IS NOT NULL)"@) == 0,
{
    reveal_strlit("(tb.end IS NOT NULL)");
    reveal_with_fuel(placeholders, 21);
}

proof fn lemma_literal_placeholders_11()
    ensures
        placeholders("(instr(char(10)||tb.tags||char(10),"@) == 0,
{
    reveal_strlit("(instr(char(10)||tb.tags||char(10),");
    reveal_with_fuel(placeholders, 37);
}

proof fn lemma_literal_placeholders_13()
    ensures
        placeholders("char(10)||?||char(10))>0)"@) == 1,
{
    reveal_strlit("char(10)||?||char(10))>0)");
    reveal_with_fuel(placeholders, 26);
}

proof fn lemma_literal_placeholders_12()
    ensures
        placeholders("(tb.vtime<=?)"@) == 1,
{
    reveal_strlit("(tb.vtime<=?)");
    reveal_with_fuel(placeholders, 14);
}

proof fn lemma_literal_placeholders()
    ensures
        placeholders("("@) == 0,
        placeholders(" AND "@) == 0,
        placeholders(" OR "@) == 0,
        placeholders(")"@) == 0,
        placeholders("1"@) == 0,
        placeholders("(tb.remote_id=?)"@) == 1,
        placeholders("(tb.eid=?)"@) == 1,
        placeholders("(p.remote_id=?)"@) == 1,
        placeholders("(p.eid=?)"@) == 1,
        placeholders("(tb.end IS NULL)"@) == 0,
        placeholders("(tb.end IS NOT NULL)"@) == 0,
        placeholders("(instr(char(10)||tb.tags||char(10),"@) == 0,
        placeholders("char(10)||?||char(10))>0)"@) == 1,
        placeholders("(tb.vtime<=?)"@) == 1,
{
    lemma_literal_placeholders_0();
    lemma_literal_placeholders_1();
    lemma_literal_placeholders_2();
    lemma_literal_placeholders_3();
    lemma_literal_placeholders_4();
    lemma_literal_placeholders_5();
    lemma_literal_placeholders_6();
    lemma_literal_placeholders_7();
    lemma_literal_placeholders_8();
    lemma_literal_placeholders_9();
    lemma_literal_placeholders_10();
    lemma_literal_placeholders_11();
    lemma_literal_placeholders_12();
    lemma_literal_placeholders_13();
}

/// A compiled filter has exactly one placeholder per parameter. The
/// fragment of a conjunction or a disjunction places the left operand's text
/// before the right's, and its parameters are the left operand's followed by
/// the right's: so, at any depth of nesting, the k-th placeholder of the text
/// is bound to the k-th parameter.
pub proof fn lemma_placeholders_match_params(f: TimeblockFilter)
    ensures
        placeholders(f.fragment()) == f.params().len(),
        match f {
            TimeblockFilter::And(a, b) => {
                &&& f.fragment() == "("@ + a.fragment() + " AND "@ + b.fragment() + ")"@
                &&& f.params() == a.params() + b.params()
                &&& placeholders("("@ + a.fragment() + " AND "@) == a.params().len()
            },
            TimeblockFilter::Or(a, b) => {
                &&& f.fragment() == "("@ + a.fragment() + " OR "@ + b.fragment() + ")"@
                &&& f.params() == a.params() + b.params()
                &&& placeholders("("@ + a.fragment() + " OR "@) == a.params().len()
            },
            _ => true,
        },
    decreases f,
{
    lemma_literal_placeholders();
    match f {
        TimeblockFilter::And(a, b) => {
            lemma_placeholders_match_params(*a);
            lemma_placeholders_match_params(*b);
            lemma_placeholders_concat("("@, a.fragment());
            lemma_placeholders_concat("("@ + a.fragment(), " AND "@);
            lemma_placeholders_concat("("@ + a.fragment() + " AND "@, b.fragment());
            lemma_placeholders_concat("("@ + a.fragment() + " AND "@ + b.fragment(), ")"@);
        },
        TimeblockFilter::Or(a, b) => {
            lemma_placeholders_match_params(*a);
            lemma_placeholders_match_params(*b);
            lemma_placeholders_concat("("@, a.fragment());
            lemma_placeholders_concat("("@ + a.fragment(), " OR "@);
            lemma_placeholders_concat("("@ + a.fragment() + " OR "@, b.fragment());
            lemma_placeholders_concat("("@ + a.fragment() + " OR "@ + b.fragment(), ")"@);
        },
        TimeblockFilter::Tag(_) => {
            lemma_placeholders_concat("(instr(char(10)||tb.tags||char(10),"@, "char(10)||?||char(10))>0)"@);
        },
        _ => {},
    }
}

impl TimeblockFilter {
    /// Whether the filter accepts `tb`; `projects` is the project history
    /// that a remote id of a project is read from.
    pub open spec fn admits(self, tb: Timeblock, projects: Seq<Project>) -> bool
        decreases self,
    {
        match self {
            TimeblockFilter::Ref(r) => match r {
                TimeblockRef::EV(ev) => tb.ev.eid == ev.eid,
                TimeblockRef::EId(e) => tb.ev.eid == e,
                TimeblockRef::RemoteId(rid) => match tb.remote_id {
                    Some(x) => x@ == rid@,
                    None => false,
                },
                TimeblockRef::Obj(t) => tb.ev.eid == t.ev.eid,
            },
            TimeblockFilter::And(a, b) => a.admits(tb, projects) && b.admits(tb, projects),
            TimeblockFilter::Or(a, b) => a.admits(tb, projects) || b.admits(tb, projects),
            TimeblockFilter::Project(p) => match p {
                None => true,
                Some(ProjectRef::EV(ev)) => tb.project_eid == ev.eid,
                Some(ProjectRef::EId(e)) => tb.project_eid == e,
                Some(ProjectRef::RemoteId(rid)) => match latest_as_of(
                    projects,
                    tb.project_eid,
                    None,
                ) {
                    Some(p) => p.remote_id@ == rid@,
                    None => false,
                },
                Some(ProjectRef::Obj(p)) => tb.project_eid == p.ev.eid,
            },
            TimeblockFilter::Open(open) => (tb.end is None) == open,
            TimeblockFilter::Tag(tag) => has_tag(tb, tag@),
            TimeblockFilter::AtTime(t) => tb.ev.vtime <= t,
        }
    }

    /// The query text that the filter compiles to.
    pub open spec fn fragment(self) -> Seq<char>
        decreases self,
    {
        match self {
            TimeblockFilter::Ref(r) => match r {
                TimeblockRef::RemoteId(_) => "(tb.remote_id=?)"@,
                _ => "(tb.eid=?)"@,
            },
            TimeblockFilter::And(a, b) => "("@ + a.fragment() + " AND "@ + b.fragment() + ")"@,
            TimeblockFilter::Or(a, b) => "("@ + a.fragment() + " OR "@ + b.fragment() + ")"@,
            TimeblockFilter::Project(p) => match p {
                None => "1"@,
                Some(ProjectRef::RemoteId(_)) => "(p.remote_id=?)"@,
                Some(_) => "(p.eid=?)"@,
            },
            TimeblockFilter::Open(open) => if open {
                "(tb.end IS NULL)"@
            } else {
                "(tb.end IS NOT NULL)"@
            },
            TimeblockFilter::Tag(_) => "(instr(char(10)||tb.tags||char(10),"@ + "char(10)||?||char(10))>0)"@,
            TimeblockFilter::AtTime(_) => "(tb.vtime<=?)"@,
        }
    }

    /// The parameters that the filter compiles to, in placeholder order.
    pub open spec fn params(self) -> Seq<SqlParam>
        decreases self,
    {
        match self {
            TimeblockFilter::Ref(r) => match r {
                TimeblockRef::EV(ev) => seq![SqlParam::Int(ev.eid)],
                TimeblockRef::EId(e) => seq![SqlParam::Int(e)],
                TimeblockRef::RemoteId(rid) => seq![SqlParam::Text(rid)],
                TimeblockRef::Obj(t) => seq![SqlParam::Int(t.ev.eid)],
            },
            TimeblockFilter::And(a, b) => a.params() + b.params(),
            TimeblockFilter::Or(a, b) => a.params() + b.params(),
            TimeblockFilter::Project(p) => match p {
                None => Seq::empty(),
                Some(ProjectRef::EV(ev)) => seq![SqlParam::Int(ev.eid)],
                Some(ProjectRef::EId(e)) => seq![SqlParam::Int(e)],
                Some(ProjectRef::RemoteId(rid)) => seq![SqlParam::Text(rid)],
                Some(ProjectRef::Obj(p)) => seq![SqlParam::Int(p.ev.eid)],
            },
            TimeblockFilter::Open(_) => Seq::empty(),
            TimeblockFilter::Tag(tag) => seq![SqlParam::Text(tag)],
            TimeblockFilter::AtTime(t) => seq![SqlParam::Time(t)],
        }
    }

    /// Whether the filter accepts `tb`.
    pub fn accepts(&self, tb: &Timeblock, projects: &ProjectDataSource) -> (r: bool)
        ensures
            r == self.admits(*tb, projects.rows@),
        decreases self,
    {
        match self {
            TimeblockFilter::Ref(r) => match r {
                TimeblockRef::EV(ev) => tb.ev.eid == ev.eid,
                TimeblockRef::EId(e) => tb.ev.eid == *e,
                TimeblockRef::RemoteId(rid) => match &tb.remote_id {
                    Some(x) => *x == *rid,
                    None => false,
                },
                TimeblockRef::Obj(t) => tb.ev.eid == t.ev.eid,
            },
            TimeblockFilter::And(a, b) => a.accepts(tb, projects) && b.accepts(tb, projects),
            TimeblockFilter::Or(a, b) => a.accepts(tb, projects) || b.accepts(tb, projects),
            TimeblockFilter::Project(p) => match p {
                None => true,
                Some(ProjectRef::EV(ev)) => tb.project_eid == ev.eid,
                Some(ProjectRef::EId(e)) => tb.project_eid == *e,
                Some(ProjectRef::RemoteId(rid)) => match projects.read(
                    &ProjectRef::EId(tb.project_eid),
                    None,
                ) {
                    Some(p) => p.remote_id == *rid,
                    None => false,
                },
                Some(ProjectRef::Obj(p)) => tb.project_eid == p.ev.eid,
            },
            TimeblockFilter::Open(open) => tb.end.is_none() == *open,
            TimeblockFilter::Tag(tag) => carries_tag(tb, tag),
            TimeblockFilter::AtTime(t) => tb.ev.vtime <= *t,
        }
    }

    /// Compiles the filter to a query text with `?` placeholders and the
    /// parameters that fill them, in order.
    pub fn where_clause(&self) -> (r: (String, Vec<SqlParam>))
        ensures
            r.0@ == self.fragment(),
            r.1@ == self.params(),
        decreases self,
    {
        match self {
            TimeblockFilter::Ref(r) => match r {
                TimeblockRef::EV(ev) => (String::from_str("(tb.eid=?)"), vec![SqlParam::Int(ev.eid)]),
                TimeblockRef::EId(e) => (String::from_str("(tb.eid=?)"), vec![SqlParam::Int(*e)]),
                TimeblockRef::RemoteId(rid) => (
                    String::from_str("(tb.remote_id=?)"),
                    vec![SqlParam::Text(rid.clone())],
                ),
                TimeblockRef::Obj(t) => (
                    String::from_str("(tb.eid=?)"),
                    vec![SqlParam::Int(t.ev.eid)],
                ),
            },
            TimeblockFilter::And(a, b) => {
                let (at, mut ap) = a.where_clause();
                let (bt, mut bp) = b.where_clause();
                let mut s = String::from_str("(");
                s.append(at.as_str());
                s.append(" AND ");
                s.append(bt.as_str());
                s.append(")");
                ap.append(&mut bp);
                (s, ap)
            },
            TimeblockFilter::Or(a, b) => {
                let (at, mut ap) = a.where_clause();
                let (bt, mut bp) = b.where_clause();
                let mut s = String::from_str("(");
                s.append(at.as_str());
                s.append(" OR ");
                s.append(bt.as_str());
                s.append(")");
                ap.append(&mut bp);
                (s, ap)
            },
            TimeblockFilter::Project(p) => match p {
                None => (String::from_str("1"), Vec::new()),
                Some(ProjectRef::EV(ev)) => (
                    String::from_str("(p.eid=?)"),
                    vec![SqlParam::Int(ev.eid)],
                ),
                Some(ProjectRef::EId(e)) => (String::from_str("(p.eid=?)"), vec![SqlParam::Int(*e)]),
                Some(ProjectRef::RemoteId(rid)) => (
                    String::from_str("(p.remote_id=?)"),
                    vec![SqlParam::Text(rid.clone())],
                ),
                Some(ProjectRef::Obj(p)) => (
                    String::from_str("(p.eid=?)"),
                    vec![SqlParam::Int(p.ev.eid)],
                ),
            },
            TimeblockFilter::Open(open) => if *open {
                (String::from_str("(tb.end IS NULL)"), Vec::new())
            } else {
                (String::from_str("(tb.end IS NOT NULL)"), Vec::new())
            },
            TimeblockFilter::Tag(tag) => {
                let mut s = String::from_str("(instr(char(10)||tb.tags||char(10),");
                s.append("char(10)||?||char(10))>0)");
                (s, vec![SqlParam::Text(tag.clone())])
            },
            TimeblockFilter::AtTime(t) => (
                String::from_str("(tb.vtime<=?)"),
                vec![SqlParam::Time(*t)],
            ),
        }
    }
}

} // verus!
