use timetrack::{EntityVersion, ProjectRef, SqlParam, TimeblockFilter, TimeblockRef};

/// Stands in for a query engine: binds each parameter to the next `?`.
fn bind(sql: &str, params: &[SqlParam]) -> String {
    let mut out = String::new();
    let mut it = params.iter();
    for c in sql.chars() {
        if c == '?' {
            match it.next().expect("a parameter for each placeholder") {
                SqlParam::Int(i) => out.push_str(&i.to_string()),
                SqlParam::Text(s) => out.push_str(&format!("'{}'", s)),
                SqlParam::Time(t) => out.push_str(&format!("@{}", t)),
            }
        } else {
            out.push(c);
        }
    }
    assert!(it.next().is_none(), "a placeholder for each parameter");
    out
}

#[test]
fn nested_filter_keeps_parameter_order() {
    let f = TimeblockFilter::And(
        Box::new(TimeblockFilter::Or(
            Box::new(TimeblockFilter::Ref(TimeblockRef::EId(11))),
            Box::new(TimeblockFilter::Ref(TimeblockRef::RemoteId("r2".to_string()))),
        )),
        Box::new(TimeblockFilter::Project(Some(ProjectRef::EId(33)))),
    );
    let (sql, params) = f.where_clause();
    assert_eq!(params, vec![SqlParam::Int(11), SqlParam::Text("r2".to_string()), SqlParam::Int(33)]);
    assert_eq!(sql, "(((tb.eid=?) OR (tb.remote_id=?)) AND (p.eid=?))");
    assert_eq!(bind(&sql, &params), "(((tb.eid=11) OR (tb.remote_id='r2')) AND (p.eid=33))");
}

#[test]
fn deep_nesting_binds_in_order() {
    let mut f = TimeblockFilter::Ref(TimeblockRef::EId(0));
    for i in 1..6 {
        let leaf = TimeblockFilter::Ref(TimeblockRef::EV(EntityVersion { eid: i, vid: 9, vtime: 0 }));
        f = if i % 2 == 0 {
            TimeblockFilter::And(Box::new(f), Box::new(leaf))
        } else {
            TimeblockFilter::Or(Box::new(leaf), Box::new(f))
        };
    }
    let (sql, params) = f.where_clause();
    assert_eq!(sql.matches('?').count(), params.len());
    let ids: Vec<i64> = params.iter().map(|p| match p { SqlParam::Int(i) => *i, _ => -1 }).collect();
    assert_eq!(ids, vec![5, 3, 1, 0, 2, 4]);
    assert_eq!(
        bind(&sql, &params),
        "((tb.eid=5) OR (((tb.eid=3) OR (((tb.eid=1) OR (tb.eid=0)) AND (tb.eid=2))) AND (tb.eid=4)))"
    );
}

#[test]
fn leaf_fragments() {
    assert_eq!(TimeblockFilter::Open(true).where_clause(), ("(tb.end IS NULL)".to_string(), vec![]));
    assert_eq!(TimeblockFilter::Open(false).where_clause(), ("(tb.end IS NOT NULL)".to_string(), vec![]));
    assert_eq!(TimeblockFilter::Project(None).where_clause(), ("1".to_string(), vec![]));
    assert_eq!(
        TimeblockFilter::AtTime(42).where_clause(),
        ("(tb.vtime<=?)".to_string(), vec![SqlParam::Time(42)])
    );
    assert_eq!(
        TimeblockFilter::Project(Some(ProjectRef::RemoteId("ext".to_string()))).where_clause(),
        ("(p.remote_id=?)".to_string(), vec![SqlParam::Text("ext".to_string())])
    );
    let (sql, params) = TimeblockFilter::Tag("t".to_string()).where_clause();
    assert_eq!(sql, "(instr(char(10)||tb.tags||char(10),char(10)||?||char(10))>0)");
    assert_eq!(params, vec![SqlParam::Text("t".to_string())]);
}
