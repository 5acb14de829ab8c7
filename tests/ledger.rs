use doublegit::ledger::{ledger_time_text, Ledger, LedgerOp};
use doublegit::{Error, Ref, RefDiff};

fn branch(name: &str) -> Ref {
    Ref { name: name.into(), tag: false }
}

fn diff(new: Vec<Ref>, changed: Vec<Ref>, removed: Vec<Ref>) -> RefDiff {
    RefDiff { new, changed, removed }
}

const T1: i64 = 1_431_648_000;
const T2: i64 = 1_431_734_400;
const T3: i64 = 1_431_820_800;

fn open_rows(l: &Ledger, name: &str) -> usize {
    l.rows.iter().filter(|r| r.name == name && r.to_date.is_none()).count()
}

#[test]
fn first_observation_opens_one_row() {
    let mut l = Ledger::new();
    let ops = l
        .record_run(&diff(vec![branch("master")], vec![], vec![]), &vec!["S1".to_string()], T1)
        .unwrap();
    assert_eq!(l.rows.len(), 1);
    let row = &l.rows[0];
    assert_eq!(row.name, "master");
    assert_eq!(row.from_date, T1);
    assert_eq!(row.to_date, None);
    assert_eq!(row.sha, "S1");
    assert!(!row.tag);
    assert_eq!(ops.len(), 1);
    assert!(matches!(&ops[0], LedgerOp::Open { row } if row.sha == "S1" && row.from_date == T1));
}

#[test]
fn fast_forward_closes_and_opens_at_same_time() {
    let mut l = Ledger::new();
    l.record_run(&diff(vec![branch("master")], vec![], vec![]), &vec!["S1".to_string()], T1)
        .unwrap();
    let ops = l
        .record_run(&diff(vec![], vec![branch("master")], vec![]), &vec!["S2".to_string()], T2)
        .unwrap();
    assert_eq!(l.rows.len(), 2);
    assert_eq!(l.rows[0].to_date, Some(T2));
    assert_eq!(l.rows[0].from_date, T1);
    assert_eq!(l.rows[0].sha, "S1");
    assert_eq!(l.rows[1].from_date, T2);
    assert_eq!(l.rows[1].to_date, None);
    assert_eq!(l.rows[1].sha, "S2");
    assert_eq!(open_rows(&l, "master"), 1);
    assert!(matches!(&ops[0], LedgerOp::Close { name, at } if name == "master" && *at == T2));
    assert!(matches!(&ops[1], LedgerOp::Open { row } if row.sha == "S2"));
}

#[test]
fn removal_closes_without_opening() {
    let mut l = Ledger::new();
    l.record_run(&diff(vec![branch("master")], vec![], vec![]), &vec!["S1".to_string()], T1)
        .unwrap();
    let ops = l.record_run(&diff(vec![], vec![], vec![branch("master")]), &vec![], T3).unwrap();
    assert_eq!(l.rows.len(), 1);
    assert_eq!(l.rows[0].to_date, Some(T3));
    assert_eq!(open_rows(&l, "master"), 0);
    assert_eq!(ops.len(), 1);
    assert!(matches!(&ops[0], LedgerOp::Close { .. }));
}

#[test]
fn reobserved_reference_opens_fresh_row() {
    let mut l = Ledger::new();
    l.record_run(&diff(vec![branch("master")], vec![], vec![]), &vec!["S1".to_string()], T1)
        .unwrap();
    l.record_run(&diff(vec![], vec![], vec![branch("master")]), &vec![], T2).unwrap();
    l.record_run(&diff(vec![branch("master")], vec![], vec![]), &vec!["S3".to_string()], T3)
        .unwrap();
    assert_eq!(l.rows.len(), 2);
    assert_eq!(l.rows[0].to_date, Some(T2));
    assert_eq!(l.rows[1].from_date, T3);
    assert_eq!(open_rows(&l, "master"), 1);
}

#[test]
fn closing_without_open_row_fails_and_keeps_ledger() {
    let mut l = Ledger::new();
    l.record_run(&diff(vec![branch("a")], vec![], vec![]), &vec!["S1".to_string()], T1)
        .unwrap();
    let r = l.record_run(&diff(vec![], vec![], vec![branch("a"), branch("b")]), &vec![], T2);
    assert!(matches!(r, Err(Error::MissingOpenRow(ref n)) if n == "b"));
    assert_eq!(l.rows.len(), 1);
    assert_eq!(l.rows[0].to_date, None);
}

#[test]
fn opening_twice_fails_and_keeps_ledger() {
    let mut l = Ledger::new();
    l.record_run(&diff(vec![branch("a")], vec![], vec![]), &vec!["S1".to_string()], T1)
        .unwrap();
    let r = l.record_run(&diff(vec![branch("a")], vec![], vec![]), &vec!["S2".to_string()], T2);
    assert!(matches!(r, Err(Error::DuplicateOpenRow(ref n)) if n == "a"));
    assert_eq!(l.rows.len(), 1);
    assert_eq!(l.rows[0].sha, "S1");
}

#[test]
fn tag_rows_are_marked() {
    let mut l = Ledger::new();
    let t = Ref { name: "v1".into(), tag: true };
    l.record_run(&diff(vec![t], vec![], vec![]), &vec!["C".to_string()], T1).unwrap();
    assert!(l.rows[0].tag);
}

#[test]
fn time_text_is_utc_calendar_form() {
    assert_eq!(ledger_time_text(0).unwrap(), "1970-01-01 00:00:00");
    assert_eq!(ledger_time_text(T1).unwrap(), "2015-05-15 00:00:00");
    assert_eq!(ledger_time_text(1_234_567_890).unwrap(), "2009-02-13 23:31:30");
    assert!(ledger_time_text(i64::MAX).is_none());
}

#[test]
fn recorded_set_is_the_open_rows() {
    let mut l = Ledger::new();
    let v1 = Ref { name: "v1".into(), tag: true };
    l.record_run(
        &diff(vec![branch("master"), v1, branch("dev")], vec![], vec![]),
        &vec!["S1".to_string(), "T1".to_string(), "D1".to_string()],
        T1,
    )
    .unwrap();
    l.record_run(&diff(vec![], vec![branch("master")], vec![branch("dev")]), &vec!["S2".to_string()], T2)
        .unwrap();
    let rec = l.recorded();
    assert_eq!(rec.len(), 2);
    assert_eq!(rec[0].r, Ref { name: "v1".into(), tag: true });
    assert_eq!(rec[0].sha, "T1");
    assert_eq!(rec[1].r, branch("master"));
    assert_eq!(rec[1].sha, "S2");
    assert!(Ledger::new().recorded().is_empty());
}

#[test]
fn time_text_covers_the_calendar_to_year_9999() {
    assert_eq!(ledger_time_text(253_402_300_799).unwrap(), "9999-12-31 23:59:59");
}
