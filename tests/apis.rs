use doublegit::apis::{IssueRecorder, MergeRequest};

#[test]
fn recorder_keeps_issues_in_order() {
    let mut rec = IssueRecorder::new();
    assert!(rec.record_issue("1", "Crash", Some("on start"), None).is_ok());
    let mr = MergeRequest { base: "master".into(), head: "fix".into() };
    assert!(rec.record_issue("2", "Fix crash", None, Some(mr)).is_ok());
    assert_eq!(rec.issues.len(), 2);
    assert_eq!(rec.issues[0].id, "1");
    assert_eq!(rec.issues[0].description.as_deref(), Some("on start"));
    assert_eq!(rec.issues[1].title, "Fix crash");
    assert_eq!(rec.issues[1].merge_request.as_ref().unwrap().head, "fix");
    assert!(rec.comments.is_empty());
}

#[test]
fn recorder_keeps_comments() {
    let mut rec = IssueRecorder::new();
    assert!(rec.record_comment("1", Some("c1"), None, Some("hello")).is_ok());
    assert!(rec.record_comment("1", None, Some("c1"), None).is_ok());
    assert_eq!(rec.comments.len(), 2);
    assert_eq!(rec.comments[0].text.as_deref(), Some("hello"));
    assert_eq!(rec.comments[1].parent.as_deref(), Some("c1"));
    assert!(rec.issues.is_empty());
}
