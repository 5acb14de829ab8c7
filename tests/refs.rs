use doublegit::refs::{diff_refs, observed_from_line, starts_with, Observed};
use doublegit::{Error, Ref};

fn obs(name: &str, tag: bool, sha: &str) -> Observed {
    Observed {
        r: Ref { name: name.into(), tag },
        sha: sha.into(),
    }
}

#[test]
fn test_ref_parse() {
    assert_eq!(
        Ref::parse_remote_ref("origin/master").unwrap(),
        Ref {
            name: "master".into(),
            tag: false,
        },
    );
    assert!(Ref::parse_remote_ref("upstream/master").is_err());
    assert!(Ref::parse_remote_ref("master").is_err());
}

#[test]
fn test_ref_fullname() {
    assert_eq!(
        &Ref {
            name: "master".into(),
            tag: false,
        }
        .fullname() as &str,
        "origin/master",
    );
    assert_eq!(
        &Ref {
            name: "release".into(),
            tag: true,
        }
        .fullname() as &str,
        "release",
    );
}

#[test]
fn parse_keeps_slashes_in_branch_name() {
    let r = Ref::parse_remote_ref("origin/feature/x").unwrap();
    assert_eq!(r.name, "feature/x");
    assert!(!r.tag);
}

#[test]
fn parse_errors_are_told_apart() {
    assert!(matches!(Ref::parse_remote_ref("master"), Err(Error::InvalidRemoteRef)));
    assert!(matches!(Ref::parse_remote_ref("origi/master"), Err(Error::InvalidRemote)));
    assert!(matches!(Ref::parse_remote_ref("originx/master"), Err(Error::InvalidRemote)));
    assert!(matches!(Ref::parse_remote_ref(""), Err(Error::InvalidRemoteRef)));
    let empty = Ref::parse_remote_ref("origin/").unwrap();
    assert_eq!(empty.name, "");
}

#[test]
fn diff_classifies_new_changed_removed() {
    let previous = vec![
        obs("master", false, "a1"),
        obs("dev", false, "b1"),
        obs("v1", true, "c1"),
    ];
    let current = vec![
        obs("master", false, "a2"),
        obs("v1", true, "c1"),
        obs("topic", false, "d1"),
        obs("dev", true, "b1"),
    ];
    let d = diff_refs(&previous, &current);
    assert_eq!(
        d.new,
        vec![
            Ref { name: "topic".into(), tag: false },
            Ref { name: "dev".into(), tag: true },
        ]
    );
    assert_eq!(d.changed, vec![Ref { name: "master".into(), tag: false }]);
    assert_eq!(d.removed, vec![Ref { name: "dev".into(), tag: false }]);
}

#[test]
fn diff_of_equal_listings_is_empty() {
    let listing = vec![obs("master", false, "a1"), obs("v1", true, "c1")];
    let d = diff_refs(&listing, &listing);
    assert!(d.new.is_empty() && d.changed.is_empty() && d.removed.is_empty());
    let first = diff_refs(&Vec::new(), &listing);
    assert_eq!(first.new.len(), 2);
    assert!(first.changed.is_empty() && first.removed.is_empty());
}

#[test]
fn listing_lines_are_read() {
    let t = observed_from_line("abc123 refs/tags/v1.0").unwrap().unwrap();
    assert_eq!(t.r, Ref { name: "v1.0".into(), tag: true });
    assert_eq!(t.sha, "abc123");
    let b = observed_from_line("def456 refs/remotes/origin/feature/x").unwrap().unwrap();
    assert_eq!(b.r, Ref { name: "feature/x".into(), tag: false });
    assert_eq!(b.sha, "def456");
    assert!(observed_from_line("def456 refs/remotes/origin/HEAD").unwrap().is_none());
    assert!(observed_from_line("def456 refs/heads/keep-def456").unwrap().is_none());
    assert!(observed_from_line("no-space-here").unwrap().is_none());
    assert!(matches!(
        observed_from_line("def456 refs/remotes/upstream/master"),
        Err(Error::InvalidRemote)
    ));
    assert!(matches!(observed_from_line("def456 refs/remotes/master"), Err(Error::InvalidRemoteRef)));
}

#[test]
fn prefix_test() {
    assert!(starts_with("refs/tags/x", "refs/tags/"));
    assert!(starts_with("abc", ""));
    assert!(!starts_with("ref", "refs/"));
    assert!(!starts_with("refs/heads/x", "refs/tags/"));
}
