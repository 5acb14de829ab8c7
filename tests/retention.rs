use doublegit::retention::{
    branch_keeper, collapse_deletions, plan_keeper, plan_keepers, tag_keeper, Keeper, PruneStep,
    Pruner,
};
use doublegit::{Ref, RefDiff};

fn master() -> Ref {
    Ref { name: "master".into(), tag: false }
}

#[test]
fn first_observation_creates_branch_keeper() {
    let k = plan_keeper(&master(), &"S1".to_string(), false);
    assert!(matches!(k, Keeper::Branch(ref n) if n == "keep-S1"));
}

#[test]
fn fast_forward_collapses_ancestor_keeper() {
    let s2 = "S2".to_string();
    let k = plan_keeper(&master(), &s2, false);
    assert!(matches!(k, Keeper::Branch(ref n) if n == "keep-S2"));
    let included = vec!["keep-S1".to_string(), "keep-S2".to_string()];
    assert_eq!(collapse_deletions(&s2, &included), vec!["keep-S1".to_string()]);
    let diff = RefDiff { new: vec![], changed: vec![master()], removed: vec![] };
    let mut p = Pruner::new(&diff, &vec![s2.clone()], &vec![false]);
    assert!(matches!(p.next_step(), PruneStep::AskIncluded(ref s) if s == "S2"));
    assert_eq!(p.on_included(&included), vec!["keep-S1".to_string()]);
    assert!(matches!(p.next_step(), PruneStep::AskIncluding(ref s) if s == "S2"));
    assert_eq!(p.on_including(1), None);
    assert!(matches!(p.next_step(), PruneStep::Done));
}

#[test]
fn annotated_tag_gets_tag_keeper() {
    let v1 = Ref { name: "v1".into(), tag: true };
    let k = plan_keeper(&v1, &"T0".to_string(), true);
    assert!(matches!(k, Keeper::Tag(ref n) if n == "refs/kept-tags/tag-T0"));
    let light = plan_keeper(&v1, &"C0".to_string(), false);
    assert!(matches!(light, Keeper::Branch(ref n) if n == "keep-C0"));
    let branch_annotated = plan_keeper(&master(), &"C0".to_string(), true);
    assert!(matches!(branch_annotated, Keeper::Branch(_)));
}

#[test]
fn keeper_names_are_deterministic() {
    let a = "abc".to_string();
    assert_eq!(branch_keeper(&a), branch_keeper(&a));
    assert_eq!(branch_keeper(&a), "keep-abc");
    assert_eq!(tag_keeper(&a), "refs/kept-tags/tag-abc");
    assert_ne!(branch_keeper(&a), branch_keeper(&"abd".to_string()));
}

#[test]
fn pruner_deletes_subsumed_own_keeper() {
    let diff = RefDiff { new: vec![master()], changed: vec![], removed: vec![] };
    let mut p = Pruner::new(&diff, &vec!["A".to_string()], &vec![false]);
    assert!(matches!(p.next_step(), PruneStep::AskIncluded(_)));
    assert!(p.on_included(&vec!["keep-A".to_string()]).is_empty());
    assert!(matches!(p.next_step(), PruneStep::AskIncluding(_)));
    assert_eq!(p.on_including(2), Some("keep-A".to_string()));
    assert!(matches!(p.next_step(), PruneStep::Done));
}

#[test]
fn pruner_skips_self_check_for_annotated_tags() {
    let v1 = Ref { name: "v1".into(), tag: true };
    let v2 = Ref { name: "v2".into(), tag: true };
    let diff = RefDiff { new: vec![v1, v2], changed: vec![], removed: vec![] };
    let shas = vec!["T1".to_string(), "C2".to_string()];
    let mut p = Pruner::new(&diff, &shas, &vec![true, false]);
    assert!(matches!(p.next_step(), PruneStep::AskIncluded(ref s) if s == "T1"));
    assert_eq!(p.on_included(&vec!["keep-C0".to_string()]), vec!["keep-C0".to_string()]);
    assert!(matches!(p.next_step(), PruneStep::AskIncluded(ref s) if s == "C2"));
    assert!(p.on_included(&vec![]).is_empty());
    assert!(matches!(p.next_step(), PruneStep::AskIncluding(ref s) if s == "C2"));
    assert_eq!(p.on_including(3), Some("keep-C2".to_string()));
    assert!(matches!(p.next_step(), PruneStep::Done));
}

#[test]
fn pruner_with_empty_frontier_is_done() {
    let diff = RefDiff { new: vec![], changed: vec![], removed: vec![master()] };
    let p = Pruner::new(&diff, &vec![], &vec![]);
    assert!(matches!(p.next_step(), PruneStep::Done));
}

#[test]
fn collapse_keeps_order_and_skips_own_keeper() {
    let sha = "X".to_string();
    let included = vec![
        "keep-A".to_string(),
        "keep-X".to_string(),
        "keep-B".to_string(),
    ];
    assert_eq!(
        collapse_deletions(&sha, &included),
        vec!["keep-A".to_string(), "keep-B".to_string()]
    );
    assert!(collapse_deletions(&sha, &Vec::new()).is_empty());
    assert!(collapse_deletions(&sha, &vec!["keep-X".to_string()]).is_empty());
}

#[test]
fn removal_plans_no_keeper() {
    let diff = RefDiff { new: vec![], changed: vec![], removed: vec![master()] };
    assert!(plan_keepers(&diff, &vec![], &vec![]).is_empty());
}

#[test]
fn keepers_follow_frontier_order() {
    let v1 = Ref { name: "v1".into(), tag: true };
    let diff = RefDiff { new: vec![v1], changed: vec![master()], removed: vec![] };
    let shas = vec!["S2".to_string(), "T1".to_string()];
    let ks = plan_keepers(&diff, &shas, &vec![false, true]);
    assert_eq!(ks.len(), 2);
    assert!(matches!(ks[0], Keeper::Branch(ref n) if n == "keep-S2"));
    assert!(matches!(ks[1], Keeper::Tag(ref n) if n == "refs/kept-tags/tag-T1"));
}
