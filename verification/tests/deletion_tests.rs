use image_dedup::{confirms_deletion, deletion_plan, duplicate_groups, DuplicateGroup, PathFingerprint};

fn group(fingerprint: &str, paths: &[&str]) -> DuplicateGroup {
    DuplicateGroup {
        fingerprint: fingerprint.to_string(),
        paths: paths.iter().map(|p| p.to_string()).collect(),
    }
}

#[test]
fn plan_keeps_the_first_path_of_each_group() {
    let groups = vec![
        group("h1", &["a.jpg", "b.jpg", "c.jpg"]),
        group("h2", &["d.jpg", "e.jpg"]),
    ];
    let victims = deletion_plan(&groups);
    assert_eq!(
        victims,
        vec!["b.jpg".to_string(), "c.jpg".to_string(), "e.jpg".to_string()]
    );
    assert!(!victims.contains(&"a.jpg".to_string()));
    assert!(!victims.contains(&"d.jpg".to_string()));
}

#[test]
fn plan_of_no_groups_removes_nothing() {
    let victims = deletion_plan(&Vec::new());
    assert!(victims.is_empty());
}

#[test]
fn plan_follows_discovery_order() {
    let pairs = vec![
        PathFingerprint { path: "first.jpg".to_string(), fingerprint: "h".to_string() },
        PathFingerprint { path: "second.jpg".to_string(), fingerprint: "h".to_string() },
        PathFingerprint { path: "third.jpg".to_string(), fingerprint: "h".to_string() },
    ];
    let groups = duplicate_groups(&pairs);
    let victims = deletion_plan(&groups);
    assert_eq!(victims, vec!["second.jpg".to_string(), "third.jpg".to_string()]);
}

#[test]
fn only_yes_confirms_deletion() {
    assert!(confirms_deletion("yes"));
    assert!(confirms_deletion("YES"));
    assert!(confirms_deletion("Yes"));
    assert!(confirms_deletion("yEs"));
    assert!(!confirms_deletion("no"));
    assert!(!confirms_deletion("y"));
    assert!(!confirms_deletion(""));
    assert!(!confirms_deletion("yes please"));
    assert!(!confirms_deletion("oui"));
}
