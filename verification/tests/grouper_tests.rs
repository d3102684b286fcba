use image_dedup::fingerprint_of_bytes;
use image_dedup::{duplicate_groups, group_pairs, DuplicateGroup, PathFingerprint};

fn pair(path: &str, fingerprint: &str) -> PathFingerprint {
    PathFingerprint { path: path.to_string(), fingerprint: fingerprint.to_string() }
}

fn as_sets(groups: &[DuplicateGroup]) -> Vec<(String, Vec<String>)> {
    let mut out: Vec<(String, Vec<String>)> = groups
        .iter()
        .map(|g| {
            let mut paths = g.paths.clone();
            paths.sort();
            (g.fingerprint.clone(), paths)
        })
        .collect();
    out.sort();
    out
}

#[test]
fn identical_bytes_form_one_group() {
    let same = b"identical image bytes".to_vec();
    let other = b"different image bytes".to_vec();
    let pairs = vec![
        pair("a.jpg", &fingerprint_of_bytes(&same)),
        pair("b.jpg", &fingerprint_of_bytes(&same)),
        pair("c.png", &fingerprint_of_bytes(&other)),
    ];
    let groups = duplicate_groups(&pairs);
    assert_eq!(groups.len(), 1);
    assert_eq!(groups[0].fingerprint, fingerprint_of_bytes(&same));
    assert_eq!(groups[0].paths, vec!["a.jpg".to_string(), "b.jpg".to_string()]);
    for g in &groups {
        assert!(!g.paths.contains(&"c.png".to_string()));
    }
}

#[test]
fn no_pairs_give_no_groups() {
    let groups = duplicate_groups(&Vec::new());
    assert!(groups.is_empty());
}

#[test]
fn a_group_needs_at_least_two_paths() {
    let pairs = vec![pair("a.jpg", "h1"), pair("b.jpg", "h2"), pair("c.jpg", "h3")];
    let groups = duplicate_groups(&pairs);
    assert!(groups.is_empty());
}

#[test]
fn groups_of_two_and_three_are_both_kept() {
    let pairs = vec![
        pair("a.jpg", "h1"),
        pair("b.jpg", "h2"),
        pair("c.jpg", "h1"),
        pair("d.jpg", "h2"),
        pair("e.jpg", "h2"),
        pair("f.jpg", "h3"),
    ];
    let groups = duplicate_groups(&pairs);
    assert_eq!(groups.len(), 2);
    assert_eq!(groups[0].fingerprint, "h1");
    assert_eq!(groups[0].paths, vec!["a.jpg".to_string(), "c.jpg".to_string()]);
    assert_eq!(groups[1].fingerprint, "h2");
    assert_eq!(
        groups[1].paths,
        vec!["b.jpg".to_string(), "d.jpg".to_string(), "e.jpg".to_string()]
    );
}

#[test]
fn paths_keep_discovery_order_inside_a_group() {
    let pairs = vec![
        pair("z.jpg", "h"),
        pair("m.jpg", "h"),
        pair("a.jpg", "h"),
    ];
    let groups = duplicate_groups(&pairs);
    assert_eq!(groups.len(), 1);
    assert_eq!(
        groups[0].paths,
        vec!["z.jpg".to_string(), "m.jpg".to_string(), "a.jpg".to_string()]
    );
}

#[test]
fn grouping_membership_ignores_input_order() {
    let forward = vec![
        pair("a.jpg", "h1"),
        pair("b.jpg", "h1"),
        pair("c.jpg", "h2"),
        pair("d.jpg", "h2"),
        pair("e.jpg", "h3"),
    ];
    let mut backward = forward.clone();
    backward.reverse();
    let forward_groups = duplicate_groups(&forward);
    let backward_groups = duplicate_groups(&backward);
    assert_eq!(as_sets(&forward_groups), as_sets(&backward_groups));
}

#[test]
fn grouping_twice_gives_the_same_groups() {
    let pairs = vec![pair("a.jpg", "h1"), pair("b.jpg", "h1"), pair("c.jpg", "h2")];
    let once = duplicate_groups(&pairs);
    let twice = duplicate_groups(&pairs);
    assert_eq!(as_sets(&once), as_sets(&twice));
}

#[test]
fn full_mapping_holds_every_fingerprint() {
    let pairs = vec![pair("a.jpg", "h1"), pair("b.jpg", "h2"), pair("c.jpg", "h1")];
    let groups = group_pairs(&pairs);
    assert_eq!(groups.len(), 2);
    assert_eq!(groups[0].fingerprint, "h1");
    assert_eq!(groups[0].paths, vec!["a.jpg".to_string(), "c.jpg".to_string()]);
    assert_eq!(groups[1].fingerprint, "h2");
    assert_eq!(groups[1].paths, vec!["b.jpg".to_string()]);
}
