use image_dedup::{group_collisions, CollisionGroup, Fingerprint, ImageRecord};

fn fp(bits: &[bool]) -> Fingerprint {
    Fingerprint::from_bits(bits.to_vec())
}

fn record(path: &str, width: u32, height: u32, fingerprint: &Fingerprint) -> ImageRecord {
    ImageRecord { path: path.to_string(), width, height, fingerprint: fingerprint.clone() }
}

fn path_set(group: &CollisionGroup) -> Vec<String> {
    let mut paths: Vec<String> =
        group.buckets.iter().flat_map(|b| b.paths.iter().cloned()).collect();
    paths.sort();
    paths
}

#[test]
fn two_of_three_collide() {
    let a = fp(&[true, false, true, true]);
    let b = fp(&[false, false, true, true]);
    let records = vec![record("a1", 10, 10, &a), record("a2", 10, 10, &a), record("b", 10, 10, &b)];
    let groups = group_collisions(&records);
    assert_eq!(groups.len(), 1);
    assert_eq!(groups[0].fingerprint, a);
    assert_eq!(groups[0].buckets.len(), 1);
    assert_eq!((groups[0].buckets[0].width, groups[0].buckets[0].height), (10, 10));
    assert_eq!(groups[0].buckets[0].paths, vec!["a1".to_string(), "a2".to_string()]);
}

#[test]
fn same_fingerprint_different_dimensions_collide() {
    let a = fp(&[true, true, false, false]);
    let records = vec![record("big", 100, 100, &a), record("small", 50, 50, &a)];
    let groups = group_collisions(&records);
    assert_eq!(groups.len(), 1);
    assert_eq!(groups[0].fingerprint, a);
    assert_eq!(groups[0].buckets.len(), 2);
    assert_eq!((groups[0].buckets[0].width, groups[0].buckets[0].height), (100, 100));
    assert_eq!(groups[0].buckets[0].paths, vec!["big".to_string()]);
    assert_eq!((groups[0].buckets[1].width, groups[0].buckets[1].height), (50, 50));
    assert_eq!(groups[0].buckets[1].paths, vec!["small".to_string()]);
}

#[test]
fn no_records_no_groups() {
    let groups = group_collisions(&Vec::new());
    assert!(groups.is_empty());
}

#[test]
fn all_distinct_no_groups() {
    let records = vec![
        record("x", 4, 4, &fp(&[true, false])),
        record("y", 4, 4, &fp(&[false, true])),
        record("z", 4, 4, &fp(&[true, true])),
    ];
    assert!(group_collisions(&records).is_empty());
}

#[test]
fn buckets_and_paths_keep_input_order() {
    let a = fp(&[true, false, false, true]);
    let records = vec![
        record("p1", 20, 10, &a),
        record("p2", 30, 30, &a),
        record("p3", 20, 10, &a),
        record("p4", 30, 30, &a),
        record("p5", 20, 10, &a),
    ];
    let groups = group_collisions(&records);
    assert_eq!(groups.len(), 1);
    let buckets = &groups[0].buckets;
    assert_eq!(buckets.len(), 2);
    assert_eq!((buckets[0].width, buckets[0].height), (20, 10));
    assert_eq!(buckets[0].paths, vec!["p1".to_string(), "p3".to_string(), "p5".to_string()]);
    assert_eq!((buckets[1].width, buckets[1].height), (30, 30));
    assert_eq!(buckets[1].paths, vec!["p2".to_string(), "p4".to_string()]);
}

#[test]
fn several_groups_each_reported_once() {
    let a = fp(&[true; 4]);
    let b = fp(&[false; 4]);
    let c = fp(&[true, false, true, false]);
    let records = vec![
        record("a1", 8, 8, &a),
        record("b1", 8, 8, &b),
        record("c1", 8, 8, &c),
        record("b2", 8, 8, &b),
        record("a2", 16, 16, &a),
    ];
    let groups = group_collisions(&records);
    assert_eq!(groups.len(), 2);
    let a_group = groups.iter().find(|g| g.fingerprint == a).unwrap();
    let b_group = groups.iter().find(|g| g.fingerprint == b).unwrap();
    assert_eq!(path_set(a_group), vec!["a1".to_string(), "a2".to_string()]);
    assert_eq!(path_set(b_group), vec!["b1".to_string(), "b2".to_string()]);
    assert!(groups.iter().all(|g| g.fingerprint != c));
}

#[test]
fn permuted_records_give_same_groups() {
    let a = fp(&[true, true, true, false]);
    let b = fp(&[false, true, true, false]);
    let original = vec![
        record("a1", 8, 8, &a),
        record("b1", 8, 8, &b),
        record("a2", 4, 4, &a),
        record("lone", 8, 8, &fp(&[false; 4])),
        record("b2", 8, 8, &b),
        record("a3", 8, 8, &a),
    ];
    let mut permuted = original.clone();
    permuted.reverse();
    permuted.swap(0, 3);
    let summary = |groups: Vec<CollisionGroup>| {
        let mut out: Vec<(Vec<bool>, Vec<String>)> =
            groups.iter().map(|g| (g.fingerprint.bits().clone(), path_set(g))).collect();
        out.sort();
        out
    };
    let first = summary(group_collisions(&original));
    let second = summary(group_collisions(&permuted));
    assert_eq!(first.len(), 2);
    assert_eq!(first, second);
}
