use image_dedup::{
    group_collisions, keep_decoded, Fingerprinter, HashConfig, ImageRecord, PixelGrid,
};

fn solid(width: u32, height: u32, value: u8) -> PixelGrid {
    let mut rgba = Vec::new();
    for _ in 0..width * height {
        rgba.extend_from_slice(&[value, value, value, 255]);
    }
    PixelGrid::new(width, height, rgba).unwrap()
}

fn photo(width: u32, height: u32) -> PixelGrid {
    let mut rgba = Vec::new();
    let mut state: u32 = 99;
    for y in 0..height {
        for x in 0..width {
            state = state.wrapping_mul(1103515245).wrapping_add(12345);
            let v = (((x * 4) ^ (y * 3)) as u8).wrapping_add((state >> 20) as u8);
            rgba.extend_from_slice(&[v, 255 - v, v / 2, 255]);
        }
    }
    PixelGrid::new(width, height, rgba).unwrap()
}

fn batch(hasher: &Fingerprinter, items: Vec<(&str, Option<PixelGrid>)>) -> Vec<ImageRecord> {
    let outcomes: Vec<Option<ImageRecord>> =
        items.into_iter().map(|(p, g)| hasher.record_for(p.to_string(), g)).collect();
    keep_decoded(outcomes)
}

#[test]
fn failed_decode_leaves_others_unchanged() {
    let hasher = Fingerprinter::new(HashConfig::default_config());
    let all_good = batch(
        &hasher,
        vec![("a", Some(solid(8, 8, 10))), ("b", Some(photo(20, 10))), ("c", Some(solid(5, 7, 200)))],
    );
    let one_bad =
        batch(&hasher, vec![("a", Some(solid(8, 8, 10))), ("b", None), ("c", Some(solid(5, 7, 200)))]);
    assert_eq!(all_good.len(), 3);
    assert_eq!(one_bad.len(), 2);
    for (kept, full) in one_bad.iter().zip([&all_good[0], &all_good[2]]) {
        assert_eq!(kept.path, full.path);
        assert_eq!((kept.width, kept.height), (full.width, full.height));
        assert_eq!(kept.fingerprint, full.fingerprint);
    }
}

#[test]
fn record_for_failed_item_is_none() {
    let hasher = Fingerprinter::new(HashConfig::default_config());
    assert!(hasher.record_for("broken".to_string(), None).is_none());
    let rec = hasher.record_for("ok".to_string(), Some(photo(30, 20))).unwrap();
    assert_eq!(rec.path, "ok");
    assert_eq!((rec.width, rec.height), (30, 20));
    assert_eq!(rec.fingerprint, hasher.fingerprint(&photo(30, 20)));
}

#[test]
fn keep_decoded_of_nothing_is_empty() {
    assert!(keep_decoded(Vec::new()).is_empty());
    assert!(keep_decoded(vec![None, None]).is_empty());
}

#[test]
fn three_gray_squares_and_a_photo() {
    let hasher = Fingerprinter::new(HashConfig::default_config());
    let records = batch(
        &hasher,
        vec![
            ("gray1.png", Some(solid(64, 64, 128))),
            ("photo.png", Some(photo(64, 64))),
            ("gray2.png", Some(solid(64, 64, 128))),
            ("gray3.png", Some(solid(64, 64, 128))),
        ],
    );
    assert_eq!(records.len(), 4);
    let groups = group_collisions(&records);
    assert_eq!(groups.len(), 1);
    assert_eq!(groups[0].buckets.len(), 1);
    let bucket = &groups[0].buckets[0];
    assert_eq!((bucket.width, bucket.height), (64, 64));
    assert_eq!(
        bucket.paths,
        vec!["gray1.png".to_string(), "gray2.png".to_string(), "gray3.png".to_string()]
    );
}
