use image_dedup::{Fingerprinter, HashConfig, PixelGrid};

fn solid(width: u32, height: u32, value: u8) -> PixelGrid {
    let mut rgba = Vec::new();
    for _ in 0..width * height {
        rgba.extend_from_slice(&[value, value, value, 255]);
    }
    PixelGrid::new(width, height, rgba).unwrap()
}

fn textured(width: u32, height: u32, seed: u32) -> PixelGrid {
    let mut rgba = Vec::new();
    let mut state = seed.wrapping_mul(2654435761).wrapping_add(12345);
    for y in 0..height {
        for x in 0..width {
            state = state.wrapping_mul(1103515245).wrapping_add(12345);
            let noise = (state >> 16) as u8;
            let base = ((x * 255) / width) as u8 ^ ((y * 7) as u8);
            let v = base.wrapping_add(noise / 2);
            rgba.extend_from_slice(&[v, v.wrapping_mul(3), 255 - v, 255]);
        }
    }
    PixelGrid::new(width, height, rgba).unwrap()
}

#[test]
fn fingerprint_is_deterministic() {
    let config = HashConfig::default_config();
    let grid = textured(40, 30, 7);
    let hasher = Fingerprinter::new(config);
    let first = hasher.fingerprint(&grid);
    let second = hasher.fingerprint(&grid);
    let fresh = Fingerprinter::new(config).fingerprint(&grid);
    assert_eq!(first, second);
    assert_eq!(first, fresh);
}

#[test]
fn fingerprint_has_side_squared_bits() {
    for &(side, transform) in &[(1u32, false), (8, true), (8, false), (10, true), (13, false)] {
        let config = HashConfig::new(side, transform).unwrap();
        let fp = Fingerprinter::new(config).fingerprint(&textured(33, 17, side));
        assert_eq!(fp.len(), (side * side) as usize);
        assert_eq!(fp.bits().len(), (side * side) as usize);
    }
}

#[test]
fn finer_grid_changes_fingerprint() {
    let grid = textured(64, 64, 3);
    let coarse = Fingerprinter::new(HashConfig::new(8, true).unwrap()).fingerprint(&grid);
    let fine = Fingerprinter::new(HashConfig::new(16, true).unwrap()).fingerprint(&grid);
    assert_eq!(coarse.len(), 64);
    assert_eq!(fine.len(), 256);
    assert_ne!(coarse, fine);
}

#[test]
fn solid_image_spatial_hash_is_all_zero() {
    let config = HashConfig::new(8, false).unwrap();
    let fp = Fingerprinter::new(config).fingerprint(&solid(64, 64, 128));
    assert_eq!(fp.len(), 64);
    assert!(fp.bits().iter().all(|b| !*b));
}

#[test]
fn textured_image_spatial_hash_has_set_bits() {
    let config = HashConfig::new(8, false).unwrap();
    let fp = Fingerprinter::new(config).fingerprint(&textured(64, 64, 11));
    assert!(fp.bits().iter().any(|b| *b));
    assert!(fp.bits().iter().any(|b| !*b));
}

#[test]
fn different_images_differ() {
    let config = HashConfig::default_config();
    let hasher = Fingerprinter::new(config);
    let gray = hasher.fingerprint(&solid(64, 64, 128));
    let photo = hasher.fingerprint(&textured(64, 64, 5));
    assert_ne!(gray, photo);
}

#[test]
fn config_defaults_and_bounds() {
    let d = HashConfig::default_config();
    assert_eq!(d.side, 10);
    assert!(d.use_frequency_transform);
    assert!(HashConfig::new(0, true).is_none());
    assert!(HashConfig::new(65536, true).is_none());
    assert_eq!(HashConfig::new(65535, false).unwrap().side, 65535);
    assert_eq!(HashConfig::from_options(None, false), Some(d));
    let c = HashConfig::from_options(Some(16), true).unwrap();
    assert_eq!(c.side, 16);
    assert!(!c.use_frequency_transform);
    assert!(HashConfig::from_options(Some(0), false).is_none());
}

#[test]
fn pixel_grid_checks_its_size() {
    assert!(PixelGrid::new(0, 4, Vec::new()).is_none());
    assert!(PixelGrid::new(4, 0, Vec::new()).is_none());
    assert!(PixelGrid::new(2, 2, vec![0; 15]).is_none());
    assert!(PixelGrid::new(2, 2, vec![0; 17]).is_none());
    let g = PixelGrid::new(2, 3, vec![9; 24]).unwrap();
    assert_eq!((g.width, g.height, g.rgba.len()), (2, 3, 24));
}
