use image_dedup::fingerprint_of_bytes;
use image_dedup::{fingerprint_files, FileContent};

#[test]
fn empty_input_has_known_fingerprint() {
    let fp = fingerprint_of_bytes(&Vec::new());
    assert_eq!(fp, "d41d8cd98f00b204e9800998ecf8427e");
}

#[test]
fn known_bytes_have_known_fingerprint() {
    let fp = fingerprint_of_bytes(&b"abc".to_vec());
    assert_eq!(fp, "900150983cd24fb0d6963f7d28e17f72");
}

#[test]
fn fingerprint_is_32_hex_digits() {
    let fp = fingerprint_of_bytes(&b"hello".to_vec());
    assert_eq!(fp.len(), 32);
    assert!(fp.chars().all(|c| c.is_ascii_hexdigit() && !c.is_ascii_uppercase()));
}

#[test]
fn fingerprint_is_deterministic() {
    let a = fingerprint_of_bytes(&b"same content".to_vec());
    let b = fingerprint_of_bytes(&b"same content".to_vec());
    assert_eq!(a, b);
}

#[test]
fn different_bytes_have_different_fingerprints() {
    let a = fingerprint_of_bytes(&b"one".to_vec());
    let b = fingerprint_of_bytes(&b"two".to_vec());
    assert_ne!(a, b);
}

#[test]
fn fingerprint_files_pairs_each_path_with_its_hash() {
    let files = vec![
        FileContent { path: "x.png".to_string(), bytes: b"abc".to_vec() },
        FileContent { path: "y.png".to_string(), bytes: Vec::new() },
    ];
    let pairs = fingerprint_files(&files);
    assert_eq!(pairs.len(), 2);
    assert_eq!(pairs[0].path, "x.png");
    assert_eq!(pairs[0].fingerprint, "900150983cd24fb0d6963f7d28e17f72");
    assert_eq!(pairs[1].path, "y.png");
    assert_eq!(pairs[1].fingerprint, "d41d8cd98f00b204e9800998ecf8427e");
}
