use image_dedup::errors::DedupError;
use image_dedup::{filter_candidates, is_image_file, validate_root};

#[test]
fn accepts_each_allowed_extension() {
    assert!(is_image_file("a.png"));
    assert!(is_image_file("a.jpg"));
    assert!(is_image_file("a.jpeg"));
    assert!(is_image_file("a.gif"));
    assert!(is_image_file("a.bmp"));
}

#[test]
fn extension_matching_ignores_ascii_case() {
    assert!(is_image_file("photo.JPG"));
    assert!(is_image_file("photo.Png"));
    assert!(is_image_file("photo.JPeG"));
    assert!(is_image_file("photo.BMP"));
}

#[test]
fn rejects_other_extensions() {
    assert!(!is_image_file("notes.txt"));
    assert!(!is_image_file("archive.tar.gz"));
    assert!(!is_image_file("binary"));
    assert!(!is_image_file("trailing."));
    assert!(!is_image_file("a.jpgx"));
}

#[test]
fn extension_comes_from_the_file_name_only() {
    assert!(is_image_file("some/dir/photo.png"));
    assert!(!is_image_file("shots.png/readme"));
    assert!(!is_image_file("dir.jpg/file.txt"));
}

#[test]
fn a_leading_dot_is_not_an_extension() {
    assert!(!is_image_file(".png"));
    assert!(!is_image_file("dir/.jpg"));
    assert!(is_image_file("dir/.hidden.jpg"));
}

#[test]
fn filter_keeps_candidates_in_order() {
    let paths = vec![
        "a.jpg".to_string(),
        "b.txt".to_string(),
        "c/d.PNG".to_string(),
        "e".to_string(),
        "f.gif".to_string(),
    ];
    let kept = filter_candidates(&paths);
    assert_eq!(kept, vec!["a.jpg".to_string(), "c/d.PNG".to_string(), "f.gif".to_string()]);
}

#[test]
fn filter_of_no_paths_is_empty() {
    let kept = filter_candidates(&Vec::new());
    assert!(kept.is_empty());
}

#[test]
fn missing_root_fails_before_any_scanning() {
    let r = validate_root("no/such/dir".to_string(), false);
    match r {
        Err(DedupError::NotFoundError { path }) => assert_eq!(path, "no/such/dir"),
        _ => panic!("expected NotFoundError"),
    }
}

#[test]
fn existing_root_passes_validation() {
    assert!(validate_root("some/dir".to_string(), true).is_ok());
}

#[test]
fn not_found_message_names_the_folder() {
    let e = DedupError::NotFoundError { path: "pics".to_string() };
    assert_eq!(e.message(), "Folder not found at pics");
}

#[test]
fn decode_and_delete_messages_name_the_file() {
    let d = DedupError::DecodeError { path: "a.jpg".to_string() };
    assert_eq!(d.message(), "Could not read file a.jpg");
    let x = DedupError::DeleteError { path: "b.jpg".to_string() };
    assert_eq!(x.message(), "Error deleting b.jpg");
}
