use optijpeg::{
    check_direct_file, first_occurrences, is_jpeg_file_name, is_natural_safe, is_wanted_entry,
    sort_names_naturally, DirectFileError, EntryKind,
};

#[test]
fn jpeg_names_are_recognised_in_any_case() {
    for name in ["a.jpg", "A.JPG", "two.jpeg", "x.JpEg", "archive.tar.jpg", "..jpg"] {
        assert!(is_jpeg_file_name(name.as_bytes()), "{name}");
    }
    for name in ["a.png", "ignored.png", ".jpg", ".jpeg", "jpg", "a.jpg.png", "a.", "", "a.jpgx", "a.jp"] {
        assert!(!is_jpeg_file_name(name.as_bytes()), "{name}");
    }
}

#[test]
fn direct_files_are_checked_in_order() {
    assert_eq!(check_direct_file(EntryKind::File, b"image.jpg"), Ok(()));
    assert_eq!(
        check_direct_file(EntryKind::File, b"image.png"),
        Err(DirectFileError::NotJpeg)
    );
    assert_eq!(
        check_direct_file(EntryKind::SymbolicLink, b"link.jpg"),
        Err(DirectFileError::SymbolicLink)
    );
    assert_eq!(
        check_direct_file(EntryKind::Directory, b"photos.jpg"),
        Err(DirectFileError::Directory)
    );
    assert_eq!(
        check_direct_file(EntryKind::Missing, b"gone.jpg"),
        Err(DirectFileError::NotAFile)
    );
    assert_eq!(
        check_direct_file(EntryKind::Other, b"pipe.jpg"),
        Err(DirectFileError::NotAFile)
    );
}

#[test]
fn recursive_search_takes_regular_jpeg_files_only() {
    assert!(is_wanted_entry(EntryKind::File, b"one.JPG"));
    assert!(is_wanted_entry(EntryKind::File, b"two.jpeg"));
    assert!(!is_wanted_entry(EntryKind::File, b"ignored.png"));
    assert!(!is_wanted_entry(EntryKind::SymbolicLink, b"link.jpg"));
    assert!(!is_wanted_entry(EntryKind::Directory, b"dir.jpg"));
}

#[test]
fn repeated_identities_are_kept_once() {
    let ids = vec![
        b"/a/1.jpg".to_vec(),
        b"/a/2.jpg".to_vec(),
        b"/a/1.jpg".to_vec(),
        b"/b/1.jpg".to_vec(),
        b"/a/2.jpg".to_vec(),
    ];
    assert_eq!(first_occurrences(&ids), vec![true, true, false, true, false]);
    assert_eq!(first_occurrences(&vec![]), Vec::<bool>::new());
}

#[test]
fn names_sort_in_natural_order() {
    let names = vec!["/tmp/x/10.jpg".to_string(), "/tmp/x/2.jpg".to_string()];
    assert_eq!(sort_names_naturally(&names), Some(vec![1, 0]));

    let names: Vec<String> = ["b.jpg", "A.jpg", "a10.jpg", "a9.jpg", "a.jpg"]
        .iter()
        .map(|s| s.to_string())
        .collect();
    let order = sort_names_naturally(&names).unwrap();
    let sorted: Vec<&str> = order.iter().map(|&i| names[i].as_str()).collect();
    assert_eq!(sorted, ["A.jpg", "a.jpg", "a9.jpg", "a10.jpg", "b.jpg"]);
}

#[test]
fn equal_names_keep_their_order() {
    let names = vec!["same.jpg".to_string(), "other.jpg".to_string(), "same.jpg".to_string()];
    assert_eq!(sort_names_naturally(&names), Some(vec![1, 0, 2]));
}

#[test]
fn names_with_long_digit_runs_are_told_apart() {
    assert!(is_natural_safe("photo 2024.jpg"));
    assert!(is_natural_safe("été.jpg"));
    assert!(is_natural_safe("1234567890123456789.jpg"));
    assert!(!is_natural_safe("12345678901234567890.jpg"));
    // The superscript one is transliterated to a digit, which makes a run of twenty.
    assert!(!is_natural_safe("1234567890123456789\u{b9}.jpg"));
}

#[test]
fn one_long_digit_run_is_still_sorted() {
    let names = vec![
        "b.jpg".to_string(),
        "12345678901234567890123.jpg".to_string(),
        "a.jpg".to_string(),
    ];
    assert_eq!(sort_names_naturally(&names), Some(vec![1, 2, 0]));
}

#[test]
fn two_long_digit_runs_are_left_to_the_caller() {
    let names = vec![
        "12345678901234567890123.jpg".to_string(),
        "a.jpg".to_string(),
        "99999999999999999999999.jpg".to_string(),
    ];
    assert_eq!(sort_names_naturally(&names), None);
}

#[test]
fn non_ascii_names_sort_by_their_transliteration() {
    let names: Vec<String> = ["b.jpg", "été.jpg", "a.jpg", "é.jpg", "e.jpg"]
        .iter()
        .map(|s| s.to_string())
        .collect();
    let order = sort_names_naturally(&names).unwrap();
    let sorted: Vec<&str> = order.iter().map(|&i| names[i].as_str()).collect();
    assert_eq!(sorted, ["a.jpg", "b.jpg", "e.jpg", "é.jpg", "été.jpg"]);

    let dir = vec!["/tmp/ä/10.jpg".to_string(), "/tmp/ä/2.jpg".to_string()];
    assert_eq!(sort_names_naturally(&dir), Some(vec![1, 0]));
}
