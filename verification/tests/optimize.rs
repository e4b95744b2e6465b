use optijpeg::{
    check_input, contains_metadata, output_length, plan_optimization, should_replace, InputError,
    Optimization, OutputError, Plan, Status,
};

#[test]
fn replaces_smaller_files_or_files_with_metadata() {
    let metadata_free = [0; 8];
    let with_metadata = [0xff, 0xd8, 0xff, 0xe1, 0, 2, 0xff, 0xd9];

    assert!(should_replace(&metadata_free, &[0; 7]));
    assert!(!should_replace(&metadata_free, &[0; 8]));
    assert!(should_replace(&with_metadata, &[0; 9]));
}

#[test]
fn metadata_is_found_after_start_of_image() {
    assert!(contains_metadata(&[0xff, 0xd8, 0xff, 0xe0, 0x00, 0x02]));
    assert!(contains_metadata(&[0xff, 0xd8, 0xff, 0xef]));
    assert!(contains_metadata(&[0xff, 0xd8, 0xff, 0xfe, 0x00, 0x03, 0x41]));
}

#[test]
fn streams_without_app_or_comment_markers_have_no_metadata() {
    assert!(!contains_metadata(&[]));
    assert!(!contains_metadata(&[0xff]));
    assert!(!contains_metadata(&[0xff, 0xd8, 0xff, 0xd9]));
    assert!(!contains_metadata(&[0x00, 0xe1, 0x12, 0xfe]));
    // SOI, then a quantisation table segment whose payload happens to hold
    // the bytes of an APP1 marker, then EOI.
    assert!(!contains_metadata(&[0xff, 0xd8, 0xff, 0xdb, 0x00, 0x04, 0xff, 0xe1, 0xff, 0xd9]));
}

#[test]
fn fill_bytes_and_stuffed_zeros_are_stepped_over() {
    assert!(contains_metadata(&[0xff, 0xff, 0xff, 0xe2]));
    assert!(contains_metadata(&[0xff, 0x00, 0xff, 0xe0]));
    assert!(contains_metadata(&[0xff, 0xd0, 0xff, 0x01, 0xff, 0xe5]));
}

#[test]
fn malformed_segment_headers_end_the_scan() {
    // Truncated length field.
    assert!(!contains_metadata(&[0xff, 0xc0, 0x00]));
    // A length below two.
    assert!(!contains_metadata(&[0xff, 0xc4, 0x00, 0x01, 0xff, 0xe1]));
    // A segment that runs past the end.
    assert!(!contains_metadata(&[0xff, 0xc4, 0x01, 0x00, 0xff, 0xe1]));
}

#[test]
fn metadata_survives_appended_bytes() {
    let mut stream = vec![0xff, 0xd8, 0xff, 0xe1, 0x00, 0x02];
    assert!(contains_metadata(&stream));
    stream.extend_from_slice(&[0xff, 0xc0, 0x00]);
    assert!(contains_metadata(&stream));
}

#[test]
fn exif_segment_inserted_after_soi_is_metadata() {
    let payload = b"Exif\0\0optijpeg-test-metadata";
    let mut jpeg = vec![0xff, 0xd8, 0xff, 0xe1];
    jpeg.extend_from_slice(&u16::try_from(payload.len() + 2).unwrap().to_be_bytes());
    jpeg.extend_from_slice(payload);
    jpeg.extend_from_slice(&[0xff, 0xd9]);
    assert!(contains_metadata(&jpeg));
    assert!(should_replace(&jpeg, &vec![0; jpeg.len() + 100]));
}

#[test]
fn empty_input_is_refused() {
    assert_eq!(check_input(&[]), Err(InputError::Empty));
    assert_eq!(check_input(&[0xff]), Ok(()));
}

#[test]
fn plan_keeps_a_file_that_would_not_shrink() {
    let original = [0xff, 0xd8, 0xff, 0xd9];
    let plan = plan_optimization(&original, &[1, 2, 3, 4]);
    assert_eq!(
        plan,
        Plan::Keep(Optimization { original_size: 4, final_size: 4, status: Status::Unchanged })
    );
}

#[test]
fn plan_replaces_a_file_that_shrinks() {
    let original = [0u8; 10];
    let plan = plan_optimization(&original, &[0u8; 6]);
    assert_eq!(
        plan,
        Plan::Replace(Optimization { original_size: 10, final_size: 6, status: Status::Optimized })
    );
}

#[test]
fn plan_replaces_a_file_with_metadata_even_when_larger() {
    let original = [0xff, 0xd8, 0xff, 0xfe, 0x00, 0x02];
    let plan = plan_optimization(&original, &[0u8; 9]);
    assert_eq!(
        plan,
        Plan::Replace(Optimization { original_size: 6, final_size: 9, status: Status::Optimized })
    );
}

#[test]
fn bytes_saved_saturates_at_zero() {
    let smaller = Optimization { original_size: 100, final_size: 40, status: Status::Optimized };
    assert_eq!(smaller.bytes_saved(), 60);
    let larger = Optimization { original_size: 40, final_size: 100, status: Status::Optimized };
    assert_eq!(larger.bytes_saved(), 0);
    let same = Optimization { original_size: 7, final_size: 7, status: Status::Unchanged };
    assert_eq!(same.bytes_saved(), 0);
}

#[test]
fn encoder_output_lengths() {
    assert_eq!(output_length(false, 10), Err(OutputError::NoOutput));
    assert_eq!(output_length(true, 0), Err(OutputError::NoOutput));
    assert_eq!(output_length(true, 1234), Ok(1234));
    if usize::BITS < 64 {
        assert_eq!(output_length(true, u64::MAX), Err(OutputError::TooLarge));
    } else {
        assert_eq!(output_length(true, u64::MAX), Ok(usize::MAX));
    }
}
