use optijpeg::{format_number, format_size, size_change, Optimization, SizeChange, Status, Summary};

#[test]
fn formats_numbers_with_digit_grouping() {
    assert_eq!(format_number(0), "0");
    assert_eq!(format_number(999), "999");
    assert_eq!(format_number(1_000), "1,000");
    assert_eq!(format_number(360_152), "360,152");
    assert_eq!(format_number(u64::MAX), "18,446,744,073,709,551,615");
}

#[test]
fn formats_bytes_as_binary_units() {
    assert_eq!(format_size(0), "0 KiB");
    assert_eq!(format_size(511), "0 KiB");
    assert_eq!(format_size(512), "1 KiB");
    assert_eq!(format_size(360_152), "352 KiB");
    assert_eq!(format_size(1_048_575), "1,024 KiB");
    assert_eq!(format_size(1_048_576), "1 MiB");
    assert_eq!(format_size(1_572_864), "1.5 MiB");
    assert_eq!(format_size(1_289_748), "1.23 MiB");
    assert_eq!(format_size(1_073_741_824), "1,024 MiB");
}

#[test]
fn grouping_only_inserts_commas() {
    for value in [0u64, 7, 12, 123, 1234, 12345, 123456, 1234567, 9_876_543_210] {
        assert_eq!(format_number(value).replace(',', ""), value.to_string());
    }
}

#[test]
fn sizes_round_half_up() {
    assert_eq!(format_size(1_535), "1 KiB");
    assert_eq!(format_size(1_536), "2 KiB");
    // 1.005 MiB rounds up to 1.01 MiB; 1.995 MiB rounds up to 2 MiB.
    assert_eq!(format_size(1_053_819), "1.01 MiB");
    assert_eq!(format_size(2_091_909), "1.99 MiB");
    assert_eq!(format_size(2_091_914), "2 MiB");
    assert_eq!(format_size(u64::MAX), "17,592,186,044,416 MiB");
}

#[test]
fn summary_counts_each_outcome() {
    let mut summary = Summary::default();
    assert!(summary.succeeded());
    summary.record(Some(Optimization { original_size: 100, final_size: 60, status: Status::Optimized }));
    summary.record(Some(Optimization { original_size: 50, final_size: 80, status: Status::Optimized }));
    summary.record(Some(Optimization { original_size: 70, final_size: 70, status: Status::Unchanged }));
    assert!(summary.succeeded());
    summary.record(None);
    assert_eq!(
        summary,
        Summary { optimized: 2, unchanged: 1, failed: 1, bytes_saved: 40 }
    );
    assert!(!summary.succeeded());
}

#[test]
fn size_changes_are_reported_either_way() {
    let shrunk = Optimization { original_size: 100, final_size: 60, status: Status::Optimized };
    assert_eq!(size_change(shrunk), SizeChange::Shrunk(40));
    let same = Optimization { original_size: 60, final_size: 60, status: Status::Optimized };
    assert_eq!(size_change(same), SizeChange::Shrunk(0));
    let grew = Optimization { original_size: 50, final_size: 80, status: Status::Optimized };
    assert_eq!(size_change(grew), SizeChange::Grew(30));
}
