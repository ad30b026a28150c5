use hardlink_dedup::format::{csv_row, kmgt, push_decimal, report_line};

#[test]
fn kmgt_plain_bytes() {
    assert_eq!(kmgt(0), "0 B");
    assert_eq!(kmgt(1), "1 B");
    assert_eq!(kmgt(1023), "1023 B");
}

#[test]
fn kmgt_kibibytes_truncate_the_fraction() {
    assert_eq!(kmgt(1024), "1.0 kiB");
    assert_eq!(kmgt(1536), "1.5 kiB");
    assert_eq!(kmgt(2047), "1.9 kiB");
    assert_eq!(kmgt(1024 * 1024 - 1), "1023.9 kiB");
}

#[test]
fn kmgt_larger_units() {
    assert_eq!(kmgt(1024 * 1024), "1.0 MiB");
    assert_eq!(kmgt(5 * 1024 * 1024 + 512 * 1024), "5.5 MiB");
    assert_eq!(kmgt(1024 * 1024 * 1024), "1.0 GiB");
    assert_eq!(kmgt(1024 * 1024 * 1024 * 1024), "1.0 TiB");
    assert_eq!(kmgt(u64::MAX), "16777215.9 TiB");
}

#[test]
fn csv_row_quotes_the_paths() {
    assert_eq!(csv_row("/a/dup.bin", 65536, "/b/keep.bin"), "\"/a/dup.bin\",65536,\"/b/keep.bin\"");
    assert_eq!(csv_row("", 0, ""), "\"\",0,\"\"");
}

#[test]
fn report_line_points_from_the_survivor_to_the_duplicate() {
    assert_eq!(report_line("/b/keep.bin", "/a/dup.bin"), "\"/b/keep.bin\" => \"/a/dup.bin\"");
}

#[test]
fn push_decimal_appends_the_digits() {
    let mut text = String::from("n=");
    push_decimal(&mut text, 0);
    push_decimal(&mut text, 907);
    push_decimal(&mut text, u64::MAX);
    assert_eq!(text, "n=090718446744073709551615");
}
