use parasync_downloader::byte_range::format_range;
use parasync_downloader::decimal::{parse_u64, u64_to_decimal};
use parasync_downloader::mb_to_kb;

#[test]
fn decimal_text_matches_display() {
    for n in [0u64, 1, 9, 10, 99, 100, 1023, 20_000_000, u64::MAX - 1, u64::MAX] {
        assert_eq!(u64_to_decimal(n), n.to_string());
        assert_eq!(parse_u64(&n.to_string()), Some(n));
    }
}

#[test]
fn range_header_text() {
    assert_eq!(format_range(0, 1), "bytes=0-1");
    assert_eq!(format_range(12, 3456), "bytes=12-3456");
}

#[test]
fn mebibytes_to_bytes() {
    assert_eq!(mb_to_kb(0), 0);
    assert_eq!(mb_to_kb(1), 1_048_576);
    assert_eq!(mb_to_kb(20), 20_971_520);
}
