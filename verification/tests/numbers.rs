use gcmod::sections::dol::segment::{Segment, SegmentType};
use gcmod::{
    align, checked_align, format_u64, format_usize, parse_as_u64, parse_as_usize, AppError,
    NumberStyle, DEFAULT_ALIGNMENT, MIN_ALIGNMENT, WRITE_CHUNK_SIZE,
};

#[test]
fn align_rounds_up() {
    assert_eq!(align(0, 4), 0);
    assert_eq!(align(1, 4), 4);
    assert_eq!(align(4, 4), 4);
    assert_eq!(align(5, 4), 8);
    assert_eq!(align(5, 32), 32);
    assert_eq!(align(0x2440 + 100, 32 * 1024), 0x8000);
    assert_eq!(align(u64::MAX, 1), u64::MAX);
    assert_eq!(align(7, 7), 7);
}

#[test]
fn checked_align_stops_at_the_greatest_number() {
    assert_eq!(checked_align(5, 4), Some(8));
    assert_eq!(checked_align(8, 4), Some(8));
    assert_eq!(checked_align(u64::MAX, 2), None);
    assert_eq!(checked_align(u64::MAX - 1, 2), Some(u64::MAX - 1));
    assert_eq!(checked_align(u64::MAX, u64::MAX), Some(u64::MAX));
}

#[test]
fn constants() {
    assert_eq!(WRITE_CHUNK_SIZE, 1 << 20);
    assert_eq!(DEFAULT_ALIGNMENT, 32768);
    assert_eq!(MIN_ALIGNMENT, 4);
}

#[test]
fn numbers_are_formatted_as_std_formats_them() {
    for n in [0u64, 1, 9, 10, 15, 16, 255, 256, 4095, 65536, 0xdead_beef, u64::MAX] {
        assert_eq!(format_u64(n, NumberStyle::Decimal), format!("{}", n));
        assert_eq!(format_u64(n, NumberStyle::Hexadecimal), format!("{:#x}", n));
    }
    assert_eq!(format_u64(0, NumberStyle::Hexadecimal), "0x0");
    assert_eq!(format_u64(255, NumberStyle::Hexadecimal), "0xff");
    assert_eq!(format_u64(1234567890, NumberStyle::Decimal), "1234567890");
    assert_eq!(format_usize(0x57058000, NumberStyle::Hexadecimal), "0x57058000");
    assert_eq!(format_usize(42, NumberStyle::Decimal), "42");
}

#[test]
fn numbers_are_parsed() {
    assert_eq!(parse_as_u64("0").ok(), Some(0));
    assert_eq!(parse_as_u64("12").ok(), Some(12));
    assert_eq!(parse_as_u64("0x10").ok(), Some(16));
    assert_eq!(parse_as_u64("0XfF").ok(), Some(255));
    assert_eq!(parse_as_u64("+5").ok(), Some(5));
    assert_eq!(parse_as_u64("0x+1f").ok(), Some(31));
    assert_eq!(parse_as_u64("007").ok(), Some(7));
    assert_eq!(parse_as_u64("18446744073709551615").ok(), Some(u64::MAX));
    assert_eq!(parse_as_u64("0xffffffffffffffff").ok(), Some(u64::MAX));
    assert_eq!(parse_as_usize("32768").ok(), Some(32768));
    assert_eq!(parse_as_usize("0x8000").ok(), Some(32768));
}

#[test]
fn what_is_no_number_is_refused() {
    for text in ["", "0x", "x10", "12a", "-1", "+", " 1", "1 ", "1_000", "0x1g", "ff", "é"] {
        assert!(parse_as_u64(text).is_err(), "{:?}", text);
        assert!(parse_as_usize(text).is_err(), "{:?}", text);
    }
    assert!(parse_as_u64("18446744073709551616").is_err());
    assert!(parse_as_u64("0x10000000000000000").is_err());
}

#[test]
fn parsing_agrees_with_std() {
    for text in ["17", "0x17", "0X17", "+17", "017", "1e3", "0x", "0xx1", "٣"] {
        let expected = if text.starts_with("0x") || text.starts_with("0X") {
            u64::from_str_radix(&text[2..], 16).ok()
        } else {
            u64::from_str_radix(text, 10).ok()
        };
        assert_eq!(parse_as_u64(text).ok(), expected, "{:?}", text);
    }
}

#[test]
fn an_error_keeps_its_message() {
    let error = AppError::new("no such section");
    assert_eq!(error.message(), "no such section");
    assert_eq!(error.0, "no such section");
}

#[test]
fn segments_are_named() {
    assert_eq!(SegmentType::Text.fmt(0), ".text0");
    assert_eq!(SegmentType::Data.fmt(10), ".data10");
    let mut segment = Segment::data();
    segment.seg_num = 3;
    assert_eq!(segment.name(), ".data3");
    assert_eq!(Segment::text().name(), ".text0");
}

#[test]
fn empty_segments() {
    let text = Segment::text();
    assert_eq!(
        (text.offset, text.size, text.loading_address, text.seg_type, text.seg_num),
        (0, 0, 0, SegmentType::Text, 0)
    );
    let data = Segment::data();
    assert_eq!(
        (data.offset, data.size, data.loading_address, data.seg_type, data.seg_num),
        (0, 0, 0, SegmentType::Data, 0)
    );
}

#[test]
fn names_of_segments_are_read() {
    assert_eq!(Segment::parse_segment_name(".text0"), Some((SegmentType::Text, 0)));
    assert_eq!(Segment::parse_segment_name(".data10"), Some((SegmentType::Data, 10)));
    assert_eq!(Segment::parse_segment_name(".text0x1f"), Some((SegmentType::Text, 31)));
    assert_eq!(Segment::parse_segment_name(".text"), None);
    assert_eq!(Segment::parse_segment_name(".bss1"), None);
    assert_eq!(Segment::parse_segment_name("text1"), None);
    assert_eq!(Segment::parse_segment_name(".data-1"), None);
    assert_eq!(Segment::parse_segment_name(".tex"), None);
    assert_eq!(Segment::parse_segment_name(""), None);
    assert_eq!(Segment::parse_segment_name(".dataé"), None);
}
