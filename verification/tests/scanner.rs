use om_fast_parser::{parse_hit_object_line, parse_int_fast, HitObjectType};

#[test]
fn scan_empty_is_zero() {
    assert_eq!(parse_int_fast(b""), 0);
}

#[test]
fn scan_only_spaces_is_zero() {
    assert_eq!(parse_int_fast(b"    "), 0);
}

#[test]
fn scan_lone_minus_is_zero() {
    assert_eq!(parse_int_fast(b"-"), 0);
}

#[test]
fn scan_plain_numbers() {
    assert_eq!(parse_int_fast(b"0"), 0);
    assert_eq!(parse_int_fast(b"7"), 7);
    assert_eq!(parse_int_fast(b"123"), 123);
    assert_eq!(parse_int_fast(b"1234"), 1234);
    assert_eq!(parse_int_fast(b"12345"), 12345);
    assert_eq!(parse_int_fast(b"12345678"), 12345678);
    assert_eq!(parse_int_fast(b"123456789"), 123456789);
    assert_eq!(parse_int_fast(b"0007"), 7);
}

#[test]
fn scan_negative_numbers() {
    assert_eq!(parse_int_fast(b"-45"), -45);
    assert_eq!(parse_int_fast(b"-12345"), -12345);
    assert_eq!(parse_int_fast(b"  -9"), -9);
}

#[test]
fn scan_skips_leading_spaces_only() {
    assert_eq!(parse_int_fast(b"   42"), 42);
    assert_eq!(parse_int_fast(b"\t42"), 0);
    assert_eq!(parse_int_fast(b"- 42"), 0);
    assert_eq!(parse_int_fast(b"+42"), 0);
    assert_eq!(parse_int_fast(b"--42"), 0);
}

#[test]
fn scan_stops_at_first_non_digit() {
    assert_eq!(parse_int_fast(b"12abc"), 12);
    assert_eq!(parse_int_fast(b"3500:0:0"), 3500);
    assert_eq!(parse_int_fast(b"12 34"), 12);
    assert_eq!(parse_int_fast(b"1234x5678"), 1234);
    assert_eq!(parse_int_fast(b"12345x678"), 12345);
    assert_eq!(parse_int_fast(b"abc"), 0);
}

#[test]
fn scan_extremes() {
    assert_eq!(parse_int_fast(b"2147483647"), i32::MAX);
    assert_eq!(parse_int_fast(b"-2147483647"), -i32::MAX);
    assert_eq!(parse_int_fast(b"-2147483648"), i32::MIN);
}

#[test]
fn scan_overflow_wraps() {
    assert_eq!(parse_int_fast(b"2147483648"), i32::MIN);
    assert_eq!(parse_int_fast(b"4294967296"), 0);
    assert_eq!(parse_int_fast(b"4294967297"), 1);
    assert_eq!(parse_int_fast(b"-4294967297"), -1);
    assert_eq!(parse_int_fast(b"99999999999999999999"), 1661992959);
}

#[test]
fn scan_reads_back_decimal_text() {
    let values: [i32; 12] =
        [0, 1, -1, 9, 10, 99, 1000, 9999, 10000, 123456, i32::MAX, -i32::MAX];
    for v in values {
        for terminator in [",", ":", " ", "x", "\n", ""] {
            let text = format!("{}{}", v, terminator);
            assert_eq!(parse_int_fast(text.as_bytes()), v);
        }
    }
}

#[test]
fn line_point_in_mania() {
    let obj = parse_hit_object_line(b"64,192,1000,1,0,0:0:0:0:", 3);
    assert_eq!(obj.x, 64);
    assert_eq!(obj.y, 192);
    assert_eq!(obj.time, 1000);
    assert_eq!(obj.object_type, HitObjectType::Circle);
    assert_eq!(obj.end_time, None);
}

#[test]
fn line_sustain_in_mania() {
    let obj = parse_hit_object_line(b"192,192,2000,128,0,3500:0:0:0:0", 3);
    assert_eq!(obj.x, 192);
    assert_eq!(obj.y, 192);
    assert_eq!(obj.time, 2000);
    assert_eq!(obj.object_type, HitObjectType::Hold);
    assert_eq!(obj.end_time, Some(3500));
}

#[test]
fn line_sustain_bit_outside_mania_is_point() {
    for mode in [0u8, 1, 2, 4, 255] {
        let obj = parse_hit_object_line(b"192,192,2000,128,0,3500:0:0:0:0", mode);
        assert_eq!(obj.object_type, HitObjectType::Circle);
        assert_eq!(obj.end_time, None);
        assert_eq!(obj.time, 2000);
    }
}

#[test]
fn line_end_time_stops_at_comma_too() {
    let obj = parse_hit_object_line(b"1,2,3,128,0,4500,77", 3);
    assert_eq!(obj.end_time, Some(4500));
}

#[test]
fn line_type_flags_use_low_byte() {
    assert_eq!(parse_hit_object_line(b"1,2,3,384,0,9:", 3).object_type, HitObjectType::Hold);
    assert_eq!(parse_hit_object_line(b"1,2,3,256,0,9:", 3).object_type, HitObjectType::Circle);
    assert_eq!(parse_hit_object_line(b"1,2,3,-128,0,9:", 3).object_type, HitObjectType::Hold);
    assert_eq!(parse_hit_object_line(b"1,2,3,132,0,9:", 3).end_time, Some(9));
    assert_eq!(parse_hit_object_line(b"1,2,3,127,0,9:", 3).object_type, HitObjectType::Circle);
}

#[test]
fn line_missing_fields_read_as_zero() {
    let obj = parse_hit_object_line(b"", 3);
    assert_eq!((obj.x, obj.y, obj.time), (0, 0, 0));
    assert_eq!(obj.object_type, HitObjectType::Circle);
    assert_eq!(obj.end_time, None);

    let obj = parse_hit_object_line(b"5,6", 3);
    assert_eq!((obj.x, obj.y, obj.time), (5, 6, 0));
    assert_eq!(obj.end_time, None);

    let obj = parse_hit_object_line(b"5,6,7,128", 3);
    assert_eq!((obj.x, obj.y, obj.time), (5, 6, 7));
    assert_eq!(obj.object_type, HitObjectType::Hold);
    assert_eq!(obj.end_time, Some(0));

    let obj = parse_hit_object_line(b"5,6,7,128,", 3);
    assert_eq!(obj.end_time, Some(0));

    let obj = parse_hit_object_line(b",,,", 0);
    assert_eq!((obj.x, obj.y, obj.time), (0, 0, 0));
}

#[test]
fn line_garbled_fields() {
    let obj = parse_hit_object_line(b" 12x,-7, 30 ,1", 0);
    assert_eq!((obj.x, obj.y, obj.time), (12, -7, 30));
    assert_eq!(obj.object_type, HitObjectType::Circle);
}

#[test]
fn line_end_time_present_exactly_for_holds() {
    let lines: [&[u8]; 5] = [
        b"64,192,1000,1,0,0:0:0:0:",
        b"192,192,2000,128,0,3500:0:0:0:0",
        b"1,1,1,255",
        b"",
        b"9,9,9,128,0",
    ];
    for line in lines {
        for mode in [0u8, 3, 7] {
            let obj = parse_hit_object_line(line, mode);
            assert_eq!(obj.end_time.is_some(), obj.object_type == HitObjectType::Hold);
            if mode != 3 {
                assert_eq!(obj.object_type, HitObjectType::Circle);
            }
        }
    }
}
