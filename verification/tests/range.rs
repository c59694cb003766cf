use serve_static::range::{is_whitespace, parse, ByteRange};

#[test]
fn single_segment() {
    let r = parse("bytes=100-199", 1000).unwrap();
    assert_eq!(
        r,
        ByteRange {
            start: 100,
            length: 100
        }
    );
}

#[test]
fn open_ended() {
    let r = parse("bytes=100-", 1000).unwrap();
    assert_eq!(
        r,
        ByteRange {
            start: 100,
            length: 900
        }
    );
}

#[test]
fn suffix() {
    let r = parse("bytes=-200", 1000).unwrap();
    assert_eq!(
        r,
        ByteRange {
            start: 800,
            length: 200
        }
    );
}

#[test]
fn suffix_exceeds_size() {
    let r = parse("bytes=-5000", 1000).unwrap();
    assert_eq!(
        r,
        ByteRange {
            start: 0,
            length: 1000
        }
    );
}

#[test]
fn start_beyond_size() {
    assert!(parse("bytes=1000-1100", 1000).is_none());
}

#[test]
fn end_less_than_start() {
    assert!(parse("bytes=500-400", 1000).is_none());
}

#[test]
fn non_bytes_unit() {
    assert!(parse("items=0-5", 1000).is_none());
}

#[test]
fn malformed_values() {
    assert!(parse("bytes=abc-def", 1000).is_none());
}

#[test]
fn end_truncated_to_size() {
    let r = parse("bytes=900-2000", 1000).unwrap();
    assert_eq!(
        r,
        ByteRange {
            start: 900,
            length: 100
        }
    );
}

#[test]
fn suffix_zero() {
    assert!(parse("bytes=-0", 1000).is_none());
}

#[test]
fn zero_total_size() {
    assert!(parse("bytes=0-0", 0).is_none());
}

#[test]
fn multi_range_rejected() {
    assert!(parse("bytes=0-50, 100-150", 1000).is_none());
}

#[test]
fn whitespace_tolerated() {
    let r = parse("bytes= 100 - 199 ", 1000).unwrap();
    assert_eq!(
        r,
        ByteRange {
            start: 100,
            length: 100,
        }
    );
}

#[test]
fn suffix_with_whitespace() {
    let r = parse("bytes= -200 ", 1000).unwrap();
    assert_eq!(
        r,
        ByteRange {
            start: 800,
            length: 200,
        }
    );
}

// ordinary headers

#[test]
fn single_byte() {
    let r = parse("bytes=0-0", 1000).unwrap();
    assert_eq!(r, ByteRange { start: 0, length: 1 });
}

#[test]
fn full_file() {
    let r = parse("bytes=0-999", 1000).unwrap();
    assert_eq!(r, ByteRange { start: 0, length: 1000 });
}

#[test]
fn last_byte() {
    let r = parse("bytes=999-999", 1000).unwrap();
    assert_eq!(r, ByteRange { start: 999, length: 1 });
}

#[test]
fn suffix_equals_total_size() {
    let r = parse("bytes=-1000", 1000).unwrap();
    assert_eq!(r, ByteRange { start: 0, length: 1000 });
}

#[test]
fn size_one_file_full_range() {
    let r = parse("bytes=0-0", 1).unwrap();
    assert_eq!(r, ByteRange { start: 0, length: 1 });
}

#[test]
fn size_one_file_suffix() {
    let r = parse("bytes=-1", 1).unwrap();
    assert_eq!(r, ByteRange { start: 0, length: 1 });
}

#[test]
fn open_ended_from_start() {
    let r = parse("bytes=0-", 1000).unwrap();
    assert_eq!(r, ByteRange { start: 0, length: 1000 });
}

// headers that give no range

#[test]
fn empty_header() {
    assert!(parse("", 1000).is_none());
}

#[test]
fn bytes_prefix_only() {
    // nothing after the unit, not even a dash
    assert!(parse("bytes=", 1000).is_none());
}

#[test]
fn bytes_dash_only() {
    // a suffix form without its count
    assert!(parse("bytes=-", 1000).is_none());
}

#[test]
fn double_dash() {
    // a suffix form whose count would be "-5", which is no number
    assert!(parse("bytes=--5", 1000).is_none());
}

#[test]
fn start_equals_size() {
    // start == total_size is unsatisfiable (valid range is 0..size-1).
    assert!(parse("bytes=1000-1000", 1000).is_none());
}

#[test]
fn size_one_file_start_beyond() {
    assert!(parse("bytes=1-1", 1).is_none());
}

#[test]
fn valid_start_invalid_end() {
    assert!(parse("bytes=0-abc", 1000).is_none());
}

#[test]
fn open_ended_beyond_size() {
    assert!(parse("bytes=1000-", 1000).is_none());
}

#[test]
fn plus_sign_is_part_of_a_number() {
    assert_eq!(parse("bytes=+5-+9", 1000), Some(ByteRange { start: 5, length: 5 }));
    assert_eq!(parse("bytes=-+7", 1000), Some(ByteRange { start: 993, length: 7 }));
    assert!(parse("bytes=+-5", 1000).is_none());
    assert!(parse("bytes=++5-9", 1000).is_none());
}

#[test]
fn leading_zeros_are_allowed() {
    assert_eq!(parse("bytes=007-0010", 1000), Some(ByteRange { start: 7, length: 4 }));
}

#[test]
fn numbers_up_to_the_largest() {
    let max = u64::MAX;
    assert_eq!(
        parse("bytes=0-18446744073709551615", max),
        Some(ByteRange { start: 0, length: max })
    );
    assert_eq!(
        parse("bytes=18446744073709551614-", max),
        Some(ByteRange { start: max - 1, length: 1 })
    );
    assert_eq!(parse("bytes=-18446744073709551615", 10), Some(ByteRange { start: 0, length: 10 }));
}

#[test]
fn numbers_beyond_the_largest_give_nothing() {
    assert!(parse("bytes=0-18446744073709551616", 1000).is_none());
    assert!(parse("bytes=18446744073709551616-", 1000).is_none());
    assert!(parse("bytes=-99999999999999999999999", 1000).is_none());
}

#[test]
fn space_inside_a_number_gives_nothing() {
    assert!(parse("bytes=1 0-20", 1000).is_none());
    assert!(parse("bytes=10-2 0", 1000).is_none());
}

#[test]
fn space_before_the_unit_gives_nothing() {
    assert!(parse(" bytes=0-1", 1000).is_none());
    assert!(parse("Bytes=0-1", 1000).is_none());
    assert!(parse("bytes =0-1", 1000).is_none());
}

#[test]
fn unicode_space_is_trimmed() {
    assert_eq!(
        parse("bytes=\u{a0}10\u{2003}-\u{3000}19\t", 1000),
        Some(ByteRange { start: 10, length: 10 })
    );
    // a zero-width space is no space
    assert!(parse("bytes=\u{200b}10-19", 1000).is_none());
}

#[test]
fn only_spaces_count_as_nothing() {
    assert_eq!(parse("bytes= - 5", 1000), Some(ByteRange { start: 995, length: 5 }));
    assert_eq!(parse("bytes=5 - ", 1000), Some(ByteRange { start: 5, length: 995 }));
    assert!(parse("bytes= - ", 1000).is_none());
}

#[test]
fn comma_anywhere_gives_nothing() {
    assert!(parse("bytes=0-5,", 1000).is_none());
    assert!(parse("bytes=,0-5", 1000).is_none());
    assert!(parse("bytes=0,5", 1000).is_none());
}

#[test]
fn second_dash_belongs_to_the_last_number() {
    assert!(parse("bytes=0-5-9", 1000).is_none());
    assert!(parse("bytes=0--5", 1000).is_none());
}

#[test]
fn non_ascii_digits_are_no_digits() {
    assert!(parse("bytes=\u{661}-\u{662}", 1000).is_none());
}

#[test]
fn range_lies_within_the_file() {
    let headers = [
        "bytes=0-0", "bytes=5-", "bytes=-5", "bytes=3-9999", "bytes=-9999", "bytes=9-9", "bytes=0-",
    ];
    for total in [1u64, 2, 9, 10, 11, 1000] {
        for header in headers {
            if let Some(r) = parse(header, total) {
                assert!(r.length >= 1);
                assert!(r.start + r.length <= total);
            }
        }
    }
}

#[test]
fn whitespace_is_the_unicode_property() {
    let spaces = [
        '\t', '\n', '\u{b}', '\u{c}', '\r', ' ', '\u{85}', '\u{a0}', '\u{1680}', '\u{2000}',
        '\u{2005}', '\u{200a}', '\u{2028}', '\u{2029}', '\u{202f}', '\u{205f}', '\u{3000}',
    ];
    for c in spaces {
        assert!(is_whitespace(c));
    }
    for c in ['a', '0', '-', '\u{8}', '\u{e}', '\u{200b}', '\u{180e}', '\u{feff}', '\u{2060}'] {
        assert!(!is_whitespace(c));
    }
}

#[test]
fn whitespace_agrees_with_std_everywhere() {
    for u in 0..=0x10ffffu32 {
        if let Some(c) = char::from_u32(u) {
            assert_eq!(is_whitespace(c), c.is_whitespace());
        }
    }
}

/// The same reading of a header, written with the string functions of the
/// standard library.
fn read_with_std(header: &str, total: u64) -> Option<ByteRange> {
    if total == 0 {
        return None;
    }
    let rest = header.strip_prefix("bytes=")?;
    if rest.contains(',') {
        return None;
    }
    let (first, last) = rest.split_once('-')?;
    let (first, last) = (first.trim(), last.trim());
    if first.is_empty() {
        let count = last.parse::<u64>().ok()?;
        if count == 0 {
            return None;
        }
        let start = total.saturating_sub(count);
        return Some(ByteRange { start, length: total - start });
    }
    let start = first.parse::<u64>().ok()?;
    let end = if last.is_empty() { total - 1 } else { last.parse::<u64>().ok()? };
    if start > end || start >= total {
        return None;
    }
    Some(ByteRange { start, length: end.min(total - 1) - start + 1 })
}

#[test]
fn parse_agrees_with_the_standard_library() {
    let alphabet = [
        "b", "bytes=", "bytes", "=", "-", "-", "-", ",", " ", "\t", "\u{a0}", "\u{3000}", "+", "0",
        "0", "1", "2", "5", "9", "9", "10", "99", "999", "1000", "18446744073709551615",
        "18446744073709551616", "a", "\u{661}", "e", ".",
    ];
    let mut seed: u64 = 42;
    let mut next = move || {
        seed = seed.wrapping_mul(6364136223846793005).wrapping_add(1442695040888963407);
        (seed >> 33) as usize
    };
    let mut some = 0;
    for _ in 0..20000 {
        let mut header = String::new();
        if next() % 8 != 0 {
            header.push_str("bytes=");
        }
        for _ in 0..next() % 7 {
            header.push_str(alphabet[next() % alphabet.len()]);
        }
        for total in [0u64, 1, 10, 1000, u64::MAX] {
            let got = parse(&header, total);
            assert_eq!(got, read_with_std(&header, total), "{:?} of {}", header, total);
            if got.is_some() {
                some += 1;
            }
        }
    }
    assert!(some > 1000);
}
