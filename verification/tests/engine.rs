use patterns::xxh3::xxh3_data;
use patterns::{ParsePatternError, Pattern};

fn collect(pattern: &Pattern, data: &[u8]) -> Vec<usize> {
    let mut scan = pattern.matches(data);
    let mut found = Vec::new();
    while let Some(offset) = scan.next() {
        found.push(offset);
    }
    found
}

fn simple(pattern: &str, data: &[u8]) -> Vec<usize> {
    collect(&Pattern::from_str(pattern).unwrap(), data)
}

#[test]
fn tests_basic() {
    assert_eq!(simple("42", &[0x42]), &[0]);
    assert_eq!(simple("24", &[0x42]), &[] as &[usize]);
    assert_eq!(simple("42", &[0x42; 2]), &[0, 1]);
}

#[test]
fn tests_leading_wildcard() {
    assert_eq!(simple("? 42", &[0x42]), &[] as &[usize]);
    assert_eq!(simple("? 42", &[0x22, 0x42]), &[0]);
}

#[test]
fn tests_trailing_wildcard() {
    assert_eq!(simple("42 ?", &[0x42]), &[] as &[usize]);
}

#[test]
fn tests_trailing_zero() {
    assert_eq!(simple("00", &[0x42]), &[] as &[usize]);
    assert_eq!(simple("42 00", &[0x42]), &[] as &[usize]);
}

#[test]
fn tests_xxh3_data_test() {
    assert_eq!(
        xxh3_data(16),
        &[199, 123, 58, 187, 111, 135, 172, 217, 243, 107, 74, 26, 68, 247, 139, 243]
    );
}

#[test]
fn tests_small() {
    //    00 01 02 03 04 05 06 07 08 09 0A 0B 0C 0D 0E 0F
    // 0x c7 7b 3a bb 6f 87 ac d9 f3 6b 4a 1a 44 f7 8b f3
    // 1x 3e 69 48 79 79 85 51 1c d0 36 c6 a9 c6 b3 1c 1d
    // 2x 93 47 f2 9a a4 16 00 1e c2 8f 1f 5e 73 70 05 06
    // 3x 4c 14 53 22 e9 63 61 c2 f8 c0 12 6b 89 b4 fa fc
    let data = xxh3_data(64);
    assert_eq!(simple("c7 7b", &data), &[0]);
    assert_eq!(simple("c7 7b ?", &data), &[0]);
    assert_eq!(simple("? c7 7b", &data), &[] as &[usize]);
    assert_eq!(simple("f3", &data), &[0x08, 0x0F]);
    assert_eq!(simple("f3 ? 4a", &data), &[0x08]);
    assert_eq!(simple("f3 ? 69", &data), &[0x0F]);
    assert_eq!(simple("c2", &data), &[0x28, 0x37]);
    assert_eq!(simple("c2 ? ? 5e", &data), &[0x28]);
    assert_eq!(simple("c2 ? ? 12", &data), &[0x37]);
    assert_eq!(simple("14 53 22 e9 63", &data), &[0x31]);

    // uneven tail
    assert_eq!(simple("c2", &data[..=0x37]), &[0x28, 0x37]);
    assert_eq!(simple("14 53 22 e9 63", &data[..=0x37]), &[0x31]);
}

#[test]
fn tests_medium() {
    let data = xxh3_data(256);
    // 9b 3f a9 34 a5 38 6f ad cc 24 10 47 83 77 a5 cc  (row 0x80)
    assert_eq!(simple("34", &data), &[0x83]);
    assert_eq!(simple("34 a5", &data), &[0x83]);
    assert_eq!(simple("34 a5 38", &data), &[0x83]);
}

#[test]
fn tests_repeat_across_buffer() {
    let mut data = [0_u8; 64];
    data[0] = 1;
    data[1] = 1;
    assert_eq!(simple("01", &data), &[0, 1]);
}

#[test]
fn tests_from_slice_round_trip() {
    // rebuilding a pattern from its own bytes and mask keeps the match set
    let data = xxh3_data(64);
    let parsed = Pattern::from_str("f3 ? 4a").unwrap();
    let rebuilt = Pattern::from_slice(&parsed.bytes[..parsed.length], parsed.mask);
    assert_eq!(collect(&parsed, &data), collect(&rebuilt, &data));
    assert_eq!(collect(&rebuilt, &data), &[0x08]);
}

#[test]
fn tests_parse_errors() {
    let too_long = vec!["00"; 65].join(" ");
    assert_eq!(
        Pattern::from_str(&too_long).unwrap_err(),
        ParsePatternError::PatternTooLong
    );
    assert_eq!(
        Pattern::from_str("zz").unwrap_err(),
        ParsePatternError::InvalidHexNumber
    );
    assert_eq!(
        Pattern::from_str("? ?").unwrap_err(),
        ParsePatternError::MissingNonWildcardByte
    );
    assert_eq!(
        Pattern::from_str_align("00", 3).unwrap_err(),
        ParsePatternError::AlignmentUnsupported
    );
    assert!(Pattern::from_str_align("00", 2).is_ok());
}

#[test]
fn tests_chunk_width_pattern() {
    // pattern length equals the chunk width
    let data = xxh3_data(96);
    let pattern = data[16..80]
        .iter()
        .map(|b| format!("{b:02x}"))
        .collect::<Vec<_>>()
        .join(" ");
    let parsed = Pattern::from_str(&pattern).unwrap();
    assert_eq!(collect(&parsed, &data), &[16]);
    assert_eq!(collect(&parsed, &data[..79]), &[] as &[usize]);
}

#[test]
fn tests_single_byte_pattern() {
    let mut data = vec![0u8; 200];
    data[0] = 0xab;
    data[77] = 0xab;
    data[199] = 0xab;
    assert_eq!(simple("ab", &data), &[0, 77, 199]);
}

#[test]
fn tests_end_is_idempotent() {
    // once the cursor reports end, every further call reports end
    let data = xxh3_data(64);
    let pattern = Pattern::from_str("f3").unwrap();
    let mut scan = pattern.matches(&data);
    assert_eq!(scan.next(), Some(0x08));
    assert_eq!(scan.next(), Some(0x0F));
    for _ in 0..10 {
        assert_eq!(scan.next(), None);
    }
}

#[test]
fn tests_offsets_ascend() {
    let data = vec![0x07u8; 300];
    let pattern = Pattern::from_str("07 ??").unwrap();
    let offsets = collect(&pattern, &data);
    assert!(offsets.windows(2).all(|w| w[0] < w[1]));
    assert_eq!(offsets.len(), 299);
}
