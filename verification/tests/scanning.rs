use patterns::scanner::{first_offset, initial_candidates};
use patterns::Pattern;

const BYTES: usize = 64;

/// A zeroed buffer of `len` bytes starting at a chunk-aligned address:
/// returns the backing store and the index of the aligned start.
fn aligned_buffer(len: usize) -> (Vec<u8>, usize) {
    let v = vec![0u8; len + BYTES];
    let addr = v.as_ptr() as usize;
    let k = (BYTES - addr % BYTES) % BYTES;
    (v, k)
}

fn collect(pattern: &Pattern, data: &[u8]) -> Vec<usize> {
    let mut scan = pattern.matches(data);
    let mut found = Vec::new();
    while let Some(offset) = scan.next() {
        found.push(offset);
    }
    found
}

#[test]
fn empty_data() {
    let pattern = Pattern::new("00");
    let none = pattern.matches(&[]).next();

    assert_eq!(None, none);
}

#[test]
fn second_chunk_last_byte() {
    let (mut buf, k) = aligned_buffer(2 * BYTES);
    buf[k + 2 * BYTES - 1] = 1;
    let pattern = Pattern::new("01");
    let mut iter = pattern.matches(&buf[k..k + 2 * BYTES]);
    assert_eq!(iter.next().unwrap(), 2 * BYTES - 1);
    assert!(iter.next().is_none());
}

#[test]
fn byte_offset_in_consume_candidates() {
    let (mut buf, k) = aligned_buffer(2 * BYTES);
    buf[k + 1] = 1;
    let pattern = Pattern::new("?? 01");
    let mut iter = pattern.matches(&buf[k..k + 2 * BYTES]);
    assert_eq!(iter.next().unwrap(), 0);
    assert!(iter.next().is_none());
}

#[test]
fn byte_offset_out_of_bounds_read() {
    let (mut buf, k) = aligned_buffer(2 * BYTES);
    buf[k] = 1;
    let pattern = Pattern::new("?? 01");
    let mut iter = pattern.matches(&buf[k..k + 2 * BYTES]);
    assert!(iter.next().is_none());
}

#[test]
fn trailing_wildcard_at_eof() {
    let (mut buf, k) = aligned_buffer(2 * BYTES);
    buf[k + 2 * BYTES - 1] = 1;
    let pattern = Pattern::new("01 ??");
    let mut iter = pattern.matches(&buf[k..k + 2 * BYTES]);
    assert!(iter.next().is_none());
}

#[test]
fn leading_wildcard_underflow() {
    let (mut buf, k) = aligned_buffer(2 * BYTES);
    buf[k + BYTES] = 1;
    let pattern = Pattern::new("? ? 01");
    let mut iter = pattern.matches(&buf[k + BYTES - 1..k + BYTES + BYTES / 10]);
    assert!(iter.next().is_none());
}

#[test]
fn leading_wildcard_boundary() {
    let (mut buf, k) = aligned_buffer(2 * BYTES);
    buf[k + BYTES] = 1;
    let pattern = Pattern::new("? 01");
    let mut iter = pattern.matches(&buf[k + BYTES - 1..k + BYTES + BYTES / 7]);
    assert_eq!(iter.next().unwrap(), 0);
    assert!(iter.next().is_none());
}

#[test]
fn pattern_gt_data() {
    let data = &[1];
    let pattern = Pattern::new("? 01");
    let mut iter = pattern.matches(data);
    assert!(iter.next().is_none());
}

#[test]
fn pattern_lt_alignment() {
    let (mut buf, k) = aligned_buffer(2 * BYTES);
    let src = &[0u8, 0x05, 0xff, 0xf7, 0x00];
    buf[k..k + src.len()].copy_from_slice(src);
    let pat = Pattern::new_align("00", 2);
    let mut iter = pat.matches(&buf[k + 1..k + src.len()]);
    assert_eq!(iter.next().unwrap(), 3);
    assert!(iter.next().is_none());
}

#[test]
fn max_wildcard_prefix() {
    let (mut buf, k) = aligned_buffer(2 * BYTES);
    buf[k + 2 * BYTES - 1 - BYTES] = 1;
    buf[k + 2 * BYTES - 1] = 1;
    let pattern = "? ".repeat(BYTES - 1) + "01";
    let pattern = Pattern::new(&pattern);
    let mut iter = pattern.matches(&buf[k..k + 2 * BYTES]);
    assert_eq!(iter.next().unwrap(), 0);
    assert_eq!(iter.next().unwrap(), 2 * BYTES - BYTES);
    assert!(iter.next().is_none());
}

#[test]
fn alignment_first_possible_eq_data() {
    let pat = Pattern::new_align("? ? 01", 2);
    let (buf, k) = aligned_buffer(2 * BYTES);
    let mut iter = pat.matches(&buf[k + BYTES - 1..k + BYTES + 2]);
    assert!(iter.next().is_none());
}

#[test]
fn leading_wildcards_match_start_to_end() {
    let pat = Pattern::new_align("? ? ? ? 00", 2);
    let (buf, k) = aligned_buffer(2 * BYTES);
    let mut iter = pat.matches(&buf[k + 10..k + 15]);
    assert_eq!(iter.next().unwrap(), 0);
    assert!(iter.next().is_none());
}

const PATTERN: &str = "? ? ? 46 41 ? 54";

const CANDIDATE_DATA: [u8; 64] = [
    0, 0, 0, 0, 0, 0, 0, 0x46, 0x41, 0x53, 0x54, 0x46, 0x41, 0, 0, 0, 0, 0, 0x46, 0, 0, 0, 0, 0,
    0x46, 0x41, 0x53, 0x54, 0x46, 0x41, 0, 0, 0, 0, 0, 0x46, 0, 0, 0, 0, 0, 0, 0x46, 0x41, 0x53,
    0x54, 0x46, 0x41, 0, 0, 0, 0, 0, 0x46, 0, 0, 0, 0, 0, 0, 0, 0, 0, 0x46,
];

/// The candidate data placed so that it starts at a chunk-aligned address.
fn candidate_buffer() -> (Vec<u8>, usize) {
    let (mut buf, k) = aligned_buffer(BYTES);
    buf[k..k + BYTES].copy_from_slice(&CANDIDATE_DATA);
    (buf, k)
}

#[test]
fn initial_candidates_1() {
    let pattern = Pattern::new_align(PATTERN, 1);
    let (buf, k) = candidate_buffer();
    let data = &buf[k + 3..k + BYTES];
    let r = data.as_ptr() as usize % BYTES;
    let offset = first_offset(r, pattern.first_byte_offset, pattern.alignment);
    // the data starts three bytes past a chunk boundary
    assert_eq!(offset % BYTES, BYTES - 3);
    let result = initial_candidates(&pattern, data, offset);

    let control: u64 =
        0b1000_0000_0010_0000_0100_0100_0000_1000_0001_0001_0000_0100_0000_1000_1000_0000;
    let control = control >> ((offset / BYTES) * BYTES) & (u64::MAX >> (64 - BYTES as u32));

    assert_eq!(result, control);
}

#[test]
fn initial_candidates_2() {
    let pattern = Pattern::new_align(PATTERN, 2);
    let (buf, k) = candidate_buffer();
    let data = &buf[k + 3..k + BYTES];
    let r = data.as_ptr() as usize % BYTES;
    let offset = first_offset(r, pattern.first_byte_offset, pattern.alignment);
    assert_eq!(offset % BYTES, BYTES - 3);
    let result = initial_candidates(&pattern, data, offset);

    let control: u64 =
        0b0100_0000_0001_0000_0000_0000_0000_0100_0000_0000_0000_0000_0000_0100_0100_0000;
    let control = control >> ((offset / BYTES) * BYTES) & (u64::MAX >> (64 - BYTES as u32));

    assert_eq!(result, control);
}

#[test]
fn initial_candidates_4() {
    let pattern = Pattern::new_align(PATTERN, 4);
    let (buf, k) = candidate_buffer();
    let data = &buf[k + 3..k + BYTES];
    let r = data.as_ptr() as usize % BYTES;
    let offset = first_offset(r, pattern.first_byte_offset, pattern.alignment);
    assert_eq!(offset % BYTES, BYTES - 3);
    let result = initial_candidates(&pattern, data, offset);

    let control: u64 =
        0b0000_0000_0000_0000_0000_0000_0000_0000_0000_0000_0000_0000_0000_0001_0000_0000;
    let control = control >> ((offset / BYTES) * BYTES) & (u64::MAX >> (64 - BYTES as u32));

    assert_eq!(result, control);
}

#[test]
fn initial_candidates_8() {
    let pattern = Pattern::new_align(PATTERN, 8);
    let (buf, k) = candidate_buffer();
    let data = &buf[k + 3..k + BYTES];
    let r = data.as_ptr() as usize % BYTES;
    let offset = first_offset(r, pattern.first_byte_offset, pattern.alignment);
    assert_eq!(offset % BYTES, BYTES - 3);
    let result = initial_candidates(&pattern, data, offset);

    let control: u64 = 0;
    let control = control >> ((offset / BYTES) * BYTES) & (u64::MAX >> (64 - BYTES as u32));

    assert_eq!(result, control);
}
