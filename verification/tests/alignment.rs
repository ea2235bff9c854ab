use patterns::reference;
use patterns::xxh3::xxh3_data;
use patterns::Pattern;

/// Copies `data` so that its first byte sits `offset` bytes past a
/// chunk-aligned address, and runs `f` on that slice.
fn with_misaligned<F: FnOnce(&[u8]) -> T, T>(data: &[u8], offset: usize, f: F) -> T {
    let mut buf = vec![0u8; data.len() + 192];
    let addr = buf.as_ptr() as usize;
    let k = (64 - addr % 64) % 64 + offset;
    buf[k..k + data.len()].copy_from_slice(data);
    f(&buf[k..k + data.len()])
}

fn collect(pattern: &Pattern, data: &[u8]) -> Vec<usize> {
    let mut scan = pattern.matches(data);
    let mut found = Vec::new();
    while let Some(offset) = scan.next() {
        found.push(offset);
    }
    found
}

fn ref_collect(pattern: &reference::Pattern, data: &[u8]) -> Vec<usize> {
    let mut scan = pattern.matches(data);
    let mut found = Vec::new();
    while let Some(offset) = scan.next() {
        found.push(offset);
    }
    found
}

/// The engine yields the same offsets at every misalignment of the haystack
/// base, for unconstrained patterns.
fn all_alignments(pattern: &str, data: &[u8], matches: &[usize]) -> bool {
    let parsed = Pattern::from_str(pattern).unwrap();
    (0..=63).all(|i| with_misaligned(data, i, |data| collect(&parsed, data) == matches))
}

#[test]
fn engine_misalignment_invariance() {
    let mut ok = true;
    let data = xxh3_data(64);
    ok &= all_alignments("c7 7b", &data, &[0]);
    ok &= all_alignments("f3", &data, &[0x08, 0x0F]);
    ok &= all_alignments("f3 ? 4a", &data, &[0x08]);
    ok &= all_alignments("14 53 22 e9 63", &data, &[0x31]);
    ok &= all_alignments("? 42", &[0x22, 0x42], &[0]);
    ok &= all_alignments("ab ?? ?? cd", &[0xab, 0xcd, 0xab, 0xcd, 0xab, 0xcd], &[0, 2]);
    assert!(ok);
}

#[test]
fn engine_agrees_with_reference() {
    let data = xxh3_data(256);
    for pattern in ["f3", "c7 7b", "f3 ? 4a", "34 a5 38", "6b ?? ?? ?? ?? ??", "? c7 7b"] {
        let fast = Pattern::from_str(pattern).unwrap();
        let slow = reference::Pattern::from_str(pattern, 1).unwrap();
        for i in 0..64 {
            with_misaligned(&data, i, |data| {
                assert_eq!(collect(&fast, data), ref_collect(&slow, data));
            });
        }
    }
}

/// With alignment 2 an otherwise valid match at an odd address is rejected.
#[test]
fn odd_address_match_rejected() {
    let pattern = Pattern::new_align("42", 2);
    with_misaligned(&[0x42, 0x42], 0, |data| {
        assert_eq!(collect(&pattern, data), &[0]);
    });
    with_misaligned(&[0x42, 0x42], 1, |data| {
        assert_eq!(collect(&pattern, data), &[1]);
    });
}

/// Alignment filtering against the reference scan at every misalignment.
#[test]
fn aligned_engine_agrees_with_reference() {
    let data = xxh3_data(128);
    for align in [2u8, 4, 8, 16, 32, 64] {
        let fast = Pattern::new_align("f3", align as usize);
        let slow = reference::Pattern::from_str("f3", align).unwrap();
        for i in 0..64 {
            with_misaligned(&data, i, |data| {
                assert_eq!(collect(&fast, data), ref_collect(&slow, data));
            });
        }
    }
}
