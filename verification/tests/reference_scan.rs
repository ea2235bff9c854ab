use patterns::reference::Pattern;
use patterns::xxh3::xxh3_data;

/// Copies `data` so that its first byte sits `offset` bytes past a
/// chunk-aligned address, and runs `f` on that slice.
fn with_misaligned<F: FnOnce(&[u8]) -> T, T>(data: &[u8], offset: usize, f: F) -> T {
    let mut buf = vec![0u8; data.len() + 192];
    let addr = buf.as_ptr() as usize;
    let k = (64 - addr % 64) % 64 + offset;
    buf[k..k + data.len()].copy_from_slice(data);
    f(&buf[k..k + data.len()])
}

fn collect(pattern: &Pattern, data: &[u8]) -> Vec<usize> {
    let mut scan = pattern.matches(data);
    let mut found = Vec::new();
    while let Some(offset) = scan.next() {
        found.push(offset);
    }
    found
}

fn all_alignments(pattern: &str, data: &[u8], matches: &[usize]) -> bool {
    let parsed = Pattern::from_str(pattern, 1).unwrap();
    (0..=63).all(|i| with_misaligned(data, i, |data| collect(&parsed, data) == matches))
}

#[test]
fn reference_basic() {
    let mut ok = true;
    ok &= all_alignments("42", &[0x42], &[0]);
    ok &= all_alignments("24", &[0x42], &[]);
    ok &= all_alignments("42", &[0x42, 0x42], &[0, 1]);
    assert!(ok);
}

#[test]
fn reference_leading_wildcard() {
    let mut ok = true;
    ok &= all_alignments("? 42", &[0x42], &[]);
    ok &= all_alignments("? 42", &[0x42, 0x22], &[]);
    ok &= all_alignments("? 42", &[0x22, 0x42], &[0]);
    assert!(ok);
}

#[test]
fn reference_trailing_wildcard() {
    let mut ok = true;
    ok &= all_alignments("42 ?", &[0x42], &[]);
    ok &= all_alignments("42 ?", &[0x42, 0x22], &[0]);
    assert!(ok);
}

#[test]
fn reference_trailing_zero() {
    let mut ok = true;
    ok &= all_alignments("00", &[0x42], &[]);
    ok &= all_alignments("42 00", &[0x42], &[]);
    ok &= all_alignments("00", &[0x00], &[0]);
    ok &= all_alignments("42 00", &[0x42, 0x00], &[0]);
    assert!(ok);
}

#[test]
fn reference_xxh3_data_test() {
    assert_eq!(
        xxh3_data(16),
        &[199, 123, 58, 187, 111, 135, 172, 217, 243, 107, 74, 26, 68, 247, 139, 243]
    );
}

#[test]
fn reference_overlap() {
    let mut ok = true;
    let data = &[0xab, 0xcd, 0xab, 0xcd, 0xab, 0xcd];
    ok &= all_alignments("ab ?? ?? cd", data, &[0, 2]);
    ok &= all_alignments("ab ?? ??", data, &[0, 2]);
    ok &= all_alignments("?? ?? cd", data, &[1, 3]);
    assert!(ok);
}

#[test]
fn reference_repeat_across_buffer() {
    let mut ok = true;
    let mut data = [0_u8; 64];
    data[0] = 1;
    data[1] = 1;
    ok &= all_alignments("01", &data, &[0, 1]);
    assert!(ok);
}

#[test]
fn reference_small() {
    let mut ok = true;
    //    00 01 02 03 04 05 06 07 08 09 0A 0B 0C 0D 0E 0F
    // 0x c7 7b 3a bb 6f 87 ac d9 f3 6b 4a 1a 44 f7 8b f3
    // 1x 3e 69 48 79 79 85 51 1c d0 36 c6 a9 c6 b3 1c 1d
    // 2x 93 47 f2 9a a4 16 00 1e c2 8f 1f 5e 73 70 05 06
    // 3x 4c 14 53 22 e9 63 61 c2 f8 c0 12 6b 89 b4 fa fc
    let data = xxh3_data(64);
    ok &= all_alignments("c7 7b", &data, &[0]);
    ok &= all_alignments("c7 7b ?", &data, &[0]);
    ok &= all_alignments("? c7 7b", &data, &[]);
    ok &= all_alignments("f3", &data, &[0x08, 0x0F]);
    ok &= all_alignments("f3 ? 4a", &data, &[0x08]);
    ok &= all_alignments("f3 ? 69", &data, &[0x0F]);
    ok &= all_alignments("c2", &data, &[0x28, 0x37]);
    ok &= all_alignments("c2 ? ? 5e", &data, &[0x28]);
    ok &= all_alignments("c2 ? ? 12", &data, &[0x37]);
    ok &= all_alignments("14 53 22 e9 63", &data, &[0x31]);

    // uneven tail
    ok &= all_alignments("c2", &data[..=0x37], &[0x28, 0x37]);
    ok &= all_alignments("14 53 22 e9 63", &data[..=0x37], &[0x31]);

    // double
    let data2 = data.repeat(2);
    ok &= all_alignments("c7 7b", &data2, &[0, 64]);
    ok &= all_alignments("c7 7b ?", &data2, &[0, 64]);
    ok &= all_alignments("? c7 7b", &data2, &[63]);
    ok &= all_alignments("f3", &data2, &[0x08, 0x0F, 0x48, 0x4F]);
    ok &= all_alignments("f3 ? 4a", &data2, &[0x08, 0x48]);
    ok &= all_alignments("f3 ? 69", &data2, &[0x0F, 0x4F]);
    ok &= all_alignments("c2", &data2, &[0x28, 0x37, 0x68, 0x77]);
    ok &= all_alignments("c2 ? ? 5e", &data2, &[0x28, 0x68]);
    ok &= all_alignments("c2 ? ? 12", &data2, &[0x37, 0x77]);
    ok &= all_alignments("14 53 22 e9 63", &data2, &[0x31, 0x71]);

    // across block boundary
    ok &= all_alignments("fa fc c7", &data2, &[0x3E]);
    ok &= all_alignments("fc c7 7b", &data2, &[0x3F]);
    ok &= all_alignments("fc ?? 7b", &data2, &[0x3F]);

    // uneven tail
    ok &= all_alignments("c2", &data2[..=0x77], &[0x28, 0x37, 0x68, 0x77]);
    ok &= all_alignments("14 53 22 e9 63", &data2[..=0x77], &[0x31, 0x71]);

    // wildcard beyond the end, 2nd iterator call
    ok &= all_alignments("6b ?? ?? ?? ?? ??", &data2, &[0x09, 0x3B, 0x49]);
    assert!(ok);
}

#[test]
fn reference_medium() {
    let mut ok = true;
    let data = xxh3_data(256);
    ok &= all_alignments("34", &data, &[0x83]);
    ok &= all_alignments("34 a5", &data, &[0x83]);
    ok &= all_alignments("34 a5 38", &data, &[0x83]);
    assert!(ok);
}
