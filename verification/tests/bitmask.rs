use patterns::masks::{extend_bitmask, reduce_bitmask};

const MASK: u64 = 0b1111_1110_1101_1011_0111_1100_1010_1001_0101_0011_0110_1000_0100_0010_0001_0000;
const BYTES: usize = 64;

#[test]
fn reduce_align_1() {
    let reduced = reduce_bitmask(MASK, 1);
    let control = MASK;
    let control = control & (u64::MAX >> (64 - BYTES as u32));

    assert_eq!(reduced, control);
}

#[test]
fn reduce_align_2() {
    let reduced = reduce_bitmask(MASK, 2);
    let control = 0b0101_0100_0100_0001_0001_0100_0000_0000_0000_0001_0000_0000_0000_0000_0000_0000;
    let control = control & (u64::MAX >> (64 - BYTES as u32));

    assert_eq!(reduced, control);
}

#[test]
fn reduce_align_4() {
    let reduced = reduce_bitmask(MASK, 4);
    let control = 1 << 60;
    let control = control & (u64::MAX >> (64 - BYTES as u32));

    assert_eq!(reduced, control);
}

#[test]
fn reduce_align_8() {
    let reduced = reduce_bitmask(MASK, 8);
    let control = 0;
    let control = control & (u64::MAX >> (64 - BYTES as u32));

    assert_eq!(reduced, control);
}

#[test]
fn extend_align_1() {
    let extended = extend_bitmask(MASK, 1);
    let control = MASK;
    let control = control & (u64::MAX >> (64 - BYTES as u32));

    assert_eq!(extended, control);
}

#[test]
fn extend_align_2() {
    let extended = extend_bitmask(MASK, 2);
    let control = 0b1111_1100_1111_0011_1111_1100_0000_0011_1111_0011_1100_0000_1100_0000_0011_0000;
    let control = control & (u64::MAX >> (64 - BYTES as u32));

    assert_eq!(extended, control);
}

#[test]
fn extend_align_4() {
    let extended = extend_bitmask(MASK, 4);
    let control = 0b1111_0000_1111_1111_1111_0000_0000_1111_1111_1111_0000_0000_0000_0000_1111_0000;
    let control = control & (u64::MAX >> (64 - BYTES as u32));

    assert_eq!(extended, control);
}

#[test]
fn extend_align_8() {
    let extended = extend_bitmask(MASK, 8);
    let control = 0b0000_0000_1111_1111_0000_0000_1111_1111_1111_1111_0000_0000_0000_0000_0000_0000;
    let control = control & (u64::MAX >> (64 - BYTES as u32));

    assert_eq!(extended, control);
}
