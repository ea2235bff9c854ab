use patterns::const_utils::hex_to_u8;

#[test]
fn hex_00_to_u8() {
    assert_eq!(hex_to_u8("00").unwrap(), 0x00);
}

#[test]
fn hex_99_to_u8() {
    assert_eq!(hex_to_u8("99").unwrap(), 0x99);
}

#[test]
#[allow(non_snake_case)]
fn hex_AA_to_u8() {
    assert_eq!(hex_to_u8("AA").unwrap(), 0xAA);
}

#[test]
#[allow(non_snake_case)]
fn hex_FF_to_u8() {
    assert_eq!(hex_to_u8("FF").unwrap(), 0xFF);
}

#[test]
fn hex_aa_to_u8() {
    assert_eq!(hex_to_u8("aa").unwrap(), 0xaa);
}

#[test]
fn hex_ff_to_u8() {
    assert_eq!(hex_to_u8("ff").unwrap(), 0xff);
}
