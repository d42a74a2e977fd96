use guid::{GuidError, GUID};

#[test]
fn display_hex_lower() {
    println!("{}", std::mem::size_of::<GUID>());

    let guid_a = GUID::max_value();
    assert_eq!(
        guid_a.to_lower_hex(),
        "ffffffffffffffffffffffffffffffffffffffff"
    );

    let guid_b = GUID::from(1u32);
    assert_eq!(guid_b.to_lower_hex(), "1");

    let guid_c = GUID::from(u128::MAX) + GUID::from(2u32);
    assert_eq!(guid_c.to_lower_hex(), "100000000000000000000000000000001");

    let guid_d = GUID::from_hex_str("110000001000000010000000100000001").unwrap();
    assert_eq!(guid_d.to_lower_hex(), "110000001000000010000000100000001");

    let guid_e = GUID::from_hex_str("10000001100000011000000110000001").unwrap();
    assert_eq!(guid_e.to_lower_hex(), "10000001100000011000000110000001");

    let guid_f = GUID::from(0u32);
    assert_eq!(guid_f.to_lower_hex(), "0");
}

#[test]
fn display_hex_upper() {
    let guid_a = GUID::max_value();
    assert_eq!(
        guid_a.to_upper_hex(),
        "FFFFFFFFFFFFFFFFFFFFFFFFFFFFFFFFFFFFFFFF"
    );

    let guid_b = GUID::from(1u32);
    assert_eq!(guid_b.to_upper_hex(), "1");

    let guid_c = GUID::from(u128::MAX) + GUID::from(2u32);
    assert_eq!(guid_c.to_upper_hex(), "100000000000000000000000000000001");

    let guid_d = GUID::from_hex_str("110000001000000010000000100000001").unwrap();
    assert_eq!(guid_d.to_upper_hex(), "110000001000000010000000100000001");

    let guid_e = GUID::from_hex_str("10000001100000011000000110000001").unwrap();
    assert_eq!(guid_e.to_upper_hex(), "10000001100000011000000110000001");

    let guid_f = GUID::from(0u32);
    assert_eq!(guid_f.to_upper_hex(), "0");
}

#[test]
fn display_binary() {
    let guid_a = GUID::max_value();
    assert_eq!(
        guid_a.to_binary(),
        "1111111111111111111111111111111111111111111111111111111111111111111111111111111111111111111111111111111111111111111111111111111111111111111111111111111111111111"
    );

    let guid_b = GUID::from(1u32);
    assert_eq!(guid_b.to_binary(), "1");

    let guid_c = GUID::from(u128::MAX) + GUID::from(2u32);
    assert_eq!(guid_c.to_binary(), "100000000000000000000000000000000000000000000000000000000000000000000000000000000000000000000000000000000000000000000000000000001");

    let guid_d = GUID::from_hex_str("110000001000000010000000100000001").unwrap();
    assert_eq!(guid_d.to_binary(), "100010000000000000000000000000001000000000000000000000000000000010000000000000000000000000000000100000000000000000000000000000001");

    let guid_e = GUID::from_hex_str("10000001100000011000000110000001").unwrap();
    assert_eq!(guid_e.to_binary(), "10000000000000000000000000001000100000000000000000000000000010001000000000000000000000000000100010000000000000000000000000001");

    let guid_f = GUID::from(0u32);
    assert_eq!(guid_f.to_binary(), "0");
}

#[test]
fn saturating_add() {
    let guid_a = GUID::from(u128::MAX);
    let guid_b = GUID::from(u128::MAX);
    let guid_c = guid_a.saturating_add(&guid_b);

    assert_eq!(guid_c.to_lower_hex(), "1fffffffffffffffffffffffffffffffe");
}

#[test]
fn saturating_add_saturate() {
    let guid_a = GUID::max_value();
    let guid_b = GUID::from(1u32);
    let guid_c = guid_a.saturating_add(&guid_b);

    assert_eq!(guid_c, GUID::max_value());
}

#[test]
fn saturating_sub() {
    let guid_a = GUID::from(u128::MAX) + GUID::from(u128::MAX);
    let guid_b = GUID::from(u128::MAX / 2);
    let guid_c = guid_a.saturating_sub(&guid_b);

    assert_eq!(guid_c.to_lower_hex(), "17fffffffffffffffffffffffffffffff");
}

#[test]
fn saturating_sub_saturate() {
    let guid_a = GUID::min_value();
    let guid_b = GUID::from(1u32);
    let guid_c = guid_a.saturating_sub(&guid_b);

    assert_eq!(guid_c.to_lower_hex(), "0");
}

#[test]
fn from_hex_str() {
    assert_eq!(Ok(GUID::from(0u32)), GUID::from_hex_str("0"));
    assert_eq!(Ok(GUID::from(1u32)), GUID::from_hex_str("1"));
    assert_eq!(Ok(GUID::from(2u32)), GUID::from_hex_str("2"));
    assert_eq!(Ok(GUID::from(3u32)), GUID::from_hex_str("3"));
    assert_eq!(Ok(GUID::from(4u32)), GUID::from_hex_str("4"));
    assert_eq!(Ok(GUID::from(5u32)), GUID::from_hex_str("5"));
    assert_eq!(Ok(GUID::from(6u32)), GUID::from_hex_str("6"));
    assert_eq!(Ok(GUID::from(7u32)), GUID::from_hex_str("7"));
    assert_eq!(Ok(GUID::from(8u32)), GUID::from_hex_str("8"));
    assert_eq!(Ok(GUID::from(9u32)), GUID::from_hex_str("9"));
    assert_eq!(Ok(GUID::from(10u32)), GUID::from_hex_str("a"));
    assert_eq!(Ok(GUID::from(11u32)), GUID::from_hex_str("b"));
    assert_eq!(Ok(GUID::from(12u32)), GUID::from_hex_str("c"));
    assert_eq!(Ok(GUID::from(13u32)), GUID::from_hex_str("d"));
    assert_eq!(Ok(GUID::from(14u32)), GUID::from_hex_str("e"));
    assert_eq!(Ok(GUID::from(15u32)), GUID::from_hex_str("f"));
}

#[test]
fn from_hex_str_0x() {
    assert_eq!(Ok(GUID::from(0u32)), GUID::from_hex_str("0x0"));
    assert_eq!(Ok(GUID::from(1u32)), GUID::from_hex_str("0x1"));
    assert_eq!(Ok(GUID::from(2u32)), GUID::from_hex_str("0x2"));
    assert_eq!(Ok(GUID::from(3u32)), GUID::from_hex_str("0x3"));
    assert_eq!(Ok(GUID::from(4u32)), GUID::from_hex_str("0x4"));
    assert_eq!(Ok(GUID::from(5u32)), GUID::from_hex_str("0x5"));
    assert_eq!(Ok(GUID::from(6u32)), GUID::from_hex_str("0x6"));
    assert_eq!(Ok(GUID::from(7u32)), GUID::from_hex_str("0x7"));
    assert_eq!(Ok(GUID::from(8u32)), GUID::from_hex_str("0x8"));
    assert_eq!(Ok(GUID::from(9u32)), GUID::from_hex_str("0x9"));
    assert_eq!(Ok(GUID::from(10u32)), GUID::from_hex_str("0xa"));
    assert_eq!(Ok(GUID::from(11u32)), GUID::from_hex_str("0xb"));
    assert_eq!(Ok(GUID::from(12u32)), GUID::from_hex_str("0xc"));
    assert_eq!(Ok(GUID::from(13u32)), GUID::from_hex_str("0xd"));
    assert_eq!(Ok(GUID::from(14u32)), GUID::from_hex_str("0xe"));
    assert_eq!(Ok(GUID::from(15u32)), GUID::from_hex_str("0xf"));
}

#[test]
fn from_hex_str_upper() {
    assert_eq!(Ok(GUID::from(10u32)), GUID::from_hex_str("A"));
    assert_eq!(Ok(GUID::from(11u32)), GUID::from_hex_str("B"));
    assert_eq!(Ok(GUID::from(12u32)), GUID::from_hex_str("C"));
    assert_eq!(Ok(GUID::from(13u32)), GUID::from_hex_str("D"));
    assert_eq!(Ok(GUID::from(14u32)), GUID::from_hex_str("E"));
    assert_eq!(Ok(GUID::from(15u32)), GUID::from_hex_str("F"));
}

#[test]
fn from_hex_str_padded() {
    assert_eq!(Ok(GUID::from(100u32)), GUID::from_hex_str("00064"));
}

#[test]
fn from_hex_invalid() {
    assert_eq!(GUID::from_hex_str(""), Err(GuidError::HexFormatEmpty));
    assert_eq!(GUID::from_hex_str("z"), Err(GuidError::HexFormatInvalid));
}

#[test]
fn from_hex_long() {
    let guid_a = GUID::from_hex_str("1fffffffffffffffffffffffffffffffe").unwrap_or_default();
    let guid_b = GUID::from(u128::MAX) + GUID::from(u128::MAX);

    assert_eq!(guid_a.to_lower_hex(), guid_b.to_lower_hex());
}

#[test]
fn guid_from_bytes() {
    let guid_be = GUID::from_bytes_be(&42u32.to_be_bytes());
    let guid_le = GUID::from_bytes_le(&42u32.to_le_bytes());

    assert_eq!(guid_be.to_lower_hex(), guid_le.to_lower_hex());
    assert_eq!(guid_be.to_lower_hex(), format!("{:x}", 42));
}

#[test]
fn guid_empty() {
    let guid = GUID::default();
    assert_eq!(guid.to_lower_hex(), "0");
}

#[test]
fn guid_from_u8() {
    let guid = GUID::from(u8::MAX);
    assert_eq!(guid.to_lower_hex(), format!("{:x}", u8::MAX));
}

#[test]
fn guid_from_u16() {
    let guid = GUID::from(u16::MAX);
    assert_eq!(guid.to_lower_hex(), format!("{:x}", u16::MAX));
}

#[test]
fn guid_from_u32() {
    let guid = GUID::from(u32::MAX);
    assert_eq!(guid.to_lower_hex(), format!("{:x}", u32::MAX));
}

#[test]
fn guid_from_u64() {
    let guid = GUID::from(u64::MAX);
    assert_eq!(guid.to_lower_hex(), format!("{:x}", u64::MAX));
}

#[test]
fn guid_from_u128() {
    let guid = GUID::from(u128::MAX);
    assert_eq!(guid.to_lower_hex(), format!("{:x}", u128::MAX));
}
