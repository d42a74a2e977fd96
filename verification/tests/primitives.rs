use guid::GUID;

#[test]
fn primitives_from_bytes() {
    let guid_be = GUID::from_bytes_be(&42u32.to_be_bytes());
    let guid_le = GUID::from_bytes_le(&42u32.to_le_bytes());

    assert_eq!(guid_be.to_lower_hex(), guid_le.to_lower_hex());
    assert_eq!(guid_be.to_lower_hex(), format!("{:x}", 42));
}

#[test]
fn primitives_empty() {
    let guid = GUID::default();
    assert_eq!(guid.to_lower_hex(), "0");
}

#[test]
fn primitives_from_u8() {
    let guid = GUID::from(u8::MAX);
    assert_eq!(guid.to_lower_hex(), format!("{:x}", u8::MAX));
}

#[test]
fn primitives_from_u16() {
    let guid = GUID::from(u16::MAX);
    println!("{:?}", guid.to_words());
    assert_eq!(guid.to_lower_hex(), format!("{:x}", u16::MAX));
}

#[test]
fn primitives_from_u32() {
    let guid = GUID::from(u32::MAX);
    assert_eq!(guid.to_lower_hex(), format!("{:x}", u32::MAX));
}

#[test]
fn primitives_from_u64() {
    let guid = GUID::from(u64::MAX);
    assert_eq!(guid.to_lower_hex(), format!("{:x}", u64::MAX));
}

#[test]
fn primitives_from_u128() {
    let guid = GUID::from(u128::MAX);
    assert_eq!(guid.to_lower_hex(), format!("{:x}", u128::MAX));
}
