use guid::{GuidError, GUID};

fn reversed(bytes: &[u8]) -> Vec<u8> {
    bytes.iter().rev().copied().collect()
}

#[test]
fn byte_orders_agree_on_reversed_bytes() {
    let samples: [&[u8]; 7] = [
        &[],
        &[0x2a],
        &[1, 2, 3, 4],
        &[1, 2, 3, 4, 5],
        &[0, 0, 0, 9, 8, 7, 6, 5, 4],
        &[0xff; 20],
        &[
            0x01, 0x23, 0x45, 0x67, 0x89, 0xab, 0xcd, 0xef, 0x10, 0x32, 0x54, 0x76, 0x98, 0xba,
            0xdc, 0xfe, 0x0f, 0x1e, 0x2d, 0x3c,
        ],
    ];
    for bytes in samples {
        let be = GUID::from_bytes_be(bytes);
        let le = GUID::from_bytes_le(&reversed(bytes));
        assert_eq!(be, le);
        assert_eq!(be.to_lower_hex(), le.to_lower_hex());
    }
}

#[test]
fn hex_of_an_integer_is_the_hex_of_its_identifier() {
    for n in [0u8, 1, 9, 10, 15, 16, 0x7f, 0xff] {
        assert_eq!(GUID::from(n).to_lower_hex(), format!("{:x}", n));
        assert_eq!(GUID::from(n).to_upper_hex(), format!("{:X}", n));
        assert_eq!(GUID::from(n).to_binary(), format!("{:b}", n));
    }
    for n in [0u16, 0x100, 0xabc, 0xffff] {
        assert_eq!(GUID::from(n).to_lower_hex(), format!("{:x}", n));
        assert_eq!(GUID::from(n).to_upper_hex(), format!("{:X}", n));
        assert_eq!(GUID::from(n).to_binary(), format!("{:b}", n));
    }
    for n in [0u32, 0x1_0000, 0xdead_beef, 0xffff_ffff] {
        assert_eq!(GUID::from(n).to_lower_hex(), format!("{:x}", n));
        assert_eq!(GUID::from(n).to_upper_hex(), format!("{:X}", n));
        assert_eq!(GUID::from(n).to_binary(), format!("{:b}", n));
    }
    for n in [0u64, 0x1_0000_0000, 0x0123_4567_89ab_cdef, u64::MAX] {
        assert_eq!(GUID::from(n).to_lower_hex(), format!("{:x}", n));
        assert_eq!(GUID::from(n).to_upper_hex(), format!("{:X}", n));
        assert_eq!(GUID::from(n).to_binary(), format!("{:b}", n));
    }
    for n in [
        0u128,
        1 << 64,
        1 << 96,
        (1 << 96) + 1,
        0x0001_0000_0000_0000_0000_0000_0000_0000,
        u128::MAX,
    ] {
        assert_eq!(GUID::from(n).to_lower_hex(), format!("{:x}", n));
        assert_eq!(GUID::from(n).to_upper_hex(), format!("{:X}", n));
        assert_eq!(GUID::from(n).to_binary(), format!("{:b}", n));
    }
}

#[test]
fn saturation_at_both_ends() {
    assert_eq!(GUID::max_value() + GUID::from(1u32), GUID::max_value());
    assert_eq!(GUID::min_value() - GUID::from(1u32), GUID::min_value());
    assert_eq!(GUID::max_value() + GUID::max_value(), GUID::max_value());
    assert_eq!(GUID::min_value() - GUID::max_value(), GUID::min_value());
    assert_eq!(GUID::from(5u8) - GUID::from(6u8), GUID::min_value());
}

#[test]
fn addition_below_saturation() {
    let sum = GUID::from(u128::MAX) + GUID::from(u128::MAX);
    assert_eq!(sum.to_lower_hex(), "1fffffffffffffffffffffffffffffffe");
    assert_eq!(GUID::max_value() + GUID::min_value(), GUID::max_value());
    assert_eq!(
        (GUID::max_value() - GUID::from(1u8)) + GUID::from(1u8),
        GUID::max_value()
    );
    assert_eq!(
        GUID::from(u32::MAX) + GUID::from(1u8),
        GUID::from(1u64 << 32)
    );
}

#[test]
fn subtraction_below_saturation() {
    let sum = GUID::from(u128::MAX) + GUID::from(u128::MAX);
    let difference = sum - GUID::from(u128::MAX / 2);
    assert_eq!(
        difference.to_lower_hex(),
        "17fffffffffffffffffffffffffffffff"
    );
    assert_eq!(
        GUID::from(1u64 << 32) - GUID::from(1u8),
        GUID::from(u32::MAX)
    );
    assert_eq!(
        (GUID::from(7u8) + GUID::from(u128::MAX)) - GUID::from(u128::MAX),
        GUID::from(7u8)
    );
}

#[test]
fn hex_parse_examples() {
    assert_eq!(GUID::from_hex_str("0x64"), Ok(GUID::from(100u32)));
    assert_eq!(GUID::from_hex_str("00064"), Ok(GUID::from(100u32)));
    assert_eq!(GUID::from_hex_str(""), Err(GuidError::HexFormatEmpty));
    assert_eq!(GUID::from_hex_str("z"), Err(GuidError::HexFormatInvalid));
    assert_eq!(GUID::from_hex_str("A"), Ok(GUID::from(10u32)));
    assert_eq!(GUID::from_hex_str("a"), Ok(GUID::from(10u32)));
}

#[test]
fn hex_parse_ignores_case() {
    let pairs = [
        ("0xDEADbeef", "0xdeadbeef"),
        ("0XABCDEF", "0xabcdef"),
        ("FfFf", "ffff"),
        ("0Xg", "0xg"),
        ("G", "g"),
    ];
    for (mixed, lower) in pairs {
        assert_eq!(GUID::from_hex_str(mixed), GUID::from_hex_str(lower));
    }
    assert_eq!(
        GUID::from_hex_str("0xDEADbeef"),
        Ok(GUID::from(0xdead_beefu32))
    );
}

#[test]
fn hex_text_reads_back() {
    let samples = [
        GUID::min_value(),
        GUID::from(1u8),
        GUID::from(0xabcdefu32),
        GUID::from(u128::MAX),
        GUID::from(u128::MAX) + GUID::from(u128::MAX),
        GUID::max_value(),
    ];
    for guid in samples {
        assert_eq!(GUID::from_hex_str(&guid.to_lower_hex()), Ok(guid));
        assert_eq!(GUID::from_hex_str(&guid.to_upper_hex()), Ok(guid));
    }
}

#[test]
fn default_is_the_least_identifier() {
    assert_eq!(GUID::default(), GUID::min_value());
    assert_eq!(GUID::default().to_lower_hex(), "0");
    assert_eq!(GUID::default().to_upper_hex(), "0");
    assert_eq!(GUID::default().to_binary(), "0");
}

#[test]
fn order_is_the_order_of_the_numbers() {
    let ascending = [
        GUID::min_value(),
        GUID::from(1u8),
        GUID::from(u32::MAX),
        GUID::from(1u64 << 32),
        GUID::from(u64::MAX),
        GUID::from(u128::MAX),
        GUID::from(u128::MAX) + GUID::from(1u8),
        GUID::max_value(),
    ];
    for i in 0..ascending.len() {
        for j in 0..ascending.len() {
            assert_eq!(ascending[i] < ascending[j], i < j);
            assert_eq!(ascending[i] <= ascending[j], i <= j);
            assert_eq!(ascending[i] > ascending[j], i > j);
            assert_eq!(ascending[i] == ascending[j], i == j);
            assert_eq!(ascending[i].cmp(&ascending[j]), i.cmp(&j));
            assert_eq!(ascending[i].partial_cmp(&ascending[j]), Some(i.cmp(&j)));
            assert_eq!(ascending[i].precedes(&ascending[j]), i < j);
            assert_eq!(
                ascending[i].to_words() < ascending[j].to_words(),
                i < j
            );
        }
    }
}

#[test]
fn sorting_puts_identifiers_in_numeric_order() {
    let mut guids = vec![
        GUID::from(u64::MAX),
        GUID::max_value(),
        GUID::from(3u8),
        GUID::min_value(),
        GUID::from(u128::MAX),
    ];
    guids.sort();
    assert_eq!(
        guids,
        vec![
            GUID::min_value(),
            GUID::from(3u8),
            GUID::from(u64::MAX),
            GUID::from(u128::MAX),
            GUID::max_value(),
        ]
    );
}
