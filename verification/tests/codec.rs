use sandoo::address::Address;
use sandoo::decimal::{parse_i32, parse_i64, parse_u32, parse_u64, render_i64, render_u64};
use sandoo::pool::{DecodeError, DexVariant, FieldFault, Pool};

fn addr(byte: u8) -> Address {
    Address::new([byte; 20])
}

fn sample_pool() -> Pool {
    Pool {
        id: 7,
        address: addr(0xaa),
        version: DexVariant::UniswapV2,
        token0: addr(0x11),
        token1: addr(0x22),
        fee: 300,
        block_number: 10_000_835,
        timestamp: 1_588_610_042,
    }
}

fn strings(fields: &[&str]) -> Vec<String> {
    fields.iter().map(|f| f.to_string()).collect()
}

fn sample_row() -> Vec<String> {
    strings(&[
        "7",
        "0xaaaaaaaaaaaaaaaaaaaaaaaaaaaaaaaaaaaaaaaa",
        "2",
        "0x1111111111111111111111111111111111111111",
        "0x2222222222222222222222222222222222222222",
        "300",
        "10000835",
        "1588610042",
    ])
}

#[test]
fn address_is_written_in_lower_case_with_prefix() {
    let mut bytes = [0u8; 20];
    for (i, b) in bytes.iter_mut().enumerate() {
        *b = (i as u8) * 13 + 1;
    }
    let a = Address::new(bytes);
    assert_eq!(a.to_text(), "0x010e1b2835424f5c697683909daab7c4d1deebf8");
    assert_eq!(Address::zero().to_text(), "0x0000000000000000000000000000000000000000");
}

#[test]
fn address_is_read_in_either_case() {
    let weth = Address::parse("0xC02aaA39b223FE8D0A0e5C4F27eAD9083C756Cc2").unwrap();
    assert_eq!(weth.bytes[0], 0xc0);
    assert_eq!(weth.bytes[1], 0x2a);
    assert_eq!(weth.bytes[19], 0xc2);
    assert_eq!(weth.to_text(), "0xc02aaa39b223fe8d0a0e5c4f27ead9083c756cc2");
    assert_eq!(Address::parse("0xc02aaa39b223fe8d0a0e5c4f27ead9083c756cc2"), Some(weth));
    assert_eq!(Address::parse("0XC02AAA39B223FE8D0A0E5C4F27EAD9083C756CC2"), None);
}

#[test]
fn address_is_read_without_prefix_and_with_blanks() {
    let a = addr(0xaa);
    assert_eq!(Address::parse("aaaaaaaaaaaaaaaaaaaaaaaaaaaaaaaaaaaaaaaa"), Some(a));
    assert_eq!(Address::parse("0xaaaaaaaaaaaaaaaaaaaa aaaaaaaaaaaaaaaaaaaa"), Some(a));
    assert_eq!(Address::parse(" 0xaaaaaaaaaaaaaaaaaaaaaaaaaaaaaaaaaaaaaaaa"), None);
    assert_eq!(Address::parse("aaaaaaaaaaaaaaaaaaaaaaaaaaaaaaaaaaaaaaaa\n"), Some(a));
    assert_eq!(Address::parse("a\taaaaaaaaaaaaaaaaaaaaaaaaaaaaaaaaaaaaaa\ra"), Some(a));
}

#[test]
fn address_of_wrong_length_or_digits_is_refused() {
    assert_eq!(Address::parse(""), None);
    assert_eq!(Address::parse("0x"), None);
    assert_eq!(Address::parse("0xaaaaaaaaaaaaaaaaaaaaaaaaaaaaaaaaaaaaaaa"), None);
    assert_eq!(Address::parse("0xaaaaaaaaaaaaaaaaaaaaaaaaaaaaaaaaaaaaaaaaa"), None);
    assert_eq!(Address::parse("0xaaaaaaaaaaaaaaaaaaaaaaaaaaaaaaaaaaaaaaaaaa"), None);
    assert_eq!(Address::parse("0xgaaaaaaaaaaaaaaaaaaaaaaaaaaaaaaaaaaaaaaa"), None);
    assert_eq!(Address::parse("0xaaaaaaaaaaaaaaaaaaaaaaaaaaaaaaaaaaaaaa\u{e9}"), None);
    assert_eq!(Address::parse("0x0xaaaaaaaaaaaaaaaaaaaaaaaaaaaaaaaaaaaaaaaa"), None);
    assert_eq!(Address::parse("not an address"), None);
}

#[test]
fn address_text_round_trip() {
    for byte in [0x00u8, 0x09, 0x0a, 0x7f, 0x80, 0xff] {
        let a = addr(byte);
        assert_eq!(Address::parse(&a.to_text()), Some(a));
    }
}

#[test]
fn addresses_compare_by_bytes() {
    let mut bytes = [0x11u8; 20];
    assert_eq!(Address::new(bytes), addr(0x11));
    bytes[19] = 0x12;
    assert_ne!(Address::new(bytes), addr(0x11));
}

#[test]
fn unsigned_numbers_are_read() {
    assert_eq!(parse_u64("0"), Some(0));
    assert_eq!(parse_u64("007"), Some(7));
    assert_eq!(parse_u64("+5"), Some(5));
    assert_eq!(parse_u64("18446744073709551615"), Some(u64::MAX));
    assert_eq!(parse_u64("18446744073709551616"), None);
    assert_eq!(parse_u64("99999999999999999999999999"), None);
    assert_eq!(parse_u64("-0"), None);
    assert_eq!(parse_u64("-1"), None);
    assert_eq!(parse_u64(""), None);
    assert_eq!(parse_u64("+"), None);
    assert_eq!(parse_u64("1_000"), None);
    assert_eq!(parse_u64(" 1"), None);
    assert_eq!(parse_u64("1 "), None);
    assert_eq!(parse_u64("12a"), None);
    assert_eq!(parse_u64("\u{663}"), None);
    assert_eq!(parse_u32("4294967295"), Some(u32::MAX));
    assert_eq!(parse_u32("4294967296"), None);
    assert_eq!(parse_u32("300"), Some(300));
}

#[test]
fn signed_numbers_are_read() {
    assert_eq!(parse_i64("-1"), Some(-1));
    assert_eq!(parse_i64("-0"), Some(0));
    assert_eq!(parse_i64("+42"), Some(42));
    assert_eq!(parse_i64("9223372036854775807"), Some(i64::MAX));
    assert_eq!(parse_i64("9223372036854775808"), None);
    assert_eq!(parse_i64("-9223372036854775808"), Some(i64::MIN));
    assert_eq!(parse_i64("-9223372036854775809"), None);
    assert_eq!(parse_i64("-"), None);
    assert_eq!(parse_i64("--1"), None);
    assert_eq!(parse_i64("+-1"), None);
    assert_eq!(parse_i32("2"), Some(2));
    assert_eq!(parse_i32("2147483647"), Some(i32::MAX));
    assert_eq!(parse_i32("2147483648"), None);
    assert_eq!(parse_i32("-2147483648"), Some(i32::MIN));
    assert_eq!(parse_i32("-2147483649"), None);
}

#[test]
fn numbers_are_written_as_the_standard_library_writes_them() {
    for v in [0u64, 1, 9, 10, 11, 99, 100, 12345, 10_000_835, u64::MAX] {
        assert_eq!(render_u64(v), v.to_string());
    }
    for v in [0i64, 1, -1, 10, -10, 1234567, -7654321, i64::MAX, i64::MIN] {
        assert_eq!(render_i64(v), v.to_string());
    }
    assert_eq!(render_i64(i64::MIN), "-9223372036854775808");
    assert_eq!(render_u64(u64::MAX), "18446744073709551615");
}

#[test]
fn numbers_are_read_as_the_standard_library_reads_them() {
    let texts = [
        "0", "1", "+1", "-1", "-0", "+0", "", "+", "-", "00", "0x10", "1e3", "٣", "12 ", " 12",
        "4294967295", "4294967296", "2147483648", "-2147483648", "-2147483649",
        "18446744073709551615", "18446744073709551616", "9223372036854775807",
        "9223372036854775808", "-9223372036854775808", "-9223372036854775809", "1.0", "++1",
    ];
    for text in texts {
        assert_eq!(parse_u64(text), text.parse::<u64>().ok(), "u64 {:?}", text);
        assert_eq!(parse_u32(text), text.parse::<u32>().ok(), "u32 {:?}", text);
        assert_eq!(parse_i64(text), text.parse::<i64>().ok(), "i64 {:?}", text);
        assert_eq!(parse_i32(text), text.parse::<i32>().ok(), "i32 {:?}", text);
    }
}

#[test]
fn number_text_round_trip() {
    for v in [0u64, 7, 150, u64::MAX] {
        assert_eq!(parse_u64(&render_u64(v)), Some(v));
    }
    for v in [i64::MIN, -1, 0, 1, i64::MAX] {
        assert_eq!(parse_i64(&render_i64(v)), Some(v));
    }
}

#[test]
fn variant_tag_is_two() {
    assert_eq!(DexVariant::UniswapV2.num(), 2);
    assert_eq!(DexVariant::from_num(2), DexVariant::UniswapV2);
    assert_eq!(DexVariant::from_num(-9), DexVariant::UniswapV2);
    assert_eq!(DexVariant::UniswapV2.name(), "UniswapV2");
}

#[test]
fn cache_row_holds_the_fields_in_order() {
    let row = sample_pool().cache_row();
    assert_eq!(
        row,
        (
            7i64,
            "0xaaaaaaaaaaaaaaaaaaaaaaaaaaaaaaaaaaaaaaaa".to_string(),
            2i32,
            "0x1111111111111111111111111111111111111111".to_string(),
            "0x2222222222222222222222222222222222222222".to_string(),
            300u32,
            10_000_835u64,
            1_588_610_042u64,
        )
    );
}

#[test]
fn encode_writes_eight_columns() {
    assert_eq!(sample_pool().encode(), sample_row());
}

#[test]
fn decode_reads_a_row() {
    assert_eq!(Pool::decode(&sample_row()), Ok(sample_pool()));
}

#[test]
fn decode_of_encode_is_the_pool() {
    let mut pools = vec![sample_pool()];
    pools.push(Pool { id: i64::MIN, fee: u32::MAX, block_number: u64::MAX, timestamp: 0, ..sample_pool() });
    pools.push(Pool { id: i64::MAX, address: Address::zero(), token0: addr(0xff), ..sample_pool() });
    pools.push(Pool { id: -1, token1: addr(0x11), ..sample_pool() });
    for pool in pools {
        assert_eq!(Pool::decode(&pool.encode()), Ok(pool));
    }
}

#[test]
fn decode_takes_every_tag_for_the_one_variant() {
    let mut row = sample_row();
    row[2] = "3".to_string();
    assert_eq!(Pool::decode(&row), Ok(sample_pool()));
}

#[test]
fn decode_does_not_look_behind_the_eighth_column() {
    let mut row = sample_row();
    row.push("anything".to_string());
    assert_eq!(Pool::decode(&row), Ok(sample_pool()));
}

#[test]
fn decode_names_the_missing_column() {
    for len in 0..8usize {
        let mut row = sample_row();
        row.truncate(len);
        assert_eq!(
            Pool::decode(&row),
            Err(DecodeError::MalformedRow { column: len, fault: FieldFault::Missing })
        );
    }
}

#[test]
fn decode_names_the_column_that_is_no_number() {
    for column in [0usize, 2, 5, 6, 7] {
        let mut row = sample_row();
        row[column] = "12x".to_string();
        assert_eq!(
            Pool::decode(&row),
            Err(DecodeError::MalformedRow { column, fault: FieldFault::NotNumeric })
        );
    }
    let mut row = sample_row();
    row[5] = "4294967296".to_string();
    assert_eq!(
        Pool::decode(&row),
        Err(DecodeError::MalformedRow { column: 5, fault: FieldFault::NotNumeric })
    );
    let mut row = sample_row();
    row[6] = "-1".to_string();
    assert_eq!(
        Pool::decode(&row),
        Err(DecodeError::MalformedRow { column: 6, fault: FieldFault::NotNumeric })
    );
}

#[test]
fn decode_names_the_column_that_is_no_address() {
    for column in [1usize, 3, 4] {
        let mut row = sample_row();
        row[column] = "0xzzzzzzzzzzzzzzzzzzzzzzzzzzzzzzzzzzzzzzzz".to_string();
        assert_eq!(
            Pool::decode(&row),
            Err(DecodeError::MalformedRow { column, fault: FieldFault::NotAddress })
        );
    }
}

#[test]
fn decode_names_the_first_of_two_faults() {
    let mut row = sample_row();
    row[4] = "nope".to_string();
    row[6] = "nope".to_string();
    assert_eq!(
        Pool::decode(&row),
        Err(DecodeError::MalformedRow { column: 4, fault: FieldFault::NotAddress })
    );
    row.truncate(3);
    row[0] = "".to_string();
    assert_eq!(
        Pool::decode(&row),
        Err(DecodeError::MalformedRow { column: 0, fault: FieldFault::NotNumeric })
    );
}

#[test]
fn pool_trades_its_pair_in_both_directions() {
    let pool = sample_pool();
    assert!(pool.trades(addr(0x11), addr(0x22)));
    assert!(pool.trades(addr(0x22), addr(0x11)));
    assert!(!pool.trades(addr(0x11), addr(0x11)));
    assert!(!pool.trades(addr(0x11), addr(0x33)));
    assert!(!pool.trades(addr(0x33), addr(0x22)));
    assert!(!pool.trades(addr(0xaa), addr(0x22)));
}

#[test]
fn pretty_msg_names_variant_address_and_tokens() {
    assert_eq!(
        sample_pool().pretty_msg(),
        "[UniswapV2] 0xaaaaaaaaaaaaaaaaaaaaaaaaaaaaaaaaaaaaaaaa: \
         0x1111111111111111111111111111111111111111 --> \
         0x2222222222222222222222222222222222222222"
    );
}
