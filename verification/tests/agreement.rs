use sandoo::address::Address;
use sandoo::chain::RawLog;
use sandoo::fee::checked_next_block_base_fee;
use sandoo::uint::U256;
use sandoo::decimal::{parse_i32, parse_i64, parse_u32, parse_u64, render_i64, render_u64};
use sandoo::pool::{DexVariant, Pool};
use sandoo::store::{header_line, load_all, pool_line, pool_lines};
use sandoo::touched::get_touched_pools;

/// A small generator of numbers; the same seed gives the same inputs.
struct Numbers(u64);

impl Numbers {
    fn next(&mut self) -> u64 {
        self.0 = self.0.wrapping_mul(6364136223846793005).wrapping_add(1442695040888963407);
        self.0 >> 33
    }

    fn below(&mut self, n: u64) -> u64 {
        self.next() % n
    }
}

/// What reading an address is described to do.
fn described(text: &str) -> Option<[u8; 20]> {
    let body = text.strip_prefix("0x").unwrap_or(text);
    let mut digits: Vec<u8> = Vec::new();
    for c in body.chars() {
        if c == ' ' || c == '\r' || c == '\n' || c == '\t' {
            continue;
        }
        digits.push(c.to_digit(16)? as u8);
    }
    if digits.len() != 40 {
        return None;
    }
    let mut bytes = [0u8; 20];
    for (i, b) in bytes.iter_mut().enumerate() {
        *b = digits[2 * i] * 16 + digits[2 * i + 1];
    }
    Some(bytes)
}

#[test]
fn reading_an_address_agrees_with_its_description() {
    let alphabet: Vec<char> = "0123456789abcdefABCDEFxX \t\r\n gGzé-+_,\"\u{3000}".chars().collect();
    let hex: Vec<char> = "0123456789abcdefABCDEF".chars().collect();
    let blanks = [' ', '\t', '\r', '\n'];
    let mut numbers = Numbers(7);
    let mut accepted = 0;
    for round in 0..20_000u32 {
        let mut text = String::new();
        if round % 2 == 0 {
            let length = 36 + numbers.below(10);
            if numbers.below(2) == 0 {
                text.push_str("0x");
            }
            for _ in 0..length {
                text.push(alphabet[numbers.below(alphabet.len() as u64) as usize]);
            }
        } else {
            if numbers.below(3) != 0 {
                text.push_str("0x");
            }
            let digits = match numbers.below(8) {
                0 => 39,
                1 => 41,
                _ => 40,
            };
            for _ in 0..digits {
                if numbers.below(12) == 0 {
                    text.push(blanks[numbers.below(4) as usize]);
                }
                text.push(hex[numbers.below(hex.len() as u64) as usize]);
            }
            if numbers.below(6) == 0 {
                text.push(blanks[numbers.below(4) as usize]);
            }
            if numbers.below(40) == 0 {
                text.push(alphabet[numbers.below(alphabet.len() as u64) as usize]);
            }
        }
        let read = Address::parse(&text).map(|a| a.bytes);
        assert_eq!(read, described(&text), "{:?}", text);
        if read.is_some() {
            accepted += 1;
        }
    }
    assert!(accepted > 1_000);
}

#[test]
fn writing_an_address_agrees_with_its_description() {
    let mut numbers = Numbers(11);
    for _ in 0..2_000 {
        let mut bytes = [0u8; 20];
        for b in bytes.iter_mut() {
            *b = numbers.below(256) as u8;
        }
        let mut expected = String::from("0x");
        for b in bytes {
            expected.push(char::from_digit((b / 16) as u32, 16).unwrap());
            expected.push(char::from_digit((b % 16) as u32, 16).unwrap());
        }
        let address = Address::new(bytes);
        assert_eq!(address.to_text(), expected);
        assert_eq!(Address::parse(&expected), Some(address));
    }
}

#[test]
fn touched_pools_agree_with_their_description() {
    let mut numbers = Numbers(13);
    for _ in 0..500 {
        let count = numbers.below(60);
        let spread = 1 + numbers.below(20);
        let mut logs = Vec::new();
        let mut expected: Vec<Address> = Vec::new();
        for _ in 0..count {
            let mut bytes = [0u8; 20];
            bytes[numbers.below(20) as usize] = numbers.below(spread) as u8;
            let address = Address::new(bytes);
            if !expected.contains(&address) {
                expected.push(address);
            }
            logs.push(RawLog {
                address,
                topics: Vec::new(),
                data: Vec::new(),
                block_number: 1,
                timestamp: 0,
            });
        }
        assert_eq!(get_touched_pools(&logs), expected);
    }
}

#[test]
fn reading_a_number_agrees_with_the_standard_library() {
    let alphabet: Vec<char> = "00112233445566778899+-+- _xe.\u{661}".chars().collect();
    let mut numbers = Numbers(17);
    let mut accepted = 0;
    for _ in 0..40_000 {
        let mut text = String::new();
        match numbers.below(4) {
            0 => text.push('-'),
            1 => text.push('+'),
            _ => {}
        }
        let length = numbers.below(23);
        for _ in 0..length {
            let c = if numbers.below(30) == 0 {
                alphabet[numbers.below(alphabet.len() as u64) as usize]
            } else {
                char::from_digit(numbers.below(10) as u32, 10).unwrap()
            };
            text.push(c);
        }
        assert_eq!(parse_u64(&text), text.parse::<u64>().ok(), "{:?}", text);
        assert_eq!(parse_i64(&text), text.parse::<i64>().ok(), "{:?}", text);
        assert_eq!(parse_u32(&text), text.parse::<u32>().ok(), "{:?}", text);
        assert_eq!(parse_i32(&text), text.parse::<i32>().ok(), "{:?}", text);
        if parse_i64(&text).is_some() {
            accepted += 1;
        }
    }
    assert!(accepted > 5_000);
}

#[test]
fn writing_a_number_agrees_with_the_standard_library() {
    let mut numbers = Numbers(19);
    for _ in 0..20_000 {
        let bits = numbers.below(64) as u32;
        let v = (numbers.next() << 31 | numbers.next()) >> (63 - bits);
        assert_eq!(render_u64(v), v.to_string());
        let w = v as i64;
        assert_eq!(render_i64(w), w.to_string());
        assert_eq!(render_i64(w.wrapping_neg()), w.wrapping_neg().to_string());
        assert_eq!(parse_u64(&render_u64(v)), Some(v));
        assert_eq!(parse_i64(&render_i64(w)), Some(w));
    }
}

#[test]
fn written_pools_agree_with_their_description_and_are_loaded_again() {
    let mut numbers = Numbers(23);
    let mut pools = Vec::new();
    let mut expected = String::from("id,address,version,token0,token1,fee,block_number,timestamp\n");
    for _ in 0..2_000 {
        let mut accounts = [[0u8; 20]; 3];
        for account in accounts.iter_mut() {
            for b in account.iter_mut() {
                *b = numbers.below(256) as u8;
            }
        }
        let shift = numbers.below(64) as u32;
        let pool = Pool {
            id: ((numbers.next() << 31 | numbers.next()) >> shift) as i64 - (1 << numbers.below(40)),
            address: Address::new(accounts[0]),
            version: DexVariant::UniswapV2,
            token0: Address::new(accounts[1]),
            token1: Address::new(accounts[2]),
            fee: numbers.next() as u32,
            block_number: (numbers.next() << 31 | numbers.next()) >> shift,
            timestamp: numbers.next(),
        };
        let line = format!("{}\n", pool.encode().join(","));
        assert_eq!(pool_line(&pool), line.clone().into_bytes());
        expected.push_str(&line);
        pools.push(pool);
    }
    let mut file = header_line();
    file.extend(pool_lines(&pools));
    assert_eq!(file, expected.into_bytes());
    assert_eq!(load_all(&file), Ok(pools));
}

/// The base fee as it is described, computed on the numbers of `ethers`.
fn described_fee(
    gas_used: ethers::types::U256,
    gas_limit: ethers::types::U256,
    base_fee: ethers::types::U256,
) -> Option<ethers::types::U256> {
    let mut target = gas_limit / 2;
    if target.is_zero() {
        target = ethers::types::U256::one();
    }
    if gas_used > target {
        let share = base_fee.checked_mul(gas_used - target)? / target / 8;
        base_fee.checked_add(share)
    } else {
        let share = base_fee.checked_mul(target - gas_used)? / target / 8;
        Some(base_fee - share)
    }
}

#[test]
fn base_fee_agrees_with_its_description() {
    let mut numbers = Numbers(29);
    let mut none = 0;
    let mut some = 0;
    for _ in 0..20_000 {
        let mut inputs = [[0u64; 4]; 3];
        for input in inputs.iter_mut() {
            let words = numbers.below(5) as usize;
            for limb in input.iter_mut().take(words) {
                *limb = (numbers.next() << 33 | numbers.next() << 2 | numbers.below(4))
                    >> numbers.below(64);
            }
        }
        let fee = checked_next_block_base_fee(
            U256 { limbs: inputs[0] },
            U256 { limbs: inputs[1] },
            U256 { limbs: inputs[2] },
        );
        let expected = described_fee(
            ethers::types::U256(inputs[0]),
            ethers::types::U256(inputs[1]),
            ethers::types::U256(inputs[2]),
        );
        assert_eq!(fee.map(|f| f.limbs), expected.map(|f| f.0), "{:?}", inputs);
        let a = U256 { limbs: inputs[0] };
        let b = U256 { limbs: inputs[1] };
        assert_eq!(a.gt(&b), ethers::types::U256(inputs[0]) > ethers::types::U256(inputs[1]));
        assert_eq!(a.is_zero(), ethers::types::U256(inputs[0]).is_zero());
        if fee.is_some() {
            some += 1;
        } else {
            none += 1;
        }
    }
    assert!(some > 2_000);
    assert!(none > 2_000);
}
