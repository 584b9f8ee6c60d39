use sandoo::address::Address;
use sandoo::pool::{DexVariant, Pool};
use sandoo::registry::{Registry, RegistryError};

fn token(byte: u8) -> Address {
    Address::new([byte; 20])
}

fn pool_of(id: i64, address: u8, token0: u8, token1: u8, block_number: u64) -> Pool {
    Pool {
        id,
        address: token(address),
        version: DexVariant::UniswapV2,
        token0: token(token0),
        token1: token(token1),
        fee: 0,
        block_number,
        timestamp: 0,
    }
}

fn filled() -> Registry {
    let mut registry = Registry::new();
    registry.insert(pool_of(1, 0xa1, 0x01, 0x02, 100)).unwrap();
    registry.insert(pool_of(2, 0xa2, 0x02, 0x03, 105)).unwrap();
    registry.insert(pool_of(5, 0xa3, 0x02, 0x01, 103)).unwrap();
    registry.insert(pool_of(3, 0xa4, 0x01, 0x03, 101)).unwrap();
    registry
}

#[test]
fn a_new_registry_is_empty() {
    let registry = Registry::new();
    assert_eq!(registry.len(), 0);
    assert_eq!(registry.get(0), None);
    assert_eq!(registry.max_id(), 0);
    assert_eq!(registry.watermark(), None);
    assert!(registry.pools().is_empty());
    assert_eq!(registry.find_pools(token(1), token(2)), Vec::new());
    assert_eq!(registry.count_by_variant(), vec![(DexVariant::UniswapV2, 0)]);
}

#[test]
fn insert_keeps_the_order_of_discovery() {
    let registry = filled();
    assert_eq!(registry.len(), 4);
    assert_eq!(registry.get(0), Some(pool_of(1, 0xa1, 0x01, 0x02, 100)));
    assert_eq!(registry.get(3), Some(pool_of(3, 0xa4, 0x01, 0x03, 101)));
    assert_eq!(registry.get(4), None);
    assert_eq!(registry.pools()[2].id, 5);
}

#[test]
fn insert_refuses_a_known_address() {
    let mut registry = filled();
    let again = pool_of(9, 0xa2, 0x07, 0x08, 200);
    assert_eq!(registry.insert(again), Err(RegistryError::DuplicateAddress(token(0xa2))));
    assert_eq!(registry.len(), 4);
    assert_eq!(registry.get_by_address(token(0xa2)), Some(pool_of(2, 0xa2, 0x02, 0x03, 105)));
}

#[test]
fn lookup_by_address() {
    let registry = filled();
    assert!(registry.contains_address(token(0xa3)));
    assert!(!registry.contains_address(token(0x01)));
    assert_eq!(registry.get_by_address(token(0xa4)), Some(pool_of(3, 0xa4, 0x01, 0x03, 101)));
    assert_eq!(registry.get_by_address(token(0xa5)), None);
}

#[test]
fn from_pools_takes_all_or_none() {
    let pools = vec![pool_of(1, 0xa1, 1, 2, 100), pool_of(2, 0xa2, 2, 3, 101)];
    let registry = Registry::from_pools(&pools).unwrap();
    assert_eq!(registry.pools(), &pools);
    let twice = vec![pool_of(1, 0xa1, 1, 2, 100), pool_of(2, 0xa2, 2, 3, 101), pool_of(3, 0xa1, 4, 5, 102)];
    assert_eq!(
        Registry::from_pools(&twice).err(),
        Some(RegistryError::DuplicateAddress(token(0xa1)))
    );
}

#[test]
fn find_pools_matches_the_unordered_pair() {
    let registry = filled();
    let found = registry.find_pools(token(0x01), token(0x02));
    assert_eq!(found, vec![pool_of(1, 0xa1, 0x01, 0x02, 100), pool_of(5, 0xa3, 0x02, 0x01, 103)]);
    assert_eq!(registry.find_pools(token(0x03), token(0x02)), vec![pool_of(2, 0xa2, 0x02, 0x03, 105)]);
    assert_eq!(registry.find_pools(token(0x01), token(0x01)), Vec::new());
    assert_eq!(registry.find_pools(token(0x04), token(0x02)), Vec::new());
}

#[test]
fn find_pools_does_not_care_which_token_comes_first() {
    let registry = filled();
    for a in 0u8..5 {
        for b in 0u8..5 {
            assert_eq!(registry.find_pools(token(a), token(b)), registry.find_pools(token(b), token(a)));
        }
    }
}

#[test]
fn counts_by_variant() {
    let registry = filled();
    assert_eq!(registry.count_variant(DexVariant::UniswapV2), 4);
    assert_eq!(registry.count_by_variant(), vec![(DexVariant::UniswapV2, 4)]);
}

#[test]
fn highest_id_and_block() {
    let registry = filled();
    assert_eq!(registry.max_id(), 5);
    assert_eq!(registry.watermark(), Some(105));
    let mut negative = Registry::new();
    negative.insert(pool_of(-4, 0xa1, 1, 2, 0)).unwrap();
    assert_eq!(negative.max_id(), 0);
    assert_eq!(negative.watermark(), Some(0));
}

#[test]
fn scanning_resumes_behind_the_watermark() {
    assert_eq!(filled().resume_block(42), Some(106));
    assert_eq!(Registry::new().resume_block(42), Some(42));
    let mut last = Registry::new();
    last.insert(pool_of(1, 0xa1, 1, 2, u64::MAX)).unwrap();
    assert_eq!(last.resume_block(42), None);
}

#[test]
fn addresses_with_the_same_last_bytes_are_told_apart() {
    let mut low = [0u8; 20];
    let mut high = [0u8; 20];
    for i in 12..20 {
        low[i] = 0x5a;
        high[i] = 0x5a;
    }
    high[0] = 1;
    let mut other = high;
    other[11] = 9;
    let mut registry = Registry::new();
    let first = Pool { address: Address::new(low), ..pool_of(1, 0, 1, 2, 10) };
    let second = Pool { address: Address::new(high), ..pool_of(2, 0, 1, 3, 11) };
    registry.insert(first).unwrap();
    assert!(!registry.contains_address(Address::new(high)));
    registry.insert(second).unwrap();
    assert_eq!(registry.insert(second), Err(RegistryError::DuplicateAddress(Address::new(high))));
    assert_eq!(registry.get_by_address(Address::new(low)), Some(first));
    assert_eq!(registry.get_by_address(Address::new(high)), Some(second));
    assert_eq!(registry.get_by_address(Address::new(other)), None);
    assert_eq!(registry.len(), 2);
}

#[test]
fn many_pools_are_found_by_address() {
    let mut registry = Registry::new();
    let mut pools = Vec::new();
    for n in 0..2000u32 {
        let mut bytes = [0u8; 20];
        bytes[16..20].copy_from_slice(&n.to_be_bytes());
        bytes[3] = (n % 7) as u8;
        let pool = Pool { address: Address::new(bytes), ..pool_of(n as i64 + 1, 0, 1, 2, n as u64) };
        pools.push(pool);
        assert_eq!(registry.insert(pool), Ok(()));
    }
    assert_eq!(registry.pools(), &pools);
    for pool in &pools {
        assert_eq!(registry.get_by_address(pool.address), Some(*pool));
        assert!(registry.insert(*pool).is_err());
    }
    assert_eq!(registry.len(), 2000);
    let from = Registry::from_pools(&pools).unwrap();
    assert_eq!(from.pools(), &pools);
    assert_eq!(from.max_id(), 2000);
    assert_eq!(from.watermark(), Some(1999));
}

#[test]
fn ids_are_unique_or_not() {
    assert!(Registry::new().has_unique_ids());
    assert!(filled().has_unique_ids());
    let mut registry = filled();
    registry.insert(pool_of(5, 0xa9, 0x01, 0x04, 110)).unwrap();
    assert!(!registry.has_unique_ids());
    let twice = vec![pool_of(-3, 0xa1, 1, 2, 100), pool_of(7, 0xa2, 2, 3, 101), pool_of(-3, 0xa3, 4, 5, 102)];
    assert!(!Registry::from_pools(&twice).unwrap().has_unique_ids());
    let once = vec![pool_of(i64::MIN, 0xa1, 1, 2, 100), pool_of(i64::MAX, 0xa2, 2, 3, 101), pool_of(0, 0xa3, 4, 5, 102)];
    assert!(Registry::from_pools(&once).unwrap().has_unique_ids());
}
