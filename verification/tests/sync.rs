use sandoo::address::Address;
use sandoo::chain::RawLog;
use sandoo::discovery::accept_logs;
use sandoo::pool::{DexVariant, Pool};
use sandoo::registry::Registry;
use sandoo::store::{header_line, load_all, pool_lines};
use sandoo::sync::{SyncAction, SyncError, SyncEvent, SyncPhase, Synchronizer};

fn account(byte: u8) -> Address {
    Address::new([byte; 20])
}

fn padded(byte: u8) -> [u8; 32] {
    let mut w = [0u8; 32];
    for b in w.iter_mut().skip(12) {
        *b = byte;
    }
    w
}

fn pair_created(pair: u8, token0: u8, token1: u8, block_number: u64) -> RawLog {
    let mut data = padded(pair).to_vec();
    data.extend_from_slice(&padded(0));
    RawLog {
        address: account(0xfa),
        topics: vec![[0x0d; 32], padded(token0), padded(token1)],
        data,
        block_number,
        timestamp: 1_000 + block_number,
    }
}

fn known(id: i64, pair: u8, token0: u8, token1: u8, block_number: u64) -> Pool {
    Pool {
        id,
        address: account(pair),
        version: DexVariant::UniswapV2,
        token0: account(token0),
        token1: account(token1),
        fee: 0,
        block_number,
        timestamp: 1_000 + block_number,
    }
}

/// Runs a scan against a chain that holds `events` and a store that holds
/// `file`. Returns the synchronizer, the last action and the chunks asked for.
fn drive(mut sync: Synchronizer, events: &[RawLog], file: &mut Vec<u8>) -> (Synchronizer, SyncAction, Vec<(u64, u64)>) {
    let mut asked = Vec::new();
    let mut action = sync.action();
    loop {
        let event = match &action {
            SyncAction::Fetch { from_block, to_block } => {
                asked.push((*from_block, *to_block));
                let logs = events
                    .iter()
                    .filter(|l| *from_block <= l.block_number && l.block_number <= *to_block)
                    .cloned()
                    .collect();
                SyncEvent::Logs(logs)
            }
            SyncAction::Append { pools } => {
                file.extend(pool_lines(pools));
                SyncEvent::Appended
            }
            SyncAction::Done { .. } | SyncAction::Abort { .. } => return (sync, action, asked),
        };
        let (next, then) = sync.step(event);
        sync = next;
        action = then;
    }
}

#[test]
fn one_pair_is_found_once() {
    let chain = vec![pair_created(0xaa, 0x11, 0x22, 150)];
    let mut file = header_line();

    let sync = Synchronizer::new(Registry::new(), 100, 200, 50).unwrap();
    let (sync, action, asked) = drive(sync, &chain, &mut file);
    assert_eq!(action, SyncAction::Done { appended: 1 });
    assert_eq!(asked, vec![(100, 149), (150, 199), (200, 200)]);
    assert_eq!(sync.appended(), 1);
    assert_eq!(sync.scanned_through(), Some(200));
    let registry = sync.into_registry();
    assert_eq!(registry.pools(), &vec![known(1, 0xaa, 0x11, 0x22, 150)]);
    assert_eq!(load_all(&file), Ok(vec![known(1, 0xaa, 0x11, 0x22, 150)]));

    let again = Synchronizer::new(registry, 100, 200, 50).unwrap();
    let (again, action, asked) = drive(again, &chain, &mut file);
    assert_eq!(action, SyncAction::Done { appended: 0 });
    assert_eq!(asked, vec![(100, 149), (150, 199), (200, 200)]);
    assert_eq!(again.registry().len(), 1);
    assert_eq!(load_all(&file), Ok(vec![known(1, 0xaa, 0x11, 0x22, 150)]));
}

#[test]
fn a_scan_after_a_restart_adds_nothing() {
    let chain = vec![
        pair_created(0xa1, 0x11, 0x22, 100),
        pair_created(0xa2, 0x11, 0x33, 120),
        pair_created(0xa3, 0x22, 0x33, 120),
        pair_created(0xa4, 0x22, 0x44, 199),
    ];
    let mut file = header_line();
    let sync = Synchronizer::new(Registry::new(), 100, 199, 7).unwrap();
    let (sync, action, _) = drive(sync, &chain, &mut file);
    assert_eq!(action, SyncAction::Done { appended: 4 });
    assert_eq!(sync.registry().watermark(), Some(199));

    let loaded = load_all(&file).unwrap();
    assert_eq!(&loaded, sync.registry().pools());
    let restarted = Registry::from_pools(&loaded).unwrap();
    let over_again = Synchronizer::new(restarted, 100, 199, 7).unwrap();
    let size = file.len();
    let (over_again, action, _) = drive(over_again, &chain, &mut file);
    assert_eq!(action, SyncAction::Done { appended: 0 });
    assert_eq!(file.len(), size);
    assert_eq!(over_again.registry().pools(), &loaded);

    let restarted = Registry::from_pools(&loaded).unwrap();
    let resumed = Synchronizer::resume(restarted, 100, 199, 7).unwrap();
    assert_eq!(resumed.action(), SyncAction::Done { appended: 0 });
    assert_eq!(resumed.phase(), SyncPhase::Done);
}

#[test]
fn ids_go_on_from_the_highest_id() {
    let mut registry = Registry::new();
    registry.insert(known(7, 0xb1, 0x11, 0x22, 10)).unwrap();
    registry.insert(known(3, 0xb2, 0x11, 0x33, 20)).unwrap();
    let chain = vec![
        pair_created(0xa1, 0x11, 0x44, 30),
        pair_created(0xb1, 0x55, 0x66, 31),
        pair_created(0xa2, 0x11, 0x55, 31),
        pair_created(0xa1, 0x11, 0x44, 32),
        pair_created(0xa3, 0x77, 0x77, 33),
        pair_created(0xa4, 0x11, 0x66, 45),
    ];
    let mut file = Vec::new();
    let sync = Synchronizer::resume(registry, 0, 50, 10).unwrap();
    let (sync, action, asked) = drive(sync, &chain, &mut file);
    assert_eq!(action, SyncAction::Done { appended: 3 });
    assert_eq!(asked, vec![(21, 30), (31, 40), (41, 50)]);
    assert_eq!(
        sync.registry().pools(),
        &vec![
            known(7, 0xb1, 0x11, 0x22, 10),
            known(3, 0xb2, 0x11, 0x33, 20),
            known(8, 0xa1, 0x11, 0x44, 30),
            known(9, 0xa2, 0x11, 0x55, 31),
            known(10, 0xa4, 0x11, 0x66, 45),
        ]
    );
}

#[test]
fn chunks_are_contiguous_and_no_longer_than_allowed() {
    let mut file = Vec::new();
    let cases: [(u64, u64, u64); 6] = [(0, 0, 1), (0, 9, 3), (5, 5, 100), (1, 10, 10), (1, 11, 10), (u64::MAX - 5, u64::MAX, 4)];
    for (from, to, chunk) in cases {
        let sync = Synchronizer::new(Registry::new(), from, to, chunk).unwrap();
        let (sync, action, asked) = drive(sync, &[], &mut file);
        assert_eq!(action, SyncAction::Done { appended: 0 });
        assert_eq!(asked.first().unwrap().0, from);
        assert_eq!(asked.last().unwrap().1, to);
        for (a, b) in &asked {
            assert!(a <= b);
            assert!(b - a < chunk);
        }
        for w in asked.windows(2) {
            assert_eq!(w[0].1 + 1, w[1].0);
            assert_eq!(w[0].1 - w[0].0 + 1, chunk);
        }
        assert_eq!(sync.scanned_through(), Some(to));
    }
    let sync = Synchronizer::new(Registry::new(), 0, 9, 3).unwrap();
    let (_, _, asked) = drive(sync, &[], &mut file);
    assert_eq!(asked, vec![(0, 2), (3, 5), (6, 8), (9, 9)]);
    assert!(file.is_empty());
}

#[test]
fn a_range_without_blocks_is_scanned_at_once() {
    let sync = Synchronizer::new(Registry::new(), 201, 200, 50).unwrap();
    assert_eq!(sync.phase(), SyncPhase::Done);
    assert_eq!(sync.action(), SyncAction::Done { appended: 0 });
    assert_eq!(sync.scanned_through(), Some(200));
    let sync = Synchronizer::new(Registry::new(), 0, 5, 2).unwrap();
    assert_eq!(sync.scanned_through(), None);
    assert_eq!(sync.phase(), SyncPhase::AwaitingLogs);
}

#[test]
fn a_chunk_of_no_blocks_is_refused() {
    assert_eq!(Synchronizer::new(Registry::new(), 100, 200, 0).err(), Some(SyncError::EmptyChunk));
    assert_eq!(Synchronizer::resume(Registry::new(), 100, 200, 0).err(), Some(SyncError::EmptyChunk));
}

#[test]
fn a_failure_of_the_source_leaves_the_chunk_pending() {
    let sync = Synchronizer::new(Registry::new(), 100, 200, 50).unwrap();
    let (sync, action) = sync.step(SyncEvent::Logs(vec![pair_created(0xa1, 1, 2, 120)]));
    assert_eq!(action, SyncAction::Append { pools: vec![known(1, 0xa1, 1, 2, 120)] });
    let (sync, action) = sync.step(SyncEvent::Appended);
    assert_eq!(action, SyncAction::Fetch { from_block: 150, to_block: 199 });

    let (sync, action) = sync.step(SyncEvent::TransportFailed);
    assert_eq!(action, SyncAction::Abort { error: SyncError::TransportError });
    assert_eq!(sync.action(), SyncAction::Fetch { from_block: 150, to_block: 199 });
    assert_eq!(sync.scanned_through(), Some(149));
    assert_eq!(sync.appended(), 1);
    assert_eq!(sync.registry().len(), 1);

    let (sync, action) = sync.step(SyncEvent::Logs(vec![pair_created(0xa1, 1, 2, 150), pair_created(0xa2, 1, 3, 151)]));
    assert_eq!(action, SyncAction::Append { pools: vec![known(2, 0xa2, 1, 3, 151)] });
    let (sync, action) = sync.step(SyncEvent::Appended);
    assert_eq!(action, SyncAction::Fetch { from_block: 200, to_block: 200 });
    let (sync, action) = sync.step(SyncEvent::Logs(Vec::new()));
    assert_eq!(action, SyncAction::Done { appended: 2 });
    assert_eq!(sync.phase(), SyncPhase::Done);
}

#[test]
fn a_failure_of_the_store_lets_the_chunk_go() {
    let mut registry = Registry::new();
    registry.insert(known(1, 0xb1, 1, 2, 50)).unwrap();
    let sync = Synchronizer::new(registry, 100, 200, 50).unwrap();
    let logs = vec![pair_created(0xa1, 1, 2, 120), pair_created(0xa2, 1, 3, 121)];
    let (sync, action) = sync.step(SyncEvent::Logs(logs.clone()));
    assert_eq!(action, SyncAction::Append { pools: vec![known(2, 0xa1, 1, 2, 120), known(3, 0xa2, 1, 3, 121)] });
    assert_eq!(sync.phase(), SyncPhase::AwaitingAppend);
    assert_eq!(sync.action(), action);
    assert_eq!(sync.registry().len(), 1);
    assert_eq!(sync.appended(), 0);

    let (sync, action) = sync.step(SyncEvent::AppendFailed);
    assert_eq!(action, SyncAction::Abort { error: SyncError::StoreError });
    assert_eq!(sync.phase(), SyncPhase::AwaitingLogs);
    assert_eq!(sync.action(), SyncAction::Fetch { from_block: 100, to_block: 149 });
    assert_eq!(sync.registry().len(), 1);
    assert_eq!(sync.appended(), 0);
    assert_eq!(sync.scanned_through(), Some(99));

    let (sync, action) = sync.step(SyncEvent::Logs(logs));
    assert_eq!(action, SyncAction::Append { pools: vec![known(2, 0xa1, 1, 2, 120), known(3, 0xa2, 1, 3, 121)] });
    let (sync, _) = sync.step(SyncEvent::Appended);
    assert_eq!(sync.registry().len(), 3);
    assert_eq!(sync.appended(), 2);
    assert_eq!(sync.scanned_through(), Some(149));
}

#[test]
fn an_event_that_answers_nothing_changes_nothing() {
    let sync = Synchronizer::new(Registry::new(), 100, 200, 50).unwrap();
    let (sync, action) = sync.step(SyncEvent::Appended);
    assert_eq!(action, SyncAction::Abort { error: SyncError::UnexpectedEvent });
    let (sync, action) = sync.step(SyncEvent::AppendFailed);
    assert_eq!(action, SyncAction::Abort { error: SyncError::UnexpectedEvent });
    assert_eq!(sync.action(), SyncAction::Fetch { from_block: 100, to_block: 149 });

    let (sync, _) = sync.step(SyncEvent::Logs(vec![pair_created(0xa1, 1, 2, 120)]));
    let (sync, action) = sync.step(SyncEvent::Logs(vec![pair_created(0xa2, 1, 3, 121)]));
    assert_eq!(action, SyncAction::Abort { error: SyncError::UnexpectedEvent });
    let (sync, action) = sync.step(SyncEvent::TransportFailed);
    assert_eq!(action, SyncAction::Abort { error: SyncError::UnexpectedEvent });
    assert_eq!(sync.action(), SyncAction::Append { pools: vec![known(1, 0xa1, 1, 2, 120)] });

    let done = Synchronizer::new(Registry::new(), 1, 0, 1).unwrap();
    for event in [SyncEvent::Logs(Vec::new()), SyncEvent::TransportFailed, SyncEvent::Appended, SyncEvent::AppendFailed] {
        let (after, action) = Synchronizer::new(Registry::new(), 1, 0, 1).unwrap().step(event);
        assert_eq!(action, SyncAction::Abort { error: SyncError::UnexpectedEvent });
        assert_eq!(after.action(), done.action());
    }
}

#[test]
fn a_scan_breaks_off_when_no_id_is_left() {
    let mut registry = Registry::new();
    registry.insert(known(i64::MAX - 1, 0xb1, 1, 2, 50)).unwrap();
    let sync = Synchronizer::new(registry, 100, 200, 50).unwrap();
    let logs = vec![pair_created(0xa1, 1, 2, 120), pair_created(0xb1, 1, 2, 121), pair_created(0xa2, 1, 3, 122)];
    let (sync, action) = sync.step(SyncEvent::Logs(logs));
    assert_eq!(action, SyncAction::Abort { error: SyncError::IdSpaceExhausted });
    assert_eq!(sync.registry().len(), 1);
    assert_eq!(sync.action(), SyncAction::Fetch { from_block: 100, to_block: 149 });

    let (sync, action) = sync.step(SyncEvent::Logs(vec![pair_created(0xa1, 1, 2, 120), pair_created(0xa1, 1, 2, 121)]));
    assert_eq!(action, SyncAction::Append { pools: vec![known(i64::MAX, 0xa1, 1, 2, 120)] });
    let (_, action) = sync.step(SyncEvent::Appended);
    assert_eq!(action, SyncAction::Fetch { from_block: 150, to_block: 199 });
}

#[test]
fn logs_are_taken_in_order_and_known_addresses_are_passed_over() {
    let mut registry = Registry::new();
    registry.insert(known(4, 0xb1, 1, 2, 50)).unwrap();
    let logs = vec![
        pair_created(0xa1, 1, 2, 120),
        pair_created(0xa1, 3, 4, 121),
        pair_created(0xb1, 5, 6, 122),
        pair_created(0xa2, 9, 9, 123),
        pair_created(0xa3, 1, 2, 124),
    ];
    assert_eq!(
        accept_logs(&registry, &logs),
        Some(vec![known(5, 0xa1, 1, 2, 120), known(6, 0xa3, 1, 2, 124)])
    );
    assert_eq!(accept_logs(&registry, &Vec::new()), Some(Vec::new()));
    let mut full = Registry::new();
    full.insert(known(i64::MAX, 0xb1, 1, 2, 50)).unwrap();
    assert_eq!(accept_logs(&full, &logs), None);
    assert_eq!(accept_logs(&full, &vec![pair_created(0xb1, 5, 6, 122)]), Some(Vec::new()));
}

#[test]
fn scanning_resumes_behind_the_last_known_pool() {
    let mut registry = Registry::new();
    registry.insert(known(1, 0xb1, 1, 2, 149)).unwrap();
    let sync = Synchronizer::resume(registry, 100, 200, 50).unwrap();
    assert_eq!(sync.action(), SyncAction::Fetch { from_block: 150, to_block: 199 });
    let sync = Synchronizer::resume(Registry::new(), 100, 200, 50).unwrap();
    assert_eq!(sync.action(), SyncAction::Fetch { from_block: 100, to_block: 149 });
    let mut registry = Registry::new();
    registry.insert(known(1, 0xb1, 1, 2, u64::MAX)).unwrap();
    let sync = Synchronizer::resume(registry, 100, u64::MAX, 50).unwrap();
    assert_eq!(sync.action(), SyncAction::Done { appended: 0 });
}

#[test]
fn chunks_left_are_counted() {
    let cases: [(u64, u64, u64, u64); 8] = [
        (100, 200, 50, 3),
        (0, 9, 3, 4),
        (0, 8, 3, 3),
        (5, 5, 1, 1),
        (6, 5, 1, 0),
        (0, u64::MAX, 1, u64::MAX),
        (0, u64::MAX, 2, 1 << 63),
        (1, u64::MAX, 1, u64::MAX),
    ];
    for (from, to, chunk, expected) in cases {
        let sync = Synchronizer::new(Registry::new(), from, to, chunk).unwrap();
        assert_eq!(sync.chunks_left(), expected, "{}..={} by {}", from, to, chunk);
    }
    let sync = Synchronizer::new(Registry::new(), 100, 200, 50).unwrap();
    let (sync, _) = sync.step(SyncEvent::Logs(Vec::new()));
    assert_eq!(sync.chunks_left(), 2);
    let (sync, _) = sync.step(SyncEvent::Logs(vec![pair_created(0xa1, 1, 2, 150)]));
    assert_eq!(sync.chunks_left(), 2);
    let (sync, _) = sync.step(SyncEvent::Appended);
    assert_eq!(sync.chunks_left(), 1);
    let (sync, _) = sync.step(SyncEvent::Logs(Vec::new()));
    assert_eq!(sync.chunks_left(), 0);
}
