//! Turning the creation logs of a chunk into new pools.
//!
//! Logs are taken in the order in which the source emitted them. A log that
//! announces a pool whose address is already known is passed over, so that a
//! source that delivers an event twice adds nothing. A pool that is taken in
//! gets the next id: one more than the highest id there is.

use crate::address::Address;
use crate::chain::{creation_candidate, decode_creation_log, RawLog};
use crate::pool::Pool;
use crate::registry::{
    has_address, lemma_max_id_bounds, max_id, unique_addresses, unique_ids, Registry,
};
use vstd::prelude::*;

verus! {

/// The pools after one log: the pool that the log announces is added with the
/// next id, unless the log announces none or one that is known. `None` where
/// a pool is to be added and no id is left.
pub open spec fn absorb_log(pools: Seq<Pool>, log: RawLog) -> Option<Seq<Pool>> {
    match creation_candidate(log) {
        Some(c) => if has_address(pools, c.address) {
            Some(pools)
        } else if max_id(pools) < i64::MAX {
            Some(pools.push(Pool { id: (max_id(pools) + 1) as i64, ..c }))
        } else {
            None
        },
        None => Some(pools),
    }
}

/// The pools after a sequence of logs, taken in order.
pub open spec fn absorb(pools: Seq<Pool>, logs: Seq<RawLog>) -> Option<Seq<Pool>>
    decreases logs.len(),
{
    if logs.len() == 0 {
        Some(pools)
    } else {
        match absorb(pools, logs.drop_last()) {
            Some(before) => absorb_log(before, logs.last()),
            None => None,
        }
    }
}

/// Whether the log announces a pool with the address.
pub open spec fn log_announces(log: RawLog, address: Address) -> bool {
    creation_candidate(log) is Some && creation_candidate(log).unwrap().address == address
}

/// Whether the pool is what the log announces, but for its id.
pub open spec fn log_gives(log: RawLog, pool: Pool) -> bool {
    creation_candidate(log) is Some && pool == (Pool {
        id: pool.id,
        ..creation_candidate(log).unwrap()
    })
}

/// Whether some log of `logs` announces a pool with the address.
pub open spec fn announces(logs: Seq<RawLog>, address: Address) -> bool {
    exists|k: int| 0 <= k < logs.len() && #[trigger] log_announces(logs[k], address)
}

/// Whether the pool is what some log of `logs` announces, but for its id.
pub open spec fn announced_by(logs: Seq<RawLog>, pool: Pool) -> bool {
    exists|k: int| 0 <= k < logs.len() && #[trigger] log_gives(logs[k], pool)
}

/// An address is among the pools of `a + b` exactly if it is among those of
/// `a` or those of `b`.
pub proof fn lemma_has_address_concat(a: Seq<Pool>, b: Seq<Pool>, address: Address)
    ensures
        has_address(a + b, address) == (has_address(a, address) || has_address(b, address)),
{
    if has_address(a + b, address) {
        let i = choose|i: int| 0 <= i < (a + b).len() && (#[trigger] (a + b)[i]).address == address;
        if i < a.len() {
            assert(a[i].address == address);
        } else {
            assert(b[i - a.len()].address == address);
        }
    }
    if has_address(a, address) {
        let i = choose|i: int| 0 <= i < a.len() && (#[trigger] a[i]).address == address;
        assert((a + b)[i].address == address);
    }
    if has_address(b, address) {
        let i = choose|i: int| 0 <= i < b.len() && (#[trigger] b[i]).address == address;
        assert((a + b)[i + a.len()].address == address);
    }
}

/// What one log does to the pools: what was known stays in place, no address
/// comes to stand twice, the address that the log announces is known
/// afterwards, at most one pool is added, and it is the announced one with an
/// id above all others.
pub proof fn lemma_absorb_log(pools: Seq<Pool>, log: RawLog)
    requires
        absorb_log(pools, log) is Some,
    ensures
        ({
            let after = absorb_log(pools, log).unwrap();
            &&& pools.len() <= after.len() <= pools.len() + 1
            &&& after.take(pools.len() as int) == pools
            &&& unique_addresses(pools) ==> unique_addresses(after)
            &&& unique_ids(pools) ==> unique_ids(after)
            &&& max_id(after) == max_id(pools) + (after.len() - pools.len())
            &&& creation_candidate(log) matches Some(c) ==> has_address(after, c.address)
            &&& forall|a: Address| has_address(pools, a) ==> has_address(after, a)
            &&& after.len() > pools.len() ==> {
                &&& creation_candidate(log) matches Some(c)
                &&& after.last() == (Pool { id: (max_id(pools) + 1) as i64, ..c })
                &&& !has_address(pools, c.address)
            }
        }),
{
    let after = absorb_log(pools, log).unwrap();
    lemma_max_id_bounds(pools);
    if after.len() > pools.len() {
        let c = creation_candidate(log).unwrap();
        let p = Pool { id: (max_id(pools) + 1) as i64, ..c };
        assert(after == pools.push(p));
        assert(after.take(pools.len() as int) =~= pools);
        assert(after.drop_last() =~= pools);
        assert(after[pools.len() as int].address == c.address);
        assert forall|a: Address| has_address(pools, a) implies has_address(after, a) by {
            let i = choose|i: int| 0 <= i < pools.len() && (#[trigger] pools[i]).address == a;
            assert(after[i].address == a);
        }
    } else {
        assert(after.take(pools.len() as int) =~= pools);
    }
}

/// What a sequence of logs does to the pools: what was known stays in place,
/// no address and no id comes to stand twice, and ids go up by one with
/// every pool that is added.
pub proof fn lemma_absorb_extends(pools: Seq<Pool>, logs: Seq<RawLog>)
    requires
        absorb(pools, logs) is Some,
    ensures
        ({
            let after = absorb(pools, logs).unwrap();
            &&& pools.len() <= after.len() <= pools.len() + logs.len()
            &&& after.take(pools.len() as int) == pools
            &&& unique_addresses(pools) ==> unique_addresses(after)
            &&& unique_ids(pools) ==> unique_ids(after)
            &&& max_id(after) == max_id(pools) + (after.len() - pools.len())
            &&& forall|i: int|
                pools.len() <= i < after.len() ==> (#[trigger] after[i]).id == max_id(pools) + 1 + (
                i - pools.len())
        }),
    decreases logs.len(),
{
    if logs.len() == 0 {
        assert(pools.take(pools.len() as int) =~= pools);
    } else {
        let before = absorb(pools, logs.drop_last()).unwrap();
        let after = absorb(pools, logs).unwrap();
        lemma_absorb_extends(pools, logs.drop_last());
        lemma_absorb_log(before, logs.last());
        assert(after.take(pools.len() as int) =~= before.take(pools.len() as int)) by {
            assert(after.take(before.len() as int) == before);
            assert(after.take(before.len() as int).take(pools.len() as int) =~= after.take(
                pools.len() as int,
            ));
        }
        assert forall|i: int| pools.len() <= i < after.len() implies (#[trigger] after[i]).id
            == max_id(pools) + 1 + (i - pools.len()) by {
            if i < before.len() {
                assert(after.take(before.len() as int)[i] == after[i]);
            }
        }
    }
}

/// Every pool that the logs add trades two different tokens.
pub proof fn lemma_absorb_wf(pools: Seq<Pool>, logs: Seq<RawLog>)
    requires
        absorb(pools, logs) is Some,
    ensures
        forall|i: int|
            pools.len() <= i < absorb(pools, logs).unwrap().len() ==> (#[trigger] absorb(
                pools,
                logs,
            ).unwrap()[i]).wf(),
    decreases logs.len(),
{
    if logs.len() > 0 {
        let before = absorb(pools, logs.drop_last()).unwrap();
        let after = absorb(pools, logs).unwrap();
        lemma_absorb_wf(pools, logs.drop_last());
        lemma_absorb_extends(pools, logs.drop_last());
        lemma_absorb_log(before, logs.last());
        assert forall|i: int| pools.len() <= i < after.len() implies (#[trigger] after[i]).wf() by {
            if i < before.len() {
                assert(after.take(before.len() as int)[i] == after[i]);
            }
        }
    }
}

/// Exactly the addresses that were known or that some log announces are known
/// after the logs.
pub proof fn lemma_absorb_addresses(pools: Seq<Pool>, logs: Seq<RawLog>, address: Address)
    requires
        absorb(pools, logs) is Some,
    ensures
        has_address(absorb(pools, logs).unwrap(), address) == (has_address(pools, address)
            || announces(logs, address)),
    decreases logs.len(),
{
    if logs.len() > 0 {
        let front = logs.drop_last();
        let before = absorb(pools, front).unwrap();
        let after = absorb(pools, logs).unwrap();
        lemma_absorb_addresses(pools, front, address);
        lemma_absorb_log(before, logs.last());
        if announces(front, address) {
            let k = choose|k: int|
                0 <= k < front.len() && #[trigger] log_announces(front[k], address);
            assert(logs[k] == front[k]);
            assert(log_announces(logs[k], address));
        }
        if announces(logs, address) && !announces(front, address) {
            let k = choose|k: int|
                0 <= k < logs.len() && #[trigger] log_announces(logs[k], address);
            if k < front.len() {
                assert(front[k] == logs[k]);
                assert(log_announces(front[k], address));
            }
            assert(k == logs.len() - 1);
        }
        if has_address(after, address) && !has_address(before, address) {
            let i = choose|i: int| 0 <= i < after.len() && (#[trigger] after[i]).address == address;
            if i < before.len() {
                assert(after.take(before.len() as int)[i] == after[i]);
            }
            assert(i == before.len());
            assert(log_announces(logs[logs.len() - 1], address));
        }
    }
}

/// Every pool that the logs add is what one of the logs announces.
pub proof fn lemma_absorb_origin(pools: Seq<Pool>, logs: Seq<RawLog>, i: int)
    requires
        absorb(pools, logs) is Some,
        pools.len() <= i < absorb(pools, logs).unwrap().len(),
    ensures
        announced_by(logs, absorb(pools, logs).unwrap()[i]),
    decreases logs.len(),
{
    if logs.len() > 0 {
        let front = logs.drop_last();
        let before = absorb(pools, front).unwrap();
        let after = absorb(pools, logs).unwrap();
        lemma_absorb_extends(pools, front);
        lemma_absorb_log(before, logs.last());
        if i < before.len() {
            lemma_absorb_origin(pools, front, i);
            assert(after.take(before.len() as int)[i] == after[i]);
            let k = choose|k: int|
                0 <= k < front.len() && #[trigger] log_gives(front[k], before[i]);
            assert(logs[k] == front[k]);
            assert(log_gives(logs[k], after[i]));
        } else {
            assert(log_gives(logs[logs.len() - 1], after[i]));
        }
    }
}

/// Logs taken in two parts do what they do taken as one.
pub proof fn lemma_absorb_concat(pools: Seq<Pool>, first: Seq<RawLog>, second: Seq<RawLog>)
    ensures
        absorb(pools, first + second) == match absorb(pools, first) {
            Some(mid) => absorb(mid, second),
            None => None,
        },
    decreases second.len(),
{
    if second.len() == 0 {
        assert(first + second =~= first);
    } else {
        lemma_absorb_concat(pools, first, second.drop_last());
        assert((first + second).drop_last() =~= first + second.drop_last());
        assert((first + second).last() == second.last());
    }
}

/// Logs that announce only known addresses add nothing.
pub proof fn lemma_absorb_known(pools: Seq<Pool>, logs: Seq<RawLog>)
    requires
        forall|k: int|
            0 <= k < logs.len() ==> ((#[trigger] creation_candidate(logs[k])) matches Some(c)
                ==> has_address(pools, c.address)),
    ensures
        absorb(pools, logs) == Some(pools),
    decreases logs.len(),
{
    if logs.len() > 0 {
        let front = logs.drop_last();
        assert forall|k: int| 0 <= k < front.len() implies ((#[trigger] creation_candidate(
            front[k],
        )) matches Some(c) ==> has_address(pools, c.address)) by {
            assert(front[k] == logs[k]);
        }
        lemma_absorb_known(pools, front);
        assert(creation_candidate(logs[logs.len() - 1]) matches Some(c) ==> has_address(
            pools,
            c.address,
        ));
    }
}

/// Taking the same logs a second time adds nothing: whatever they announce
/// is known after the first time.
pub proof fn lemma_absorb_again(pools: Seq<Pool>, logs: Seq<RawLog>)
    requires
        absorb(pools, logs) is Some,
    ensures
        absorb(absorb(pools, logs).unwrap(), logs) == absorb(pools, logs),
{
    let after = absorb(pools, logs).unwrap();
    assert forall|k: int| 0 <= k < logs.len() implies ((#[trigger] creation_candidate(
        logs[k],
    )) matches Some(c) ==> has_address(after, c.address)) by {
        if let Some(c) = creation_candidate(logs[k]) {
            assert(log_announces(logs[k], c.address));
            lemma_absorb_addresses(pools, logs, c.address);
        }
    }
    lemma_absorb_known(after, logs);
}

/// Whether some pool in the list has the address.
fn list_has_address(pools: &Vec<Pool>, address: Address) -> (found: bool)
    ensures
        found == has_address(pools@, address),
{
    let mut i: usize = 0;
    while i < pools.len()
        invariant
            i <= pools@.len(),
            forall|k: int| 0 <= k < i ==> (#[trigger] pools@[k]).address != address,
        decreases pools.len() - i,
    {
        if pools[i].address == address {
            return true;
        }
        i = i + 1;
    }
    false
}

/// The pools that the logs add to a registry, in order and with their ids;
/// `None` where the ids run out.
pub fn accept_logs(registry: &Registry, logs: &Vec<RawLog>) -> (r: Option<Vec<Pool>>)
    ensures
        match absorb(registry@, logs@) {
            Some(all) => r matches Some(added) && registry@ + added@ == all,
            None => r is None,
        },
{
    let mut added: Vec<Pool> = Vec::new();
    let mut top: i64 = registry.max_id();
    let mut i: usize = 0;
    proof {
        assert(registry@ + added@ =~= registry@);
        assert(logs@.take(0) =~= Seq::<RawLog>::empty());
    }
    while i < logs.len()
        invariant
            i <= logs@.len(),
            absorb(registry@, logs@.take(i as int)) == Some(registry@ + added@),
            top == max_id(registry@ + added@),
        decreases logs.len() - i,
    {
        let ghost before = registry@ + added@;
        proof {
            assert(logs@.take(i as int + 1).drop_last() =~= logs@.take(i as int));
            assert(logs@.take(i as int + 1).last() == logs@[i as int]);
        }
        match decode_creation_log(&logs[i]) {
            Some(c) => {
                proof {
                    lemma_has_address_concat(registry@, added@, c.address);
                }
                if !registry.contains_address(c.address) && !list_has_address(&added, c.address) {
                    if top == i64::MAX {
                        proof {
                            assert(absorb(registry@, logs@.take(i as int + 1)) is None);
                            lemma_absorb_concat(
                                registry@,
                                logs@.take(i as int + 1),
                                logs@.skip(i as int + 1),
                            );
                            assert(logs@.take(i as int + 1) + logs@.skip(i as int + 1) =~= logs@);
                        }
                        return None;
                    }
                    top = top + 1;
                    let p = Pool {
                        id: top,
                        address: c.address,
                        version: c.version,
                        token0: c.token0,
                        token1: c.token1,
                        fee: c.fee,
                        block_number: c.block_number,
                        timestamp: c.timestamp,
                    };
                    added.push(p);
                    proof {
                        assert(registry@ + added@ =~= before.push(p));
                        assert(before.push(p).drop_last() =~= before);
                        lemma_max_id_bounds(before);
                    }
                }
            },
            None => {},
        }
        i = i + 1;
    }
    proof {
        assert(logs@.take(i as int) =~= logs@);
    }
    Some(added)
}

} // verus!
