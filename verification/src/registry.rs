//! The in-memory index over the pools that are known.
//!
//! A registry holds pools in the order in which they were discovered and
//! never holds two pools with the same address. Beside the pools it keeps an
//! index that finds a pool by its address without going through all of them.

use crate::address::Address;
use crate::pool::{DexVariant, Pool};
use std::collections::{HashMap, HashSet};
use vstd::prelude::*;

verus! {

/// Why a pool was not taken into a registry.
#[derive(Debug, Clone, Copy, PartialEq, Eq)]
pub enum RegistryError {
    /// A pool with this address is already there.
    DuplicateAddress(Address),
}

/// Whether some pool of `pools` has the address.
pub open spec fn has_address(pools: Seq<Pool>, address: Address) -> bool {
    exists|i: int| 0 <= i < pools.len() && (#[trigger] pools[i]).address == address
}

/// No two pools have the same address.
pub open spec fn unique_addresses(pools: Seq<Pool>) -> bool {
    forall|i: int, j: int|
        0 <= i < j < pools.len() ==> (#[trigger] pools[i]).address != (#[trigger] pools[j]).address
}

/// No two pools have the same id.
pub open spec fn unique_ids(pools: Seq<Pool>) -> bool {
    forall|i: int, j: int|
        0 <= i < j < pools.len() ==> (#[trigger] pools[i]).id != (#[trigger] pools[j]).id
}

/// The highest id among the pools, and zero where none is above it.
pub open spec fn max_id(pools: Seq<Pool>) -> int
    decreases pools.len(),
{
    if pools.len() == 0 {
        0
    } else if pools.last().id > max_id(pools.drop_last()) {
        pools.last().id as int
    } else {
        max_id(pools.drop_last())
    }
}

/// The highest block number among the pools; `None` where there is no pool.
pub open spec fn max_block(pools: Seq<Pool>) -> Option<u64>
    decreases pools.len(),
{
    if pools.len() == 0 {
        None
    } else {
        match max_block(pools.drop_last()) {
            Some(m) => if pools.last().block_number > m {
                Some(pools.last().block_number)
            } else {
                Some(m)
            },
            None => Some(pools.last().block_number),
        }
    }
}

/// The first block that still has to be scanned: the one after the highest
/// block of a known pool, or `genesis` where no pool is known.
pub open spec fn resume_from(pools: Seq<Pool>, genesis: u64) -> int {
    match max_block(pools) {
        Some(m) => m + 1,
        None => genesis as int,
    }
}

/// The pools that trade the unordered pair of tokens, in registry order.
pub open spec fn pools_trading(pools: Seq<Pool>, token_a: Address, token_b: Address) -> Seq<Pool> {
    pools.filter(|p: Pool| p.spec_trades(token_a, token_b))
}

/// How many pools are of the variant.
pub open spec fn count_of(pools: Seq<Pool>, variant: DexVariant) -> nat {
    pools.filter(|p: Pool| p.version == variant).len()
}

/// Whether some pool of `pools` has the id.
pub open spec fn has_id(pools: Seq<Pool>, id: i64) -> bool {
    exists|i: int| 0 <= i < pools.len() && (#[trigger] pools[i]).id == id
}

/// Whether the pool at `j` is the first whose address an earlier pool has.
pub open spec fn first_repeat(pools: Seq<Pool>, j: int) -> bool {
    0 <= j < pools.len() && unique_addresses(pools.take(j)) && has_address(
        pools.take(j),
        pools[j].address,
    )
}

/// The pool with the address, where one of the pools has it. Among pools
/// with unique addresses there is at most one.
pub open spec fn pool_at(pools: Seq<Pool>, address: Address) -> Option<Pool> {
    if has_address(pools, address) {
        Some(pools[choose|i: int| 0 <= i < pools.len() && (#[trigger] pools[i]).address == address])
    } else {
        None
    }
}

/// The number under which the index files an address: its last eight bytes.
/// Addresses that differ only before them get the same number and are told
/// apart when looked up.
spec fn key_of(address: Address) -> u64 {
    let b = address.bytes;
    (b[12] as u64) << 56 | (b[13] as u64) << 48 | (b[14] as u64) << 40 | (b[15] as u64) << 32 | (
    b[16] as u64) << 24 | (b[17] as u64) << 16 | (b[18] as u64) << 8 | (b[19] as u64)
}

/// The number under which the index files an address.
fn address_key(address: &Address) -> (key: u64)
    ensures
        key == key_of(*address),
{
    let b = &address.bytes;
    (b[12] as u64) << 56 | (b[13] as u64) << 48 | (b[14] as u64) << 40 | (b[15] as u64) << 32 | (
    b[16] as u64) << 24 | (b[17] as u64) << 16 | (b[18] as u64) << 8 | (b[19] as u64)
}

/// The pools and, for every key, the positions of the pools filed under it.
struct Index {
    pools: Vec<Pool>,
    buckets: HashMap<u64, Vec<usize>>,
}

/// The position `i` is filed under the key of the pool at `i`.
spec fn slot_filed(pools: Seq<Pool>, buckets: Map<u64, Vec<usize>>, i: int) -> bool {
    buckets.contains_key(key_of(pools[i].address)) && buckets[key_of(pools[i].address)]@.contains(
        i as usize,
    )
}

/// What is filed under `key` at `j` is the position of a pool.
spec fn entry_valid(pools: Seq<Pool>, buckets: Map<u64, Vec<usize>>, key: u64, j: int) -> bool {
    buckets[key]@[j] < pools.len()
}

/// Every pool is filed under its key, and nothing is filed but pools.
spec fn filed(pools: Seq<Pool>, buckets: Map<u64, Vec<usize>>) -> bool {
    &&& forall|i: int| 0 <= i < pools.len() ==> #[trigger] slot_filed(pools, buckets, i)
    &&& forall|key: u64, j: int|
        buckets.contains_key(key) && 0 <= j < buckets[key]@.len() ==> #[trigger] entry_valid(
            pools,
            buckets,
            key,
            j,
        )
}

impl Index {
    fn new() -> (index: Index)
        ensures
            index.pools@ == Seq::<Pool>::empty(),
            filed(index.pools@, index.buckets@),
    {
        Index { pools: Vec::new(), buckets: HashMap::new() }
    }

    /// Adds a pool behind the others and files it.
    fn push(&mut self, pool: Pool)
        requires
            filed(old(self).pools@, old(self).buckets@),
        ensures
            final(self).pools@ == old(self).pools@.push(pool),
            filed(final(self).pools@, final(self).buckets@),
    {
        broadcast use vstd::std_specs::hash::group_hash_axioms;

        let key = address_key(&pool.address);
        let position = self.pools.len();
        self.pools.push(pool);
        let mut bucket = match self.buckets.remove(&key) {
            Some(bucket) => bucket,
            None => Vec::new(),
        };
        let ghost before = bucket@;
        bucket.push(position);
        self.buckets.insert(key, bucket);
        proof {
            let pools = self.pools@;
            let buckets = self.buckets@;
            let old_pools = old(self).pools@;
            let old_buckets = old(self).buckets@;
            assert(buckets[key]@ == before.push(position));
            assert forall|i: int| 0 <= i < pools.len() implies #[trigger] slot_filed(
                pools,
                buckets,
                i,
            ) by {
                if i < old_pools.len() {
                    assert(slot_filed(old_pools, old_buckets, i));
                    assert(pools[i] == old_pools[i]);
                    let k = key_of(pools[i].address);
                    if k == key {
                        let j = choose|j: int|
                            0 <= j < before.len() && before[j] == i as usize;
                        assert(buckets[key]@[j] == i as usize);
                    }
                } else {
                    assert(buckets[key]@[before.len() as int] == position);
                }
            }
            assert forall|k: u64, j: int|
                buckets.contains_key(k) && 0 <= j < buckets[k]@.len() implies #[trigger] entry_valid(
                pools,
                buckets,
                k,
                j,
            ) by {
                if k == key {
                    if j < before.len() {
                        assert(entry_valid(old_pools, old_buckets, key, j));
                    }
                } else {
                    assert(entry_valid(old_pools, old_buckets, k, j));
                }
            }
        }
    }

    /// The position of the pool with the address, if there is one.
    fn position(&self, address: Address) -> (found: Option<usize>)
        requires
            filed(self.pools@, self.buckets@),
        ensures
            match found {
                Some(p) => p < self.pools@.len() && self.pools@[p as int].address == address,
                None => !has_address(self.pools@, address),
            },
    {
        broadcast use vstd::std_specs::hash::group_hash_axioms;

        let key = address_key(&address);
        match self.buckets.get(&key) {
            None => {
                assert forall|i: int| 0 <= i < self.pools@.len() implies (
                #[trigger] self.pools@[i]).address != address by {
                    assert(slot_filed(self.pools@, self.buckets@, i));
                }
                None
            },
            Some(bucket) => {
                let mut j: usize = 0;
                assert(self.pools@.len() == self.pools.len());
                while j < bucket.len()
                    invariant
                        j <= bucket@.len(),
                        self.pools@.len() <= usize::MAX,
                        self.buckets@.contains_key(key),
                        bucket@ == self.buckets@[key]@,
                        key == key_of(address),
                        filed(self.pools@, self.buckets@),
                        forall|t: int|
                            0 <= t < j ==> self.pools@[(#[trigger] bucket@[t]) as int].address
                                != address,
                    decreases bucket.len() - j,
                {
                    let p = bucket[j];
                    assert(entry_valid(self.pools@, self.buckets@, key, j as int));
                    if self.pools[p].address == address {
                        return Some(p);
                    }
                    j = j + 1;
                }
                assert forall|i: int| 0 <= i < self.pools@.len() implies (
                #[trigger] self.pools@[i]).address != address by {
                    assert(slot_filed(self.pools@, self.buckets@, i));
                    if self.pools@[i].address == address {
                        let t = choose|t: int| 0 <= t < bucket@.len() && bucket@[t] == i as usize;
                        assert(self.pools@[bucket@[t] as int].address != address);
                    }
                }
                None
            },
        }
    }
}

/// The pools that are known, in the order of their discovery.
pub struct Registry {
    index: Index,
}

impl View for Registry {
    type V = Seq<Pool>;

    closed spec fn view(&self) -> Seq<Pool> {
        self.index.pools@
    }
}

impl Registry {
    /// Every pool is filed in the index, and nothing but pools is.
    pub closed spec fn indexed(self) -> bool {
        filed(self.index.pools@, self.index.buckets@)
    }

    /// What holds of every registry: no two pools share an address, and the
    /// index is in order.
    #[verifier::type_invariant]
    pub open spec fn inv(self) -> bool {
        unique_addresses(self@) && self.indexed()
    }

    /// A registry without pools.
    pub fn new() -> (r: Registry)
        ensures
            r@ == Seq::<Pool>::empty(),
    {
        Registry { index: Index::new() }
    }

    /// How many pools are known.
    pub fn len(&self) -> (n: usize)
        ensures
            n == self@.len(),
    {
        self.index.pools.len()
    }

    /// The pool at a position, in order of discovery.
    pub fn get(&self, index: usize) -> (p: Option<Pool>)
        ensures
            p == if index < self@.len() {
                Some(self@[index as int])
            } else {
                None
            },
    {
        if index < self.index.pools.len() {
            Some(self.index.pools[index])
        } else {
            None
        }
    }

    /// All pools, in order of discovery. No two of them share an address.
    pub fn pools(&self) -> (all: &Vec<Pool>)
        ensures
            all@ == self@,
            unique_addresses(self@),
    {
        proof {
            use_type_invariant(self);
        }
        &self.index.pools
    }

    /// Whether a pool with the address is known.
    pub fn contains_address(&self, address: Address) -> (found: bool)
        ensures
            found == has_address(self@, address),
    {
        proof {
            use_type_invariant(self);
        }
        self.index.position(address).is_some()
    }

    /// The pool with the address, if it is known.
    pub fn get_by_address(&self, address: Address) -> (p: Option<Pool>)
        ensures
            p == pool_at(self@, address),
    {
        proof {
            use_type_invariant(self);
        }
        match self.index.position(address) {
            Some(at) => {
                proof {
                    let k = choose|k: int|
                        0 <= k < self@.len() && (#[trigger] self@[k]).address == address;
                    assert(k == at);
                }
                Some(self.index.pools[at])
            },
            None => None,
        }
    }

    /// Takes a pool in, unless its address is known already.
    pub fn insert(&mut self, pool: Pool) -> (r: Result<(), RegistryError>)
        ensures
            match r {
                Ok(()) => !has_address(old(self)@, pool.address) && final(self)@ == old(self)@.push(
                    pool,
                ),
                Err(e) => e == RegistryError::DuplicateAddress(pool.address) && has_address(
                    old(self)@,
                    pool.address,
                ) && final(self)@ == old(self)@,
            },
    {
        if self.contains_address(pool.address) {
            return Err(RegistryError::DuplicateAddress(pool.address));
        }
        proof {
            use_type_invariant(&*self);
        }
        // The index is taken out to be changed and put back whole.
        let mut index = Index::new();
        std::mem::swap(&mut self.index, &mut index);
        index.push(pool);
        std::mem::swap(&mut self.index, &mut index);
        Ok(())
    }

    /// Takes in pools of which it is known that they bring no address twice.
    pub(crate) fn extend_unique(&mut self, more: &Vec<Pool>)
        requires
            unique_addresses(old(self)@ + more@),
        ensures
            final(self)@ == old(self)@ + more@,
            final(self)@.len() <= usize::MAX,
    {
        proof {
            use_type_invariant(&*self);
        }
        let mut index = Index::new();
        std::mem::swap(&mut self.index, &mut index);
        let ghost before = index.pools@;
        let mut i: usize = 0;
        while i < more.len()
            invariant
                i <= more@.len(),
                index.pools@ == before + more@.take(i as int),
                filed(index.pools@, index.buckets@),
            decreases more.len() - i,
        {
            index.push(more[i]);
            assert(index.pools@ =~= before + more@.take(i as int + 1));
            i = i + 1;
        }
        assert(more@.take(i as int) =~= more@);
        assert(index.pools@.len() == index.pools.len());
        std::mem::swap(&mut self.index, &mut index);
    }

    /// The registry of the given pools, unless two of them share an address:
    /// then the address of the first pool that repeats an earlier one is named.
    pub fn from_pools(pools: &Vec<Pool>) -> (r: Result<Registry, RegistryError>)
        ensures
            match r {
                Ok(registry) => registry@ == pools@ && unique_addresses(pools@),
                Err(RegistryError::DuplicateAddress(a)) => exists|j: int|
                    0 <= j < pools@.len() && #[trigger] first_repeat(pools@, j) && pools@[j].address
                        == a,
            },
    {
        let mut registry = Registry::new();
        let mut i: usize = 0;
        while i < pools.len()
            invariant
                i <= pools@.len(),
                registry@ == pools@.take(i as int),
            decreases pools.len() - i,
        {
            proof {
                use_type_invariant(&registry);
            }
            match registry.insert(pools[i]) {
                Ok(()) => {},
                Err(e) => {
                    assert(first_repeat(pools@, i as int));
                    return Err(e);
                },
            }
            assert(registry@ =~= pools@.take(i as int + 1));
            i = i + 1;
        }
        proof {
            assert(pools@.take(i as int) =~= pools@);
            use_type_invariant(&registry);
        }
        Ok(registry)
    }

    /// The pools that trade the two tokens, whichever is named first.
    pub fn find_pools(&self, token_a: Address, token_b: Address) -> (found: Vec<Pool>)
        ensures
            found@ == pools_trading(self@, token_a, token_b),
    {
        let mut found: Vec<Pool> = Vec::new();
        let mut i: usize = 0;
        proof {
            lemma_filter_take_none(self@, |p: Pool| p.spec_trades(token_a, token_b));
        }
        while i < self.index.pools.len()
            invariant
                i <= self.index.pools@.len(),
                self.index.pools@ == self@,
                found@ == pools_trading(self@.take(i as int), token_a, token_b),
            decreases self.index.pools.len() - i,
        {
            proof {
                lemma_filter_take_step(
                    self@,
                    |p: Pool| p.spec_trades(token_a, token_b),
                    i as int,
                );
            }
            if self.index.pools[i].trades(token_a, token_b) {
                found.push(self.index.pools[i]);
            }
            i = i + 1;
        }
        assert(self@.take(i as int) =~= self@);
        found
    }

    /// How many pools are of a variant.
    pub fn count_variant(&self, variant: DexVariant) -> (n: usize)
        ensures
            n == count_of(self@, variant),
    {
        let mut n: usize = 0;
        let mut i: usize = 0;
        proof {
            lemma_filter_take_none(self@, |p: Pool| p.version == variant);
        }
        while i < self.index.pools.len()
            invariant
                i <= self.index.pools@.len(),
                self.index.pools@ == self@,
                n == count_of(self@.take(i as int), variant),
                n <= i,
            decreases self.index.pools.len() - i,
        {
            proof {
                lemma_filter_take_step(self@, |p: Pool| p.version == variant, i as int);
            }
            if self.index.pools[i].version == variant {
                n = n + 1;
            }
            i = i + 1;
        }
        assert(self@.take(i as int) =~= self@);
        n
    }

    /// Every variant with the number of pools of it.
    pub fn count_by_variant(&self) -> (counts: Vec<(DexVariant, usize)>)
        ensures
            counts@ == seq![
                (DexVariant::UniswapV2, count_of(self@, DexVariant::UniswapV2) as usize),
            ],
    {
        let mut counts: Vec<(DexVariant, usize)> = Vec::new();
        counts.push((DexVariant::UniswapV2, self.count_variant(DexVariant::UniswapV2)));
        assert(counts@ =~= seq![
            (DexVariant::UniswapV2, count_of(self@, DexVariant::UniswapV2) as usize),
        ]);
        counts
    }

    /// Whether no two pools have the same id. A registry does not hold
    /// that by itself: pools that a scan adds get fresh ids, pools that
    /// are loaded or put in bring their own.
    pub fn has_unique_ids(&self) -> (unique: bool)
        ensures
            unique == unique_ids(self@),
    {
        broadcast use vstd::std_specs::hash::group_hash_axioms;

        let mut seen: HashSet<i64> = HashSet::new();
        let mut i: usize = 0;
        while i < self.index.pools.len()
            invariant
                i <= self.index.pools@.len(),
                self.index.pools@ == self@,
                unique_ids(self@.take(i as int)),
                forall|id: i64| seen@.contains(id) <==> has_id(self@.take(i as int), id),
            decreases self.index.pools.len() - i,
        {
            let ghost before = self@.take(i as int);
            let ghost after = self@.take(i as int + 1);
            let id = self.index.pools[i].id;
            let fresh = seen.insert(id);
            proof {
                assert(after.drop_last() =~= before);
                assert(after[i as int].id == id);
                assert forall|k: int| 0 <= k < i implies after[k] == before[k] by {}
            }
            if !fresh {
                proof {
                    let k = choose|k: int| 0 <= k < before.len() && (#[trigger] before[k]).id == id;
                    assert(self@[k].id == self@[i as int].id);
                }
                return false;
            }
            proof {
                assert forall|other: i64| seen@.contains(other) <==> has_id(after, other) by {
                    if has_id(before, other) {
                        let k = choose|k: int|
                            0 <= k < before.len() && (#[trigger] before[k]).id == other;
                        assert(after[k].id == other);
                    }
                    if has_id(after, other) && other != id {
                        let k = choose|k: int|
                            0 <= k < after.len() && (#[trigger] after[k]).id == other;
                        assert(before[k].id == other);
                    }
                }
                assert forall|a: int, b: int| 0 <= a < b < after.len() implies (
                #[trigger] after[a]).id != (#[trigger] after[b]).id by {
                    if b == i {
                        if after[a].id == id {
                            assert(before[a].id == id);
                        }
                    } else {
                        assert(before[a].id != before[b].id);
                    }
                }
            }
            i = i + 1;
        }
        assert(self@.take(i as int) =~= self@);
        true
    }

    /// The highest id in use, zero where none is above it.
    pub fn max_id(&self) -> (id: i64)
        ensures
            id == max_id(self@),
    {
        let mut id: i64 = 0;
        let mut i: usize = 0;
        while i < self.index.pools.len()
            invariant
                i <= self.index.pools@.len(),
                self.index.pools@ == self@,
                id == max_id(self@.take(i as int)),
            decreases self.index.pools.len() - i,
        {
            assert(self@.take(i as int + 1).drop_last() =~= self@.take(i as int));
            if self.index.pools[i].id > id {
                id = self.index.pools[i].id;
            }
            i = i + 1;
        }
        assert(self@.take(i as int) =~= self@);
        id
    }

    /// The highest block in which a known pool was created.
    pub fn watermark(&self) -> (block: Option<u64>)
        ensures
            block == max_block(self@),
    {
        let mut block: Option<u64> = None;
        let mut i: usize = 0;
        while i < self.index.pools.len()
            invariant
                i <= self.index.pools@.len(),
                self.index.pools@ == self@,
                block == max_block(self@.take(i as int)),
            decreases self.index.pools.len() - i,
        {
            assert(self@.take(i as int + 1).drop_last() =~= self@.take(i as int));
            let here = self.index.pools[i].block_number;
            block = match block {
                Some(m) => if here > m {
                    Some(here)
                } else {
                    Some(m)
                },
                None => Some(here),
            };
            i = i + 1;
        }
        assert(self@.take(i as int) =~= self@);
        block
    }

    /// The block at which scanning goes on: the one after the watermark, or
    /// `genesis` for an empty registry. `None` where the watermark is the
    /// last block that a number can name.
    pub fn resume_block(&self, genesis: u64) -> (from: Option<u64>)
        ensures
            from == if resume_from(self@, genesis) <= u64::MAX {
                Some(resume_from(self@, genesis) as u64)
            } else {
                None
            },
    {
        match self.watermark() {
            Some(m) => m.checked_add(1),
            None => Some(genesis),
        }
    }
}

/// Pools in which one repeats the address of an earlier one do not have
/// unique addresses, and only one pool is the first to repeat.
pub proof fn lemma_first_repeat(pools: Seq<Pool>, j: int, k: int)
    requires
        first_repeat(pools, j),
    ensures
        !unique_addresses(pools),
        first_repeat(pools, k) ==> k == j,
{
    let i = choose|i: int| 0 <= i < j && (#[trigger] pools.take(j)[i]).address == pools[j].address;
    assert(pools[i].address == pools[j].address);
    if first_repeat(pools, k) && k != j {
        let h = choose|h: int|
            0 <= h < k && (#[trigger] pools.take(k)[h]).address == pools[k].address;
        if k < j {
            assert(pools.take(j)[h] == pools[h]);
            assert(pools.take(j)[k] == pools[k]);
        } else {
            assert(pools.take(k)[i] == pools[i]);
            assert(pools.take(k)[j] == pools[j]);
        }
    }
}

/// Filtering nothing gives nothing.
pub proof fn lemma_filter_take_none<A>(s: Seq<A>, f: spec_fn(A) -> bool)
    ensures
        s.take(0).filter(f) == Seq::<A>::empty(),
{
    reveal(Seq::filter);
    assert(s.take(0).filter(f) =~= Seq::<A>::empty());
}

/// Filtering one item more keeps the item or not, after what was kept before.
pub proof fn lemma_filter_take_step<A>(s: Seq<A>, f: spec_fn(A) -> bool, i: int)
    requires
        0 <= i < s.len(),
    ensures
        s.take(i + 1).filter(f) == if f(s[i]) {
            s.take(i).filter(f).push(s[i])
        } else {
            s.take(i).filter(f)
        },
{
    reveal(Seq::filter);
    assert(s.take(i + 1).drop_last() =~= s.take(i));
}

/// Which token is named first does not change which pools are found.
pub proof fn lemma_find_pools_symmetric(pools: Seq<Pool>, token_a: Address, token_b: Address)
    ensures
        pools_trading(pools, token_a, token_b) == pools_trading(pools, token_b, token_a),
{
    let f = |p: Pool| p.spec_trades(token_a, token_b);
    let g = |p: Pool| p.spec_trades(token_b, token_a);
    assert(f =~= g);
}

/// Every pool that is found is in the registry and trades the pair, and
/// every pool of the registry that trades the pair is found.
pub proof fn lemma_find_pools_exact(pools: Seq<Pool>, token_a: Address, token_b: Address)
    ensures
        forall|p: Pool| #[trigger]
            pools_trading(pools, token_a, token_b).contains(p) <==> pools.contains(p)
                && p.spec_trades(token_a, token_b),
{
    let f = |p: Pool| p.spec_trades(token_a, token_b);
    assert forall|p: Pool| #[trigger]
        pools_trading(pools, token_a, token_b).contains(p) <==> pools.contains(p) && p.spec_trades(
            token_a,
            token_b,
        ) by {
        if pools.contains(p) && f(p) {
            let i = choose|i: int| 0 <= i < pools.len() && pools[i] == p;
            pools.lemma_filter_contains(f, i);
        }
        if pools.filter(f).contains(p) {
            let i = choose|i: int| 0 <= i < pools.filter(f).len() && pools.filter(f)[i] == p;
            pools.lemma_filter_pred(f, i);
            pools.lemma_filter_contains_rev(f, p);
        }
    }
}

/// No id of a pool is above the highest id.
pub proof fn lemma_max_id_bounds(pools: Seq<Pool>)
    ensures
        max_id(pools) >= 0,
        forall|i: int| 0 <= i < pools.len() ==> (#[trigger] pools[i]).id <= max_id(pools),
    decreases pools.len(),
{
    if pools.len() > 0 {
        lemma_max_id_bounds(pools.drop_last());
        assert forall|i: int| 0 <= i < pools.len() implies (#[trigger] pools[i]).id <= max_id(
            pools,
        ) by {
            if i < pools.len() - 1 {
                assert(pools.drop_last()[i] == pools[i]);
            }
        }
    }
}

/// No pool was created after the watermark, and some pool at it.
pub proof fn lemma_max_block_bounds(pools: Seq<Pool>)
    ensures
        pools.len() == 0 <==> max_block(pools) is None,
        forall|i: int|
            0 <= i < pools.len() ==> (#[trigger] pools[i]).block_number <= max_block(
                pools,
            ).unwrap(),
        pools.len() > 0 ==> exists|i: int|
            0 <= i < pools.len() && (#[trigger] pools[i]).block_number == max_block(pools).unwrap(),
    decreases pools.len(),
{
    if pools.len() > 0 {
        let front = pools.drop_last();
        lemma_max_block_bounds(front);
        assert forall|i: int| 0 <= i < pools.len() implies (#[trigger] pools[i]).block_number
            <= max_block(pools).unwrap() by {
            if i < pools.len() - 1 {
                assert(front[i] == pools[i]);
            }
        }
        if max_block(pools) == Some(pools.last().block_number) {
            assert(pools[pools.len() - 1].block_number == max_block(pools).unwrap());
        } else {
            let i = choose|i: int|
                0 <= i < front.len() && (#[trigger] front[i]).block_number == max_block(
                    front,
                ).unwrap();
            assert(pools[i] == front[i]);
        }
    }
}

} // verus!
