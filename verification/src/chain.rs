//! What the chain event source is asked for and what it hands out.
//!
//! The source itself lives outside this library. It is asked with a
//! `LogQuery` and answers with `RawLog`s, which this module reads.

use crate::address::{lemma_address_ext, Address};
use crate::pool::{DexVariant, Pool};
use vstd::prelude::*;

verus! {

/// Signature of the event that a factory emits when it creates a pair.
pub const PAIR_CREATED_EVENT: &'static str = "PairCreated(address,address,address,uint256)";

/// Signature of the event that a pair emits on a trade.
pub const SWAP_EVENT: &'static str = "Swap(address,uint256,uint256,uint256,uint256,address)";

/// A log as the source hands it out. `block_number` and `timestamp` are those
/// of the block that holds the log.
#[derive(Debug, Clone, PartialEq, Eq)]
pub struct RawLog {
    pub address: Address,
    pub topics: Vec<[u8; 32]>,
    pub data: Vec<u8>,
    pub block_number: u64,
    pub timestamp: u64,
}

/// A request for the logs of one event in a range of blocks, both ends included.
#[derive(Debug, Clone, Copy, PartialEq, Eq)]
pub struct LogQuery {
    pub from_block: u64,
    pub to_block: u64,
    pub event: &'static str,
}

/// The request for the pair creations in a range of blocks.
pub fn creation_query(from_block: u64, to_block: u64) -> (q: LogQuery)
    ensures
        q.from_block == from_block,
        q.to_block == to_block,
        q.event@ == PAIR_CREATED_EVENT@,
{
    LogQuery { from_block, to_block, event: PAIR_CREATED_EVENT }
}

/// The request for the trades of exactly one block.
pub fn swap_query(block_number: u64) -> (q: LogQuery)
    ensures
        q.from_block == block_number,
        q.to_block == block_number,
        q.event@ == SWAP_EVENT@,
{
    LogQuery { from_block: block_number, to_block: block_number, event: SWAP_EVENT }
}

/// The address in a 32-byte word: its last twenty bytes.
pub open spec fn word_address(word: Seq<u8>) -> Address {
    Address::from_seq(word.subrange(12, 32))
}

/// The pool that a pair-creation log announces, with id zero: the two tokens
/// are the second and third topic, the pool's address is the first word of
/// the data, which is two words long. `None` where topics or data are too
/// short, or where the two tokens are the same.
pub open spec fn creation_candidate(log: RawLog) -> Option<Pool> {
    if log.topics@.len() >= 3 && log.data@.len() >= 64 && word_address(log.topics@[1]@)
        != word_address(log.topics@[2]@) {
        Some(
            Pool {
                id: 0,
                address: word_address(log.data@.subrange(0, 32)),
                version: DexVariant::UniswapV2,
                token0: word_address(log.topics@[1]@),
                token1: word_address(log.topics@[2]@),
                fee: 0,
                block_number: log.block_number,
                timestamp: log.timestamp,
            },
        )
    } else {
        None
    }
}

/// The address in a topic.
pub fn topic_address(word: &[u8; 32]) -> (a: Address)
    ensures
        a == word_address(word@),
{
    let a = Address {
        bytes: [
            word[12],
            word[13],
            word[14],
            word[15],
            word[16],
            word[17],
            word[18],
            word[19],
            word[20],
            word[21],
            word[22],
            word[23],
            word[24],
            word[25],
            word[26],
            word[27],
            word[28],
            word[29],
            word[30],
            word[31],
        ],
    };
    proof {
        assert(a@ =~= word@.subrange(12, 32));
        assert(word_address(word@)@ =~= word@.subrange(12, 32));
        lemma_address_ext(a, word_address(word@));
    }
    a
}

/// The address in the first word of a log's data.
fn data_address(data: &Vec<u8>) -> (a: Address)
    requires
        data@.len() >= 32,
    ensures
        a == word_address(data@.subrange(0, 32)),
{
    let a = Address {
        bytes: [
            data[12],
            data[13],
            data[14],
            data[15],
            data[16],
            data[17],
            data[18],
            data[19],
            data[20],
            data[21],
            data[22],
            data[23],
            data[24],
            data[25],
            data[26],
            data[27],
            data[28],
            data[29],
            data[30],
            data[31],
        ],
    };
    proof {
        let word = data@.subrange(0, 32);
        assert(a@ =~= word.subrange(12, 32));
        assert(word_address(word)@ =~= word.subrange(12, 32));
        lemma_address_ext(a, word_address(word));
    }
    a
}

/// Reads a pair-creation log.
pub fn decode_creation_log(log: &RawLog) -> (r: Option<Pool>)
    ensures
        r == creation_candidate(*log),
{
    if log.topics.len() < 3 || log.data.len() < 64 {
        return None;
    }
    let token0 = topic_address(&log.topics[1]);
    let token1 = topic_address(&log.topics[2]);
    if token0 == token1 {
        return None;
    }
    Some(
        Pool {
            id: 0,
            address: data_address(&log.data),
            version: DexVariant::UniswapV2,
            token0,
            token1,
            fee: 0,
            block_number: log.block_number,
            timestamp: log.timestamp,
        },
    )
}

} // verus!
