//! Discovery and caching of liquidity pools seen on a chain.
//!
//! The library keeps a table of the pools that pair-creation events have
//! announced, so that a trading engine can ask which pools trade two tokens
//! and which pools a block touched without scanning the chain anew.
//!
//! * `pool`, `address`, `decimal`: a pool and the row that persists it.
//! * `store`: the cache file as bytes.
//! * `registry`: the pools in memory.
//! * `chain`, `discovery`, `sync`: scanning a range of blocks for new pools.
//! * `touched`: the pools that traded in a block.
//! * `env`, `fee`, `uint`: settings, and the base fee of the next block.
//!
//! Nothing here reads a file, a socket or the environment. The caller does,
//! and hands over what it read.

pub mod address;
pub mod chain;
pub mod decimal;
pub mod discovery;
pub mod env;
pub mod fee;
pub mod pool;
pub mod registry;
pub mod store;
pub mod sync;
pub mod touched;
pub mod uint;

pub use address::Address;
pub use chain::{creation_query, decode_creation_log, swap_query, LogQuery, RawLog};
pub use env::{get_env, Env};
pub use fee::{calculate_next_block_base_fee, checked_next_block_base_fee};
pub use pool::{DecodeError, DexVariant, FieldFault, Pool};
pub use registry::{Registry, RegistryError};
pub use store::{load_all, load_rows, pool_line, CacheError};
pub use sync::{SyncAction, SyncError, SyncEvent, SyncPhase, Synchronizer};
pub use touched::get_touched_pools;
pub use uint::U256;
