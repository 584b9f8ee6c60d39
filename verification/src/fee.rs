//! The base fee of the block that follows a given one.

use crate::uint::{
    u256_max, uint_checked_add, uint_checked_div, uint_checked_mul, uint_checked_sub, U256,
};
use vstd::arithmetic::div_mod::lemma_div_is_ordered;
use vstd::prelude::*;

verus! {

/// The gas that a block is meant to use: half its limit, and never nothing.
pub open spec fn target_gas(gas_limit: int) -> int {
    if gas_limit / 2 == 0 {
        1
    } else {
        gas_limit / 2
    }
}

/// The base fee after a block: the block's own base fee, raised or lowered by
/// an eighth of the share by which the gas used lies above or below the
/// target. Both divisions round down.
pub open spec fn next_base_fee(gas_used: int, gas_limit: int, base_fee: int) -> int {
    let target = target_gas(gas_limit);
    if gas_used > target {
        base_fee + (base_fee * (gas_used - target) / target) / 8
    } else {
        base_fee - (base_fee * (target - gas_used) / target) / 8
    }
}

/// Whether the computation of the next base fee leaves 256 bits: the product
/// of the base fee and the distance of the gas used from the target does, or
/// the raised fee does.
pub open spec fn fee_overflows(gas_used: int, gas_limit: int, base_fee: int) -> bool {
    let target = target_gas(gas_limit);
    if gas_used > target {
        base_fee * (gas_used - target) > u256_max() || next_base_fee(gas_used, gas_limit, base_fee)
            > u256_max()
    } else {
        base_fee * (target - gas_used) > u256_max()
    }
}

/// Calculates the base fee of the next block from the gas that the previous
/// block used, its gas limit and its base fee; `None` where the computation
/// leaves 256 bits.
pub fn checked_next_block_base_fee(gas_used: U256, gas_limit: U256, base_fee_per_gas: U256) -> (fee:
    Option<U256>)
    ensures
        match fee {
            Some(f) => !fee_overflows(gas_used@ as int, gas_limit@ as int, base_fee_per_gas@ as int)
                && f@ == next_base_fee(gas_used@ as int, gas_limit@ as int, base_fee_per_gas@ as int),
            None => fee_overflows(gas_used@ as int, gas_limit@ as int, base_fee_per_gas@ as int),
        },
{
    let half = uint_checked_div(gas_limit, U256::from_u64(2)).unwrap();
    let target = if half.is_zero() {
        U256::from_u64(1)
    } else {
        half
    };
    let eight = U256::from_u64(8);
    if gas_used.gt(&target) {
        let over = uint_checked_sub(gas_used, target).unwrap();
        let product = match uint_checked_mul(base_fee_per_gas, over) {
            Some(p) => p,
            None => {
                return None;
            },
        };
        let share = uint_checked_div(product, target).unwrap();
        let eighth = uint_checked_div(share, eight).unwrap();
        uint_checked_add(base_fee_per_gas, eighth)
    } else {
        let under = uint_checked_sub(target, gas_used).unwrap();
        let product = match uint_checked_mul(base_fee_per_gas, under) {
            Some(p) => p,
            None => {
                return None;
            },
        };
        let share = uint_checked_div(product, target).unwrap();
        let eighth = uint_checked_div(share, eight).unwrap();
        proof {
            lemma_next_base_fee_bounds(
                gas_used@ as int,
                gas_limit@ as int,
                base_fee_per_gas@ as int,
            );
        }
        Some(uint_checked_sub(base_fee_per_gas, eighth).unwrap())
    }
}

/// Calculates the base fee of the next block from the gas that the previous
/// block used, its gas limit and its base fee.
pub fn calculate_next_block_base_fee(gas_used: U256, gas_limit: U256, base_fee_per_gas: U256) -> (fee:
    U256)
    requires
        !fee_overflows(gas_used@ as int, gas_limit@ as int, base_fee_per_gas@ as int),
    ensures
        fee@ == next_base_fee(gas_used@ as int, gas_limit@ as int, base_fee_per_gas@ as int),
{
    checked_next_block_base_fee(gas_used, gas_limit, base_fee_per_gas).unwrap()
}

/// The base fee stays where exactly the target is used, falls by at most an
/// eighth below it, does not fall above it, and rises by at most an eighth
/// where no more than twice the target is used.
pub proof fn lemma_next_base_fee_bounds(gas_used: int, gas_limit: int, base_fee: int)
    requires
        0 <= gas_used,
        0 <= gas_limit,
        0 <= base_fee,
    ensures
        gas_used == target_gas(gas_limit) ==> next_base_fee(gas_used, gas_limit, base_fee)
            == base_fee,
        gas_used <= target_gas(gas_limit) ==> base_fee - base_fee / 8 <= next_base_fee(
            gas_used,
            gas_limit,
            base_fee,
        ) <= base_fee,
        gas_used > target_gas(gas_limit) ==> next_base_fee(gas_used, gas_limit, base_fee)
            >= base_fee,
        target_gas(gas_limit) < gas_used <= 2 * target_gas(gas_limit) ==> next_base_fee(
            gas_used,
            gas_limit,
            base_fee,
        ) <= base_fee + base_fee / 8,
{
    let target = target_gas(gas_limit);
    if gas_used <= target {
        let under = target - gas_used;
        assert(0 <= base_fee * under <= base_fee * target) by (nonlinear_arith)
            requires
                0 <= under <= target,
                0 <= base_fee,
        ;
        assert(0 <= (base_fee * under) / target <= base_fee) by (nonlinear_arith)
            requires
                0 <= base_fee * under <= base_fee * target,
                target > 0,
        ;
        if under == 0 {
            assert(base_fee * under == 0) by (nonlinear_arith)
                requires
                    under == 0,
            ;
        }
    } else {
        let over = gas_used - target;
        assert(0 <= base_fee * over) by (nonlinear_arith)
            requires
                0 <= over,
                0 <= base_fee,
        ;
        assert(0 <= (base_fee * over) / target) by (nonlinear_arith)
            requires
                0 <= base_fee * over,
                target > 0,
        ;
        if gas_used <= 2 * target {
            assert(base_fee * over <= base_fee * target) by (nonlinear_arith)
                requires
                    0 <= over <= target,
                    0 <= base_fee,
            ;
            assert((base_fee * over) / target <= base_fee) by (nonlinear_arith)
                requires
                    0 <= base_fee * over <= base_fee * target,
                    target > 0,
            ;
        }
    }
}

/// The more gas is used, the higher the next base fee, or it stays.
pub proof fn lemma_next_base_fee_grows(less: int, more: int, gas_limit: int, base_fee: int)
    requires
        0 <= less <= more,
        0 <= gas_limit,
        0 <= base_fee,
    ensures
        next_base_fee(less, gas_limit, base_fee) <= next_base_fee(more, gas_limit, base_fee),
{
    let target = target_gas(gas_limit);
    lemma_next_base_fee_bounds(less, gas_limit, base_fee);
    lemma_next_base_fee_bounds(more, gas_limit, base_fee);
    if more <= target {
        assert(base_fee * (target - more) <= base_fee * (target - less)) by (nonlinear_arith)
            requires
                target - more <= target - less,
                0 <= base_fee,
        ;
        lemma_div_is_ordered(base_fee * (target - more), base_fee * (target - less), target);
        lemma_div_is_ordered(
            base_fee * (target - more) / target,
            base_fee * (target - less) / target,
            8,
        );
    } else if less > target {
        assert(base_fee * (less - target) <= base_fee * (more - target)) by (nonlinear_arith)
            requires
                less - target <= more - target,
                0 <= base_fee,
        ;
        lemma_div_is_ordered(base_fee * (less - target), base_fee * (more - target), target);
        lemma_div_is_ordered(
            base_fee * (less - target) / target,
            base_fee * (more - target) / target,
            8,
        );
    }
}

} // verus!
