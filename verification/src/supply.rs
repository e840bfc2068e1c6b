//! The supply extractor: derives the per-pool summary quantities from a
//! materialized chain or block record.
//!
//! The pool list is read positionally at the five canonical indices
//! (transparent, sprout, sapling, orchard, lockbox); a record with fewer than
//! five pools is malformed upstream input and is rejected outright, with no
//! partial output.

use vstd::prelude::*;

use crate::errors::ClientError;
use crate::records::{BlockSupplyInfo, ChainInfo};

verus! {

/// Index of each canonical pool in a well-formed pool list.
pub const TRANSPARENT_POOL: usize = 0;

pub const SPROUT_POOL: usize = 1;

pub const SAPLING_POOL: usize = 2;

pub const ORCHARD_POOL: usize = 3;

pub const LOCKBOX_POOL: usize = 4;

/// Number of pools a well-formed record must carry.
pub const POOL_COUNT: usize = 5;

/// Chain-wide supply summary derived from a `ChainInfo`, all in zatoshis.
pub struct ChainSupplyBreakdown {
    /// Chain-wide supply.
    pub total: i64,
    /// Transparent pool balance.
    pub transparent: i64,
    /// Sprout pool balance.
    pub sprout: i64,
    /// Sapling pool balance.
    pub sapling: i64,
    /// Orchard pool balance.
    pub orchard: i64,
    /// Lockbox balance.
    pub lockbox: i64,
    /// Supply held in privacy-preserving pools:
    /// `total - transparent - lockbox`, exactly.
    pub shielded: i64,
}

/// Per-pool supply summary at one block, derived from a `BlockSupplyInfo`.
pub struct BlockSupplyBreakdown {
    /// Height of the queried block.
    pub height: i32,
    /// Transparent pool balance.
    pub transparent: i64,
    /// Sprout pool balance.
    pub sprout: i64,
    /// Sapling pool balance.
    pub sapling: i64,
    /// Orchard pool balance.
    pub orchard: i64,
    /// Lockbox balance.
    pub lockbox: i64,
}

/// Derives the chain-wide supply summary from a chain info record.
///
/// Succeeds exactly when the record carries at least the five canonical
/// pools; the shielded supply is the chain value minus the transparent and
/// lockbox balances, exactly.
pub fn extract_chain_supply(info: &ChainInfo) -> (r: Result<ChainSupplyBreakdown, ClientError>)
    requires
        info.wf(),
    ensures
        info.value_pools@.len() < 5 ==> r == Err::<ChainSupplyBreakdown, ClientError>(
            ClientError::PoolIndexOutOfRange,
        ),
        info.value_pools@.len() >= 5 ==> {
            &&& r is Ok
            &&& r->Ok_0.total == info.chain_supply.chain_value
            &&& r->Ok_0.transparent == info.value_pools@[0].chain_value
            &&& r->Ok_0.sprout == info.value_pools@[1].chain_value
            &&& r->Ok_0.sapling == info.value_pools@[2].chain_value
            &&& r->Ok_0.orchard == info.value_pools@[3].chain_value
            &&& r->Ok_0.lockbox == info.value_pools@[4].chain_value
            &&& r->Ok_0.shielded == info.chain_supply.chain_value
                - info.value_pools@[0].chain_value - info.value_pools@[4].chain_value
        },
{
    if info.value_pools.len() < POOL_COUNT {
        return Err(ClientError::PoolIndexOutOfRange);
    }
    let total = info.chain_supply.chain_value;
    let transparent = info.value_pools[TRANSPARENT_POOL].chain_value;
    let sprout = info.value_pools[SPROUT_POOL].chain_value;
    let sapling = info.value_pools[SAPLING_POOL].chain_value;
    let orchard = info.value_pools[ORCHARD_POOL].chain_value;
    let lockbox = info.value_pools[LOCKBOX_POOL].chain_value;
    assert(info.value_pools@[0].wf() && info.value_pools@[4].wf());
    let shielded = total - transparent - lockbox;
    Ok(ChainSupplyBreakdown { total, transparent, sprout, sapling, orchard, lockbox, shielded })
}

/// Derives the per-pool summary from a single block's supply record.
///
/// Succeeds exactly when the record carries at least the five canonical
/// pools.
pub fn extract_block_supply(info: &BlockSupplyInfo) -> (r: Result<
    BlockSupplyBreakdown,
    ClientError,
>)
    ensures
        info.value_pools@.len() < 5 ==> r == Err::<BlockSupplyBreakdown, ClientError>(
            ClientError::PoolIndexOutOfRange,
        ),
        info.value_pools@.len() >= 5 ==> {
            &&& r is Ok
            &&& r->Ok_0.height == info.height
            &&& r->Ok_0.transparent == info.value_pools@[0].chain_value
            &&& r->Ok_0.sprout == info.value_pools@[1].chain_value
            &&& r->Ok_0.sapling == info.value_pools@[2].chain_value
            &&& r->Ok_0.orchard == info.value_pools@[3].chain_value
            &&& r->Ok_0.lockbox == info.value_pools@[4].chain_value
        },
{
    if info.value_pools.len() < POOL_COUNT {
        return Err(ClientError::PoolIndexOutOfRange);
    }
    Ok(BlockSupplyBreakdown {
        height: info.height,
        transparent: info.value_pools[TRANSPARENT_POOL].chain_value,
        sprout: info.value_pools[SPROUT_POOL].chain_value,
        sapling: info.value_pools[SAPLING_POOL].chain_value,
        orchard: info.value_pools[ORCHARD_POOL].chain_value,
        lockbox: info.value_pools[LOCKBOX_POOL].chain_value,
    })
}

} // verus!
