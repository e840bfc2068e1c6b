//! The domain records decoded from the node's responses.
//!
//! Monetary quantities are carried as signed 64-bit zatoshi counts (one coin
//! is `ZATS_PER_COIN` zatoshis), so every derived quantity is exact integer
//! arithmetic.  The decoder only produces amounts within `AMOUNT_LIMIT_ZATS`
//! of zero, which keeps every sum and difference of a handful of amounts far
//! from the edge of `i64`.

use vstd::prelude::*;

verus! {

/// Zatoshis per whole coin: amounts in JSON are written in coins with up to
/// eight fractional digits.
pub const ZATS_PER_COIN: i64 = 100_000_000;

/// Largest magnitude, in zatoshis, that the decoder accepts for any single
/// amount field (ten billion whole coins -- far above any real chain supply,
/// far below `i64::MAX`).
pub const AMOUNT_LIMIT_ZATS: i64 = 1_000_000_000_000_000_000;

/// An amount the decoder may hand out.
pub open spec fn bounded_amount(v: i64) -> bool {
    -AMOUNT_LIMIT_ZATS <= v <= AMOUNT_LIMIT_ZATS
}

/// Text that needs no escaping inside a JSON string literal.
pub open spec fn plain_text(s: Seq<u8>) -> bool {
    crate::jsontext::plain_text(s)
}

/// One per-pool supply record, as reported by the node.
pub struct PoolEntry {
    /// Pool identifier, e.g. `transparent` or `sapling`.
    pub id: Vec<u8>,
    /// Pool balance in zatoshis.
    pub chain_value: i64,
    /// Whether the node monitors this pool's value.
    pub monitored: bool,
}

/// The chain-wide supply record nested in the chain info response.
pub struct SupplyInfo {
    /// Chain-wide supply in zatoshis.
    pub chain_value: i64,
    /// Whether the node monitors the chain-wide value.
    pub monitored: bool,
}

/// The subset of the `getblockchaininfo` result that the client consumes.
pub struct ChainInfo {
    /// Chain name, e.g. `main`.
    pub chain: Vec<u8>,
    /// Current block height.
    pub blocks: i64,
    /// Node database size on disk, in bytes.
    pub size_on_disk: i64,
    /// Chain-wide supply.
    pub chain_supply: SupplyInfo,
    /// Per-pool supplies, expected in the canonical order
    /// transparent, sprout, sapling, orchard, lockbox.
    pub value_pools: Vec<PoolEntry>,
}

/// The subset of a single block's `getblock` result that the client consumes.
pub struct BlockSupplyInfo {
    /// Height of the queried block.
    pub height: i32,
    /// Per-pool supplies at that block, in the canonical order.
    pub value_pools: Vec<PoolEntry>,
}

/// The mathematical value of a `PoolEntry`.
#[verifier::ext_equal]
pub struct PoolEntryV {
    pub id: Seq<u8>,
    pub chain_value: i64,
    pub monitored: bool,
}

/// The mathematical value of a `ChainInfo`.
#[verifier::ext_equal]
pub struct ChainInfoV {
    pub chain: Seq<u8>,
    pub blocks: i64,
    pub size_on_disk: i64,
    pub chain_supply: SupplyInfo,
    pub value_pools: Seq<PoolEntryV>,
}

/// The mathematical value of a `BlockSupplyInfo`.
#[verifier::ext_equal]
pub struct BlockSupplyInfoV {
    pub height: i32,
    pub value_pools: Seq<PoolEntryV>,
}

/// The views of a list of pool entries.
pub open spec fn pool_views(v: Seq<PoolEntry>) -> Seq<PoolEntryV> {
    v.map_values(|p: PoolEntry| p@)
}

impl View for PoolEntry {
    type V = PoolEntryV;

    open spec fn view(&self) -> PoolEntryV {
        PoolEntryV { id: self.id@, chain_value: self.chain_value, monitored: self.monitored }
    }
}

impl View for ChainInfo {
    type V = ChainInfoV;

    open spec fn view(&self) -> ChainInfoV {
        ChainInfoV {
            chain: self.chain@,
            blocks: self.blocks,
            size_on_disk: self.size_on_disk,
            chain_supply: self.chain_supply,
            value_pools: pool_views(self.value_pools@),
        }
    }
}

impl View for BlockSupplyInfo {
    type V = BlockSupplyInfoV;

    open spec fn view(&self) -> BlockSupplyInfoV {
        BlockSupplyInfoV {
            height: self.height,
            value_pools: pool_views(self.value_pools@),
        }
    }
}

impl PoolEntry {
    /// A pool entry as the decoder produces it.
    pub open spec fn wf(self) -> bool {
        plain_text(self.id@) && bounded_amount(self.chain_value)
    }
}

impl SupplyInfo {
    /// A supply record as the decoder produces it.
    pub open spec fn wf(self) -> bool {
        bounded_amount(self.chain_value)
    }
}

impl ChainInfo {
    /// A chain info record as the decoder produces it.
    pub open spec fn wf(self) -> bool {
        &&& plain_text(self.chain@)
        &&& self.chain_supply.wf()
        &&& forall|i: int|
            0 <= i < self.value_pools@.len() ==> (#[trigger] self.value_pools@[i]).wf()
    }
}

impl BlockSupplyInfo {
    /// A block supply record as the decoder produces it.
    pub open spec fn wf(self) -> bool {
        forall|i: int|
            0 <= i < self.value_pools@.len() ==> (#[trigger] self.value_pools@[i]).wf()
    }
}

} // verus!
