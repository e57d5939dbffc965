//! Default configuration of the staking pool.

use vstd::prelude::*;

verus! {

/// Weight of one unit of an asset instance when no collection-level and no
/// instance-level override is set.
pub const DEFAULT_NFT_SCORE: u128 = 1_000_000;

/// Default unstaking penalty: the time in seconds a withdrawn batch stays
/// locked before it can be claimed.
pub const UNSTAKE_PENALTY: u64 = 7 * 24 * 3600u64;

/// Scale of the reward rate accumulator. Rates are fixed-point numbers
/// with this denomination, so that integer division keeps its precision.
pub const REWARD_RATE_DENOMINATION: u128 = 1_000_000_000_000_000_000;

} // verus!
