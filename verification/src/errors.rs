//! The error taxonomy of the ledger.
//!
//! Every state-changing operation checks its preconditions first and
//! aborts with one of these kinds before touching any state; no partial
//! mutation ever survives an error.

use vstd::prelude::*;

verus! {

/// Why a ledger operation was refused.
#[derive(Clone, Copy, PartialEq, Eq, Structural, Debug)]
pub enum StakingError {
    /// A mutating call arrived while the enable switch is off.
    StakingDisabled,
    /// A deposit named an asset collection that is not on the allow-list.
    AssetNotAllowed,
    /// A withdrawal asked for more than the participant holds.
    InsufficientStake,
    /// A claim of time-locked withdrawals found no batch past its unlock time.
    NothingUnlocked,
    /// A reward claim found nothing owed in any reward currency.
    NoRewardsToClaim,
    /// A plan removal named parameters that match no stored plan.
    PlanNotFound,
    /// A plan creation named a round range that does not end after it starts.
    InvalidPlanRange,
    /// A privileged operation was invoked by a caller that is not the owner.
    /// The ledger itself never checks identities; the host layer does, and
    /// reports its refusals with this kind.
    Unauthorized,
}

impl StakingError {
    /// The message the host surfaces for this error kind.
    pub fn message(&self) -> (r: &'static str)
        ensures
            *self == StakingError::StakingDisabled ==> r@ == "Staking is disabled"@,
            *self == StakingError::AssetNotAllowed ==> r@ == "NFT collection not allowed"@,
            *self == StakingError::InsufficientStake ==> r@ == "User has not enough staked balance"@,
            *self == StakingError::NothingUnlocked ==> r@ == "No unstaked items"@,
            *self == StakingError::NoRewardsToClaim ==> r@ == "No rewards to claim"@,
            *self == StakingError::PlanNotFound ==> r@ == "Plan not found"@,
            *self == StakingError::InvalidPlanRange ==> r@ == "Invalid distribution plan round range"@,
            *self == StakingError::Unauthorized ==> r@ == "Endpoint can only be called by owner"@,
    {
        match self {
            StakingError::StakingDisabled => "Staking is disabled",
            StakingError::AssetNotAllowed => "NFT collection not allowed",
            StakingError::InsufficientStake => "User has not enough staked balance",
            StakingError::NothingUnlocked => "No unstaked items",
            StakingError::NoRewardsToClaim => "No rewards to claim",
            StakingError::PlanNotFound => "Plan not found",
            StakingError::InvalidPlanRange => "Invalid distribution plan round range",
            StakingError::Unauthorized => "Endpoint can only be called by owner",
        }
    }
}

} // verus!
