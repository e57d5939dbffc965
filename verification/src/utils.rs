//! The score resolver.
//!
//! Every staked asset instance carries a reward-weight ("score"). An
//! instance-level override, if set, wins; otherwise a collection-level
//! override, if set; otherwise the fixed default weight. An override set
//! to zero counts as set. Overrides weigh deposits and withdrawals at the
//! moment they happen; changing one never reweighs what is already
//! staked.

use vstd::prelude::*;

use crate::constants::DEFAULT_NFT_SCORE;
use crate::storage::NftStaking;
use crate::Payment;

verus! {

impl NftStaking {
    /// The reward-weight of one unit of the asset instance, by the
    /// override hierarchy: instance level, else collection level, else
    /// the default.
    pub open spec fn resolved_score(self, token_id: u64, nonce: u64) -> u128 {
        match self.nft_collection_nonce_score.opt(token_id, nonce, 0) {
            Some(v) => v,
            None => match self.nft_collection_score.opt(token_id, 0, 0) {
                Some(v) => v,
                None => DEFAULT_NFT_SCORE,
            },
        }
    }

    /// The score carried by a whole payment: the instance's weight times
    /// the quantity.
    pub open spec fn payment_score(self, payment: Payment) -> int {
        self.resolved_score(payment.token_id, payment.token_nonce) * payment.amount
    }

    /// The score carried by a list of payments.
    pub open spec fn payments_score(self, payments: Seq<Payment>) -> int
        decreases payments.len(),
    {
        if payments.len() == 0 {
            0
        } else {
            self.payment_score(payments[0]) + self.payments_score(payments.drop_first())
        }
    }

    /// Whether every payment in the list names an allowed collection.
    pub open spec fn all_allowed(self, payments: Seq<Payment>) -> bool {
        forall|i: int| 0 <= i < payments.len() ==> self.is_allowed((#[trigger] payments[i]).token_id)
    }

    /// Resolve the reward-weight of one unit of the asset instance.
    pub fn get_nft_score(&self, token_id: u64, nonce: u64) -> (r: u128)
        ensures
            r == self.resolved_score(token_id, nonce),
    {
        if self.nft_collection_nonce_score.has(token_id, nonce, 0) {
            return self.nft_collection_nonce_score.lookup(token_id, nonce, 0);
        }
        if self.nft_collection_score.has(token_id, 0, 0) {
            return self.nft_collection_score.lookup(token_id, 0, 0);
        }
        DEFAULT_NFT_SCORE
    }

    /// The score carried by a whole payment.
    pub fn get_payment_score(&self, payment: &Payment) -> (r: u128)
        requires
            self.payment_score(*payment) <= u128::MAX,
        ensures
            r == self.payment_score(*payment),
    {
        let score = self.get_nft_score(payment.token_id, payment.token_nonce);
        score * payment.amount
    }

    /// Whether the collection may be staked.
    pub fn can_stake(&self, token_id: u64) -> (r: bool)
        ensures
            r == self.is_allowed(token_id),
    {
        self.allowed_nft_collections.has(token_id, 0, 0)
    }
}

} // verus!
