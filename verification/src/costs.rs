use vstd::prelude::*;
use crate::errors::StoreError;

verus! {

/// Prices of persistent storage, fixed when the store is set up.
#[derive(Clone, Copy, Debug, PartialEq, Eq, Structural)]
pub struct StorageCosts {
    /// Price of one byte.
    pub storage_price_per_byte: u128,
    /// Fixed price of one record (a map entry).
    pub common: u128,
    /// Fixed price of one token.
    pub token: u128,
}

/// The storage cost of a batch: one record for the batch itself, the metadata
/// by the byte, one record per royalty receiver, and for each token its fixed
/// price plus one record per split owner.
pub open spec fn mint_cost(
    costs: StorageCosts,
    num_tokens: nat,
    metadata_storage: nat,
    num_royalties: nat,
    num_splits: nat,
) -> nat {
    costs.common as nat + metadata_storage * costs.storage_price_per_byte as nat + num_royalties
        * costs.common as nat + num_tokens * (costs.token as nat + num_splits * costs.common as nat)
}

/// Whether funds that are already covered suffice for an estimated cost.
pub open spec fn admits(covered_funds: u128, estimate: u128) -> bool {
    covered_funds >= estimate
}

/// The cost of a batch never falls when the batch grows in tokens, metadata
/// bytes, royalty receivers or split owners.
pub proof fn lemma_mint_cost_monotone(
    costs: StorageCosts,
    tokens_a: nat,
    metadata_a: nat,
    royalties_a: nat,
    splits_a: nat,
    tokens_b: nat,
    metadata_b: nat,
    royalties_b: nat,
    splits_b: nat,
)
    requires
        tokens_a <= tokens_b,
        metadata_a <= metadata_b,
        royalties_a <= royalties_b,
        splits_a <= splits_b,
    ensures
        mint_cost(costs, tokens_a, metadata_a, royalties_a, splits_a) <= mint_cost(
            costs,
            tokens_b,
            metadata_b,
            royalties_b,
            splits_b,
        ),
{
    let price = costs.storage_price_per_byte as nat;
    let common = costs.common as nat;
    let token = costs.token as nat;
    assert(metadata_a * price <= metadata_b * price) by (nonlinear_arith)
        requires
            metadata_a <= metadata_b,
    ;
    assert(royalties_a * common <= royalties_b * common) by (nonlinear_arith)
        requires
            royalties_a <= royalties_b,
    ;
    assert(splits_a * common <= splits_b * common) by (nonlinear_arith)
        requires
            splits_a <= splits_b,
    ;
    assert(tokens_a * (token + splits_a * common) <= tokens_b * (token + splits_b * common))
        by (nonlinear_arith)
        requires
            tokens_a <= tokens_b,
            splits_a * common <= splits_b * common,
    ;
}

impl StorageCosts {
    /// The storage cost of minting `num_tokens` tokens that share
    /// `metadata_storage` bytes of metadata and `num_royalties` royalty
    /// receivers and carry `num_splits` split owners each; `None` where the
    /// cost is beyond the largest representable amount.
    pub fn estimate_mint_cost(
        &self,
        num_tokens: u64,
        metadata_storage: u64,
        num_royalties: u32,
        num_splits: u32,
    ) -> (cost: Option<u128>)
        ensures
            match cost {
                Some(c) => c == mint_cost(
                    *self,
                    num_tokens as nat,
                    metadata_storage as nat,
                    num_royalties as nat,
                    num_splits as nat,
                ),
                None => mint_cost(
                    *self,
                    num_tokens as nat,
                    metadata_storage as nat,
                    num_royalties as nat,
                    num_splits as nat,
                ) > u128::MAX,
            },
    {
        let metadata: u128 = match (metadata_storage as u128).checked_mul(
            self.storage_price_per_byte,
        ) {
            Some(m) => m,
            None => { return None; },
        };
        let royalties: u128 = match (num_royalties as u128).checked_mul(self.common) {
            Some(r) => r,
            None => { return None; },
        };
        let tokens: u128 = if num_tokens == 0 {
            assert(0 * (self.token as nat + num_splits as nat * self.common as nat) == 0)
                by (nonlinear_arith);
            0
        } else {
            let splits: u128 = match (num_splits as u128).checked_mul(self.common) {
                Some(s) => s,
                None => {
                    proof {
                        let inner = self.token as nat + num_splits as nat * self.common as nat;
                        assert(num_tokens as nat * inner >= inner) by (nonlinear_arith)
                            requires
                                num_tokens as nat >= 1,
                        ;
                    }
                    return None;
                },
            };
            let each: u128 = match self.token.checked_add(splits) {
                Some(e) => e,
                None => {
                    proof {
                        let inner = self.token as nat + num_splits as nat * self.common as nat;
                        assert(num_tokens as nat * inner >= inner) by (nonlinear_arith)
                            requires
                                num_tokens as nat >= 1,
                        ;
                    }
                    return None;
                },
            };
            match (num_tokens as u128).checked_mul(each) {
                Some(t) => t,
                None => { return None; },
            }
        };
        let fixed: u128 = match self.common.checked_add(metadata) {
            Some(f) => f,
            None => { return None; },
        };
        let shared: u128 = match fixed.checked_add(royalties) {
            Some(s) => s,
            None => { return None; },
        };
        shared.checked_add(tokens)
    }
}

/// Admits a request whose covered funds reach the estimate, and refuses any
/// other with the amount that is needed.
pub fn check_admission(covered_funds: u128, estimate: u128) -> (res: Result<(), StoreError>)
    ensures
        res is Ok <==> admits(covered_funds, estimate),
        res is Err ==> res == Err::<(), StoreError>(StoreError::InsufficientFunds(estimate)),
{
    if covered_funds >= estimate {
        Ok(())
    } else {
        Err(StoreError::InsufficientFunds(estimate))
    }
}

} // verus!
