use vstd::prelude::*;
use std::collections::HashMap;
use crate::costs::StorageCosts;
use crate::costs::check_admission;
use crate::costs::mint_cost;
use crate::errors::StoreError;
use crate::fractions::Entries;
use crate::fractions::MAX_LEN_PAYOUT;
use crate::fractions::Royalty;
use crate::fractions::RoyaltyArgs;
use crate::fractions::RoyaltyView;
use crate::fractions::Share;
use crate::fractions::WHOLE;
use crate::fractions::SplitOwners;
use crate::fractions::distinct_accounts;
use crate::fractions::shares_view;
use crate::fractions::total;
use crate::fractions::valid_royalty;
use crate::fractions::valid_split;
use crate::owner::Owner;
use crate::payout::Payout;
use crate::payout::compute_payout;
use crate::payout::owed;
use crate::payout::owner_rest;
use crate::payout::share_amount;
use crate::payout::payout_entries;
use crate::payout::royalty_shares;
use crate::payout::royalty_view;
use crate::payout::split_view;

verus! {

broadcast use vstd::std_specs::hash::group_hash_axioms;

/// The most tokens that one batch may mint.
pub const BATCH_LIMIT: u64 = 125;

/// One token of the store.
#[derive(Debug)]
pub struct Token {
    /// The token's id: its place in the order of minting.
    pub id: u64,
    /// Who controls the token.
    pub owner_id: Owner,
    /// The id of the batch the token was minted in.
    pub meta_id: u64,
    /// The id under which the store holds the royalty of the token's batch.
    pub royalty_id: Option<u64>,
    /// How the proceeds of the next sale are divided, where that was set.
    pub split_owners: Option<SplitOwners>,
    /// The account that minted the token.
    pub minter: String,
}

/// The royalty of one batch, with the number of tokens that share it.
#[derive(Debug)]
pub struct RoyaltyRecord {
    pub tokens: u64,
    pub royalty: Royalty,
}

/// The metadata of one batch, with the number of tokens that share it.
#[derive(Debug)]
pub struct MetadataRecord {
    pub tokens: u64,
    pub metadata: String,
}

/// The store: its tokens, the royalties and metadata of their batches, and
/// the accounts that may mint.
#[derive(Debug)]
pub struct MintbaseStore {
    /// The account that owns the store.
    pub owner_id: String,
    /// The accounts that may mint, each once.
    pub minters: Vec<String>,
    /// The tokens, each at the place of its id.
    pub tokens: Vec<Token>,
    /// The royalty of each batch that has one, under the batch's id.
    pub token_royalty: HashMap<u64, RoyaltyRecord>,
    /// The metadata of each batch, under the batch's id.
    pub token_metadata: HashMap<u64, MetadataRecord>,
    /// The number of tokens minted so far, which is the next id.
    pub tokens_minted: u64,
    /// The prices of storage.
    pub storage_costs: StorageCosts,
}

/// The accounts that a list of names stands for.
pub open spec fn names_view(names: Seq<String>) -> Seq<Seq<char>> {
    Seq::new(names.len(), |i: int| names[i]@)
}

/// No name stands twice in the list.
pub open spec fn distinct_names(names: Seq<Seq<char>>) -> bool {
    forall|i: int, j: int| 0 <= i < j < names.len() ==> names[i] != names[j]
}

/// The number of royalty receivers of a token: those of the royalty that
/// its id names, none where it names none.
pub open spec fn royalty_len(token: Token, royalties: Map<u64, RoyaltyRecord>) -> nat {
    match token.royalty_id {
        Some(id) => if royalties.contains_key(id) {
            royalties[id].royalty@.split_between.len()
        } else {
            0
        },
        None => 0,
    }
}

/// The number of accounts that share the proceeds of a token besides the
/// royalty receivers: the split owners, or the owner alone.
pub open spec fn split_len(token: Token) -> nat {
    match token.split_owners {
        Some(s) => s@.len(),
        None => 1,
    }
}

/// A token is well formed in a store that holds its royalty, where its
/// split is valid and royalty and split together name no more accounts
/// than `MAX_LEN_PAYOUT`.
pub open spec fn token_wf(token: Token, royalties: Map<u64, RoyaltyRecord>) -> bool {
    &&& token.royalty_id matches Some(id) ==> royalties.contains_key(id)
    &&& token.split_owners matches Some(s) ==> s.wf()
    &&& royalty_len(token, royalties) + split_len(token) <= MAX_LEN_PAYOUT
}

/// What a royalty that is asked for would be, where one is asked for.
pub open spec fn args_view(args: Option<RoyaltyArgs>) -> Option<RoyaltyView> {
    match args {
        Some(a) => Some(
            RoyaltyView {
                split_between: shares_view(a.split_between@),
                percentage: a.percentage as nat,
            },
        ),
        None => None,
    }
}

/// The division that a split that is asked for would have, where one is
/// asked for.
pub open spec fn raw_split_view(split: Option<Vec<Share>>) -> Option<Entries> {
    match split {
        Some(s) => Some(shares_view(s@)),
        None => None,
    }
}

/// The number of accounts that a split names, or one, for the owner, where
/// there is no split.
pub open spec fn split_count(split: Option<Entries>) -> nat {
    match split {
        Some(s) => s.len(),
        None => 1,
    }
}

/// A cost as an amount, held at the largest amount where it is beyond it.
pub open spec fn saturated(cost: nat) -> u128 {
    if cost > u128::MAX {
        u128::MAX
    } else {
        cost as u128
    }
}

/// Whether a token is the one that a batch mints under an id.
pub open spec fn minted_token(
    token: Token,
    id: int,
    batch: u64,
    owner: Seq<char>,
    minter: Seq<char>,
    with_royalty: bool,
    split: Option<Entries>,
) -> bool {
    &&& token.id == id
    &&& token.meta_id == batch
    &&& token.owner_id matches Owner::Account(a) && a@ == owner
    &&& token.royalty_id == (if with_royalty {
        Some(batch)
    } else {
        None::<u64>
    })
    &&& split_view(token.split_owners) == split
    &&& token.minter@ == minter
}

/// Whether an account owns a token directly.
pub open spec fn owned_by(token: Token, account: Seq<char>) -> bool {
    token.owner_id matches Owner::Account(a) && a@ == account
}

/// A token with another owner and split, all else kept.
pub open spec fn with_owner_and_split(
    token: Token,
    owner_id: Owner,
    split_owners: Option<SplitOwners>,
) -> Token {
    Token {
        id: token.id,
        owner_id,
        meta_id: token.meta_id,
        royalty_id: token.royalty_id,
        split_owners,
        minter: token.minter,
    }
}

/// Whether a token is another with its split set to the given division,
/// all else kept.
pub open spec fn split_set(after: Token, before: Token, split: Entries) -> bool {
    &&& after.id == before.id
    &&& after.owner_id == before.owner_id
    &&& after.meta_id == before.meta_id
    &&& after.royalty_id == before.royalty_id
    &&& after.minter == before.minter
    &&& split_view(after.split_owners) == Some(split)
}

/// Puts another owner and split on the token at a place.
pub fn update_token(
    tokens: &mut Vec<Token>,
    place: usize,
    owner_id: Owner,
    split_owners: Option<SplitOwners>,
)
    requires
        place < old(tokens).len(),
    ensures
        final(tokens)@ == old(tokens)@.update(
            place as int,
            with_owner_and_split(old(tokens)@[place as int], owner_id, split_owners),
        ),
{
    let token = Token {
        id: tokens[place].id,
        owner_id,
        meta_id: tokens[place].meta_id,
        royalty_id: tokens[place].royalty_id,
        split_owners,
        minter: tokens[place].minter.clone(),
    };
    tokens.set(place, token);
}

impl MintbaseStore {
    /// The accounts that may mint.
    pub open spec fn minters_view(&self) -> Seq<Seq<char>> {
        names_view(self.minters@)
    }

    /// Whether an account may mint.
    pub open spec fn is_minter(&self, account: Seq<char>) -> bool {
        self.minters_view().contains(account)
    }

    /// The invariant of the store: token ids are places, every token is
    /// well formed, every royalty is valid and filed under an id that was
    /// minted, no minter is listed twice, and the owner may mint.
    pub open spec fn wf(&self) -> bool {
        &&& self.tokens.len() == self.tokens_minted
        &&& forall|i: int|
            0 <= i < self.tokens.len() ==> (#[trigger] self.tokens[i]).id == i && token_wf(
                self.tokens[i],
                self.token_royalty@,
            )
        &&& forall|id: u64| #[trigger]
            self.token_royalty@.contains_key(id) ==> id < self.tokens_minted
                && self.token_royalty@[id].royalty.wf()
        &&& distinct_names(self.minters_view())
        &&& self.is_minter(self.owner_id@)
    }

    /// An empty store of the given owner, who may mint.
    pub fn new(owner_id: String, storage_costs: StorageCosts) -> (store: MintbaseStore)
        ensures
            store.wf(),
            store.owner_id == owner_id,
            store.storage_costs == storage_costs,
            store.tokens_minted == 0,
            store.tokens@.len() == 0,
            store.token_royalty@ == Map::<u64, RoyaltyRecord>::empty(),
            store.token_metadata@ == Map::<u64, MetadataRecord>::empty(),
            store.minters_view() == seq![owner_id@],
    {
        let mut minters: Vec<String> = Vec::new();
        minters.push(owner_id.clone());
        let store = MintbaseStore {
            owner_id,
            minters,
            tokens: Vec::new(),
            token_royalty: HashMap::new(),
            token_metadata: HashMap::new(),
            tokens_minted: 0,
            storage_costs,
        };
        assert(store.minters_view() =~= seq![owner_id@]);
        assert(store.minters_view()[0] == owner_id@);
        store
    }

    /// The place of an account among the minters, where it is one.
    pub fn find_minter(&self, account_id: &String) -> (place: Option<usize>)
        ensures
            match place {
                Some(i) => {
                    &&& i < self.minters.len()
                    &&& self.minters_view()[i as int] == account_id@
                    &&& forall|k: int| 0 <= k < i ==> self.minters_view()[k] != account_id@
                },
                None => !self.is_minter(account_id@),
            },
    {
        let mut i: usize = 0;
        while i < self.minters.len()
            invariant
                i <= self.minters.len(),
                forall|k: int| 0 <= k < i ==> self.minters_view()[k] != account_id@,
            decreases self.minters.len() - i,
        {
            if self.minters[i] == *account_id {
                return Some(i);
            }
            i += 1;
        }
        None
    }

    /// Whether `account_id` may mint.
    pub fn check_is_minter(&self, account_id: &String) -> (yes: bool)
        ensures
            yes == self.is_minter(account_id@),
    {
        match self.find_minter(account_id) {
            Some(i) => {
                assert(self.minters_view()[i as int] == account_id@);
                true
            },
            None => false,
        }
    }

    /// The accounts that may mint, in the order in which they were granted.
    pub fn list_minters(&self) -> (list: Vec<String>)
        ensures
            names_view(list@) == self.minters_view(),
    {
        let mut list: Vec<String> = Vec::new();
        let mut i: usize = 0;
        while i < self.minters.len()
            invariant
                i <= self.minters.len(),
                list.len() == i,
                forall|k: int| 0 <= k < i ==> list[k]@ == self.minters[k]@,
            decreases self.minters.len() - i,
        {
            list.push(self.minters[i].clone());
            i += 1;
        }
        assert(names_view(list@) =~= self.minters_view());
        list
    }

    /// Lets `account_id` mint. Only the store's owner may grant; granting
    /// to an account that may mint already changes nothing. Returns whether
    /// the account was added.
    pub fn grant_minter(&mut self, caller: &String, account_id: String) -> (res: Result<
        bool,
        StoreError,
    >)
        requires
            old(self).wf(),
        ensures
            final(self).wf(),
            res is Err <==> caller@ != old(self).owner_id@,
            res matches Err(e) ==> e == StoreError::NotStoreOwner && *final(self) == *old(self),
            res matches Ok(added) ==> {
                &&& added == !old(self).is_minter(account_id@)
                &&& final(self).minters_view() == if added {
                    old(self).minters_view().push(account_id@)
                } else {
                    old(self).minters_view()
                }
                &&& final(self).owner_id == old(self).owner_id
                &&& final(self).tokens == old(self).tokens
                &&& final(self).token_royalty == old(self).token_royalty
                &&& final(self).token_metadata == old(self).token_metadata
                &&& final(self).tokens_minted == old(self).tokens_minted
                &&& final(self).storage_costs == old(self).storage_costs
            },
    {
        if *caller != self.owner_id {
            return Err(StoreError::NotStoreOwner);
        }
        if self.check_is_minter(&account_id) {
            return Ok(false);
        }
        let ghost before = self.minters_view();
        let ghost name = account_id@;
        self.minters.push(account_id);
        proof {
            let after = self.minters_view();
            assert(after =~= before.push(name));
            let k = choose|k: int| 0 <= k < before.len() && before[k] == self.owner_id@;
            assert(after[k] == self.owner_id@);
            assert forall|i: int, j: int| 0 <= i < j < after.len() implies after[i] != after[j] by {
                if j == before.len() {
                    assert(before[i] == after[i]);
                    assert(before.contains(after[i]));
                } else {
                    assert(before[i] == after[i] && before[j] == after[j]);
                }
            }
        }
        Ok(true)
    }

    /// Takes the right to mint from `account_id`. The owner's own right
    /// cannot be taken; only the store's owner may revoke; an account that
    /// may not mint cannot be revoked.
    pub fn revoke_minter(&mut self, caller: &String, account_id: &String) -> (res: Result<
        (),
        StoreError,
    >)
        requires
            old(self).wf(),
        ensures
            final(self).wf(),
            account_id@ == old(self).owner_id@ ==> res == Err::<(), StoreError>(
                StoreError::CannotRevokeOwner,
            ),
            res is Ok <==> account_id@ != old(self).owner_id@ && caller@ == old(self).owner_id@
                && old(self).is_minter(account_id@),
            res matches Err(e) ==> *final(self) == *old(self) && e == (if account_id@ == old(self).owner_id@ {
                StoreError::CannotRevokeOwner
            } else if caller@ != old(self).owner_id@ {
                StoreError::NotStoreOwner
            } else {
                StoreError::NotMinter
            }),
            res is Ok ==> {
                &&& !final(self).is_minter(account_id@)
                &&& forall|other: Seq<char>|
                    other != account_id@ ==> (final(self).is_minter(other) <==> old(self).is_minter(other))
                &&& final(self).minters_view() == old(self).minters_view().remove(
                    old(self).minters_view().index_of(account_id@),
                )
                &&& final(self).owner_id == old(self).owner_id
                &&& final(self).tokens == old(self).tokens
                &&& final(self).token_royalty == old(self).token_royalty
                &&& final(self).token_metadata == old(self).token_metadata
                &&& final(self).tokens_minted == old(self).tokens_minted
                &&& final(self).storage_costs == old(self).storage_costs
            },
    {
        if *account_id == self.owner_id {
            return Err(StoreError::CannotRevokeOwner);
        }
        if *caller != self.owner_id {
            return Err(StoreError::NotStoreOwner);
        }
        let place: usize = match self.find_minter(account_id) {
            Some(i) => i,
            None => { return Err(StoreError::NotMinter); },
        };
        let ghost before = self.minters_view();
        assert(before.contains(account_id@));
        self.minters.remove(place);
        proof {
            let after = self.minters_view();
            let at = before.index_of(account_id@);
            assert(at == place) by {
                if at < place {
                    assert(before[at] != before[place as int]);
                } else if place < at {
                    assert(before[place as int] != before[at]);
                }
            }
            assert(after =~= before.remove(place as int));
            assert forall|i: int, j: int| 0 <= i < j < after.len() implies after[i] != after[j] by {
                let a = if i < place { i } else { i + 1 };
                let b = if j < place { j } else { j + 1 };
                assert(after[i] == before[a] && after[j] == before[b]);
            }
            assert forall|i: int| 0 <= i < after.len() implies after[i] != account_id@ by {
                let a = if i < place { i } else { i + 1 };
                assert(after[i] == before[a]);
                if a < place {
                    assert(before[a] != before[place as int]);
                } else {
                    assert(before[place as int] != before[a]);
                }
            }
            assert forall|other: Seq<char>| other != account_id@ implies (after.contains(other)
                <==> before.contains(other)) by {
                if before.contains(other) {
                    let k = before.index_of(other);
                    let m = if k < place { k } else { k - 1 };
                    assert(after[m] == other);
                }
                if after.contains(other) {
                    let k = after.index_of(other);
                    let a = if k < place { k } else { k + 1 };
                    assert(before[a] == other);
                }
            }
            assert(before.contains(self.owner_id@));
        }
        Ok(())
    }

    /// The storage cost of minting `num_tokens` tokens at this store's
    /// prices; `None` where it is beyond the largest representable amount.
    pub fn storage_cost_to_mint(
        &self,
        num_tokens: u64,
        metadata_storage: u64,
        num_royalties: u32,
        num_splits: u32,
    ) -> (cost: Option<u128>)
        ensures
            match cost {
                Some(c) => c == mint_cost(
                    self.storage_costs,
                    num_tokens as nat,
                    metadata_storage as nat,
                    num_royalties as nat,
                    num_splits as nat,
                ),
                None => mint_cost(
                    self.storage_costs,
                    num_tokens as nat,
                    metadata_storage as nat,
                    num_royalties as nat,
                    num_splits as nat,
                ) > u128::MAX,
            },
    {
        self.storage_costs.estimate_mint_cost(
            num_tokens,
            metadata_storage,
            num_royalties,
            num_splits,
        )
    }

    /// Why a batch is refused, if it is: the first of these that holds. The
    /// number of tokens is not between one and `BATCH_LIMIT`; no deposit is
    /// attached; the caller may not mint; royalty and split together name
    /// more accounts than `MAX_LEN_PAYOUT`; the covered storage is below the
    /// cost of the batch; the royalty is invalid; the split is invalid.
    pub open spec fn mint_refusal(
        &self,
        caller: Seq<char>,
        attached_deposit: u128,
        covered_storage: u128,
        md_size: u64,
        num_to_mint: u64,
        royalty: Option<RoyaltyView>,
        split: Option<Entries>,
    ) -> Option<StoreError> {
        let receivers = royalty_shares(royalty).len();
        let cost = mint_cost(
            self.storage_costs,
            num_to_mint as nat,
            md_size as nat,
            receivers,
            split_count(split),
        );
        if num_to_mint == 0 || num_to_mint > BATCH_LIMIT {
            Some(StoreError::BatchSizeOutOfRange)
        } else if attached_deposit < 1 {
            Some(StoreError::NoDeposit)
        } else if !self.is_minter(caller) {
            Some(StoreError::NotMinter)
        } else if receivers + split_count(split) > MAX_LEN_PAYOUT {
            Some(StoreError::PayoutTooLong)
        } else if cost > covered_storage {
            Some(StoreError::InsufficientFunds(saturated(cost)))
        } else if royalty matches Some(r) && !valid_royalty(r.split_between, r.percentage) {
            Some(StoreError::InvalidFractions)
        } else if split matches Some(s) && !valid_split(s) {
            Some(StoreError::InvalidSplit)
        } else {
            None
        }
    }

    /// A batch of a minter, with a deposit, a number of tokens within the
    /// limit, and a valid royalty and split that together name no more
    /// accounts than `MAX_LEN_PAYOUT`, is admitted exactly where the covered
    /// storage reaches its cost, and is else refused with that cost.
    pub proof fn lemma_mint_admission(
        &self,
        caller: Seq<char>,
        attached_deposit: u128,
        covered_storage: u128,
        md_size: u64,
        num_to_mint: u64,
        royalty: Option<RoyaltyView>,
        split: Option<Entries>,
    )
        requires
            1 <= num_to_mint <= BATCH_LIMIT,
            attached_deposit >= 1,
            self.is_minter(caller),
            royalty_shares(royalty).len() + split_count(split) <= MAX_LEN_PAYOUT,
            royalty matches Some(r) ==> valid_royalty(r.split_between, r.percentage),
            split matches Some(s) ==> valid_split(s),
        ensures
            self.mint_refusal(
                caller,
                attached_deposit,
                covered_storage,
                md_size,
                num_to_mint,
                royalty,
                split,
            ) is None <==> covered_storage >= mint_cost(
                self.storage_costs,
                num_to_mint as nat,
                md_size as nat,
                royalty_shares(royalty).len(),
                split_count(split),
            ),
            self.mint_refusal(
                caller,
                attached_deposit,
                covered_storage,
                md_size,
                num_to_mint,
                royalty,
                split,
            ) matches Some(e) ==> e == StoreError::InsufficientFunds(
                saturated(
                    mint_cost(
                        self.storage_costs,
                        num_to_mint as nat,
                        md_size as nat,
                        royalty_shares(royalty).len(),
                        split_count(split),
                    ),
                ),
            ),
    {
    }

    /// A batch whose royalty shares do not sum to the whole is refused for
    /// its fractions, where nothing that is looked at earlier refuses it:
    /// the number of tokens, the deposit, the minter, the number of
    /// accounts named, the covered storage.
    pub proof fn lemma_mint_sum_off_refused(
        &self,
        caller: Seq<char>,
        attached_deposit: u128,
        covered_storage: u128,
        md_size: u64,
        num_to_mint: u64,
        royalty: RoyaltyView,
        split: Option<Entries>,
    )
        requires
            1 <= num_to_mint <= BATCH_LIMIT,
            attached_deposit >= 1,
            self.is_minter(caller),
            royalty.split_between.len() + split_count(split) <= MAX_LEN_PAYOUT,
            covered_storage >= mint_cost(
                self.storage_costs,
                num_to_mint as nat,
                md_size as nat,
                royalty.split_between.len(),
                split_count(split),
            ),
            total(royalty.split_between) != WHOLE,
        ensures
            self.mint_refusal(
                caller,
                attached_deposit,
                covered_storage,
                md_size,
                num_to_mint,
                Some(royalty),
                split,
            ) == Some(StoreError::InvalidFractions),
    {
    }

    /// Mints `num_to_mint` tokens for `owner_id` in one batch and returns the
    /// id of the first. The tokens get the next ids in order; they share
    /// the metadata, of `md_size` bytes, and the royalty, which the store
    /// files once each under the first id, and each gets its own copy of
    /// the split. A batch that is refused changes nothing.
    pub fn nft_batch_mint(
        &mut self,
        caller: &String,
        attached_deposit: u128,
        covered_storage: u128,
        owner_id: String,
        metadata: String,
        md_size: u64,
        num_to_mint: u64,
        royalty_args: Option<RoyaltyArgs>,
        split_owners: Option<Vec<Share>>,
    ) -> (res: Result<u64, StoreError>)
        requires
            old(self).wf(),
            num_to_mint <= BATCH_LIMIT ==> old(self).tokens_minted + num_to_mint <= u64::MAX,
        ensures
            final(self).wf(),
            res is Err <==> old(self).mint_refusal(
                caller@,
                attached_deposit,
                covered_storage,
                md_size,
                num_to_mint,
                args_view(royalty_args),
                raw_split_view(split_owners),
            ) is Some,
            res matches Err(e) ==> *final(self) == *old(self) && old(self).mint_refusal(
                caller@,
                attached_deposit,
                covered_storage,
                md_size,
                num_to_mint,
                args_view(royalty_args),
                raw_split_view(split_owners),
            ) == Some(e),
            res matches Ok(first) ==> {
                &&& first == old(self).tokens_minted
                &&& final(self).tokens_minted == old(self).tokens_minted + num_to_mint
                &&& final(self).tokens@.len() == old(self).tokens@.len() + num_to_mint
                &&& forall|i: int|
                    0 <= i < old(self).tokens@.len() ==> final(self).tokens@[i] == old(self).tokens@[i]
                &&& forall|i: int|
                    old(self).tokens@.len() <= i < final(self).tokens@.len() ==> minted_token(
                        #[trigger] final(self).tokens@[i],
                        i,
                        first,
                        owner_id@,
                        caller@,
                        royalty_args is Some,
                        raw_split_view(split_owners),
                    )
                &&& match args_view(royalty_args) {
                    Some(r) => {
                        &&& final(self).token_royalty@.dom() == old(self).token_royalty@.dom().insert(first)
                        &&& final(self).token_royalty@[first].tokens == num_to_mint
                        &&& final(self).token_royalty@[first].royalty@ == r
                        &&& final(self).token_royalty@[first].royalty.wf()
                        &&& forall|id: u64|
                            old(self).token_royalty@.contains_key(id) ==> final(self).token_royalty@[id] == old(self).token_royalty@[id]
                    },
                    None => final(self).token_royalty@ == old(self).token_royalty@,
                }
                &&& final(self).token_metadata@ == old(self).token_metadata@.insert(
                    first,
                    MetadataRecord { tokens: num_to_mint, metadata },
                )
                &&& final(self).minters == old(self).minters
                &&& final(self).owner_id == old(self).owner_id
                &&& final(self).storage_costs == old(self).storage_costs
            },
    {
        if num_to_mint == 0 || num_to_mint > BATCH_LIMIT {
            return Err(StoreError::BatchSizeOutOfRange);
        }
        if attached_deposit < 1 {
            return Err(StoreError::NoDeposit);
        }
        if !self.check_is_minter(caller) {
            return Err(StoreError::NotMinter);
        }
        let roy_len: usize = match &royalty_args {
            Some(args) => args.split_between.len(),
            None => 0,
        };
        let split_len: usize = match &split_owners {
            Some(split) => split.len(),
            None => 1,
        };
        let limit: usize = MAX_LEN_PAYOUT as usize;
        if roy_len > limit || split_len > limit || roy_len + split_len > limit {
            return Err(StoreError::PayoutTooLong);
        }
        match self.storage_cost_to_mint(
            num_to_mint,
            md_size,
            roy_len as u32,
            split_len as u32,
        ) {
            Some(cost) => {
                if check_admission(covered_storage, cost).is_err() {
                    return Err(StoreError::InsufficientFunds(cost));
                }
            },
            None => {
                return Err(StoreError::InsufficientFunds(u128::MAX));
            },
        }
        let ghost royalty_asked = args_view(royalty_args);
        let ghost split_asked = raw_split_view(split_owners);
        let checked_royalty: Option<Royalty> = match royalty_args {
            Some(args) => match Royalty::new(args) {
                Ok(royalty) => Some(royalty),
                Err(e) => { return Err(e); },
            },
            None => None,
        };
        let checked_split: Option<SplitOwners> = match split_owners {
            Some(split) => match SplitOwners::new(split) {
                Ok(split) => Some(split),
                Err(e) => { return Err(e); },
            },
            None => None,
        };
        let first: u64 = self.tokens_minted;
        let ghost royalties_before = self.token_royalty@;
        let royalty_id: Option<u64> = match checked_royalty {
            Some(royalty) => {
                self.token_royalty.insert(first, RoyaltyRecord { tokens: num_to_mint, royalty });
                Some(first)
            },
            None => None,
        };
        let ghost royalties = self.token_royalty@;
        let ghost batches = old(self).token_metadata@.insert(
            first,
            MetadataRecord { tokens: num_to_mint, metadata },
        );
        self.token_metadata.insert(first, MetadataRecord { tokens: num_to_mint, metadata });
        proof {
            assert forall|k: int| 0 <= k < self.tokens.len() implies token_wf(
                #[trigger] self.tokens[k],
                royalties,
            ) by {
                assert(token_wf(self.tokens[k], royalties_before));
            }
        }
        let mut i: u64 = 0;
        while i < num_to_mint
            invariant
                i <= num_to_mint <= BATCH_LIMIT,
                first + num_to_mint <= u64::MAX,
                first == old(self).tokens_minted,
                self.tokens_minted == first,
                self.tokens.len() == first + i,
                self.token_royalty@ == royalties,
                self.token_metadata@ == batches,
                self.minters == old(self).minters,
                self.owner_id == old(self).owner_id,
                self.storage_costs == old(self).storage_costs,
                old(self).tokens.len() == first,
                forall|k: int| 0 <= k < first ==> self.tokens@[k] == old(self).tokens@[k],
                forall|k: int|
                    0 <= k < self.tokens.len() ==> (#[trigger] self.tokens[k]).id == k && token_wf(
                        self.tokens[k],
                        royalties,
                    ),
                forall|k: int|
                    first <= k < self.tokens.len() ==> minted_token(
                        #[trigger] self.tokens@[k],
                        k,
                        first,
                        owner_id@,
                        caller@,
                        royalty_asked is Some,
                        split_asked,
                    ),
                split_view(checked_split) == split_asked,
                checked_split matches Some(s) ==> s.wf(),
                royalty_id == (if royalty_asked is Some {
                    Some(first)
                } else {
                    None::<u64>
                }),
                royalty_id is Some ==> royalties.contains_key(first),
                royalty_shares(royalty_asked).len() + split_count(split_asked) <= MAX_LEN_PAYOUT,
                royalty_asked matches Some(r) ==> royalties[first].royalty@ == r,
            decreases num_to_mint - i,
        {
            let split: Option<SplitOwners> = match &checked_split {
                Some(s) => Some(s.copy()),
                None => None,
            };
            let token = Token {
                id: first + i,
                owner_id: Owner::Account(owner_id.clone()),
                meta_id: first,
                royalty_id,
                split_owners: split,
                minter: caller.clone(),
            };
            assert(token_wf(token, royalties));
            self.tokens.push(token);
            i += 1;
        }
        self.tokens_minted = first + num_to_mint;
        Ok(first)
    }

    /// The royalty of a token: that of its batch, where the token exists
    /// and its batch has one.
    pub open spec fn royalty_of(&self, token_id: u64) -> Option<RoyaltyView> {
        if token_id < self.tokens_minted {
            match self.tokens[token_id as int].royalty_id {
                Some(id) => if self.token_royalty@.contains_key(id) {
                    Some(self.token_royalty@[id].royalty@)
                } else {
                    None
                },
                None => None,
            }
        } else {
            None
        }
    }

    /// Gets the royalty of a token, which the store holds once for the whole
    /// batch; `None` where there is no such token or its batch has none.
    pub fn get_token_royalty(&self, token_id: u64) -> (royalty: Option<Royalty>)
        requires
            self.wf(),
        ensures
            royalty_view(royalty) == self.royalty_of(token_id),
            royalty matches Some(r) ==> r.wf(),
    {
        if token_id >= self.tokens_minted {
            return None;
        }
        match self.tokens[token_id as usize].royalty_id {
            Some(id) => match self.token_royalty.get(&id) {
                Some(record) => Some(record.royalty.copy()),
                None => None,
            },
            None => None,
        }
    }

    /// What a sale of a token for `balance` pays out, where the token
    /// exists and an account owns it.
    pub open spec fn payout_of(&self, token_id: u64, balance: u128) -> Entries {
        let token = self.tokens[token_id as int];
        payout_entries(
            token.owner_id->Account_0@,
            self.royalty_of(token_id),
            split_view(token.split_owners),
            balance as nat,
        )
    }

    /// Why a payout is refused, if it is: there is no such token; the token
    /// is owned by another token or locked; the payout names more accounts
    /// than the caller's ceiling.
    pub open spec fn payout_refusal(
        &self,
        token_id: u64,
        balance: u128,
        max_len_payout: u32,
    ) -> Option<StoreError> {
        if token_id >= self.tokens_minted {
            Some(StoreError::NoSuchToken)
        } else if !(self.tokens[token_id as int].owner_id is Account) {
            Some(StoreError::ComposedOwnerPayout)
        } else if self.payout_of(token_id, balance).len() > max_len_payout {
            Some(StoreError::PayoutTooLong)
        } else {
            None
        }
    }

    /// Computes what a sale of a token for `balance` pays to whom. Every
    /// account gets what its shares give it, rounded down; the owner gets
    /// the rest on top, so that the amounts sum to the balance exactly.
    pub fn nft_payout(&self, token_id: u64, balance: u128, max_len_payout: u32) -> (res: Result<
        Payout,
        StoreError,
    >)
        requires
            self.wf(),
        ensures
            res is Err <==> self.payout_refusal(token_id, balance, max_len_payout) is Some,
            res matches Err(e) ==> self.payout_refusal(token_id, balance, max_len_payout) == Some(
                e,
            ),
            res matches Ok(payout) ==> {
                &&& payout@ == self.payout_of(token_id, balance)
                &&& total(payout@) == balance
                &&& distinct_accounts(payout@)
                &&& payout@.len() <= max_len_payout
                &&& forall|account: Seq<char>| #[trigger]
                    owed(payout@, account) == share_amount(
                        account,
                        self.royalty_of(token_id),
                        split_view(self.tokens[token_id as int].split_owners),
                        balance as nat,
                    ) + if account == self.tokens[token_id as int].owner_id->Account_0@ {
                        owner_rest(
                            self.royalty_of(token_id),
                            split_view(self.tokens[token_id as int].split_owners),
                            balance as nat,
                        )
                    } else {
                        0
                    }
            },
    {
        if token_id >= self.tokens_minted {
            return Err(StoreError::NoSuchToken);
        }
        let token: &Token = &self.tokens[token_id as usize];
        match &token.owner_id {
            Owner::Account(owner) => {
                let royalty: Option<Royalty> = self.get_token_royalty(token_id);
                let payout: Payout = compute_payout(owner, &royalty, &token.split_owners, balance);
                if (max_len_payout as u64) < (payout.payout.len() as u64) {
                    return Err(StoreError::PayoutTooLong);
                }
                Ok(payout)
            },
            _ => Err(StoreError::ComposedOwnerPayout),
        }
    }

    /// Why a sale with transfer is refused, if it is: the deposit is not
    /// exactly one unit; the payout is refused; the caller does not own the
    /// token.
    pub open spec fn transfer_payout_refusal(
        &self,
        caller: Seq<char>,
        attached_deposit: u128,
        token_id: u64,
        balance: u128,
        max_len_payout: u32,
    ) -> Option<StoreError> {
        if attached_deposit != 1 {
            Some(StoreError::NoDeposit)
        } else if self.payout_refusal(token_id, balance, max_len_payout) is Some {
            self.payout_refusal(token_id, balance, max_len_payout)
        } else if self.tokens[token_id as int].owner_id->Account_0@ != caller {
            Some(StoreError::NotOwner)
        } else {
            None
        }
    }

    /// Computes the payout of a sale of a token and hands the token to
    /// `receiver_id`. The split, made for this one sale, is used up. A
    /// refused request changes nothing.
    pub fn nft_transfer_payout(
        &mut self,
        caller: &String,
        attached_deposit: u128,
        receiver_id: String,
        token_id: u64,
        balance: u128,
        max_len_payout: u32,
    ) -> (res: Result<Payout, StoreError>)
        requires
            old(self).wf(),
        ensures
            final(self).wf(),
            res is Err <==> old(self).transfer_payout_refusal(
                caller@,
                attached_deposit,
                token_id,
                balance,
                max_len_payout,
            ) is Some,
            res matches Err(e) ==> *final(self) == *old(self) && old(self).transfer_payout_refusal(caller@, attached_deposit, token_id, balance, max_len_payout)
                == Some(e),
            res matches Ok(payout) ==> {
                &&& payout@ == old(self).payout_of(token_id, balance)
                &&& total(payout@) == balance
                &&& distinct_accounts(payout@)
                &&& payout@.len() <= max_len_payout
                &&& final(self).tokens@ == old(self).tokens@.update(
                    token_id as int,
                    with_owner_and_split(
                        old(self).tokens@[token_id as int],
                        Owner::Account(receiver_id),
                        None,
                    ),
                )
                &&& final(self).minters == old(self).minters
                &&& final(self).owner_id == old(self).owner_id
                &&& final(self).token_royalty == old(self).token_royalty
                &&& final(self).token_metadata == old(self).token_metadata
                &&& final(self).tokens_minted == old(self).tokens_minted
                &&& final(self).storage_costs == old(self).storage_costs
            },
    {
        if attached_deposit != 1 {
            return Err(StoreError::NoDeposit);
        }
        let payout: Payout = match self.nft_payout(token_id, balance, max_len_payout) {
            Ok(payout) => payout,
            Err(e) => { return Err(e); },
        };
        let owned: bool = match &self.tokens[token_id as usize].owner_id {
            Owner::Account(owner) => *owner == *caller,
            _ => false,
        };
        if !owned {
            return Err(StoreError::NotOwner);
        }
        let ghost before = self.tokens@[token_id as int];
        assert(token_wf(before, self.token_royalty@));
        update_token(&mut self.tokens, token_id as usize, Owner::Account(receiver_id), None);
        proof {
            assert forall|i: int| 0 <= i < self.tokens.len() implies (#[trigger] self.tokens[i]).id
                == i && token_wf(self.tokens[i], self.token_royalty@) by {
                assert(old(self).tokens[i].id == i && token_wf(
                    old(self).tokens[i],
                    self.token_royalty@,
                ));
            }
        }
        Ok(payout)
    }

    /// Why a split cannot be set on the token that stands at a place of a
    /// request's list, if it cannot; the first of these that holds. There
    /// is no such token; the token has a split already, or stands in the
    /// list before; it is locked; the caller is not the account that owns
    /// it; royalty and split together would name more accounts than
    /// `MAX_LEN_PAYOUT`.
    pub open spec fn token_split_refusal(
        &self,
        caller: Seq<char>,
        token_ids: Seq<u64>,
        place: int,
        split_len: nat,
    ) -> Option<StoreError> {
        let id = token_ids[place];
        let token = self.tokens[id as int];
        if id >= self.tokens_minted {
            Some(StoreError::NoSuchToken)
        } else if token.split_owners is Some || token_ids.take(place).contains(id) {
            Some(StoreError::AlreadySplit)
        } else if token.owner_id is Lock {
            Some(StoreError::Locked)
        } else if !(token.owner_id matches Owner::Account(a) && a@ == caller) {
            Some(StoreError::NotOwner)
        } else if split_len + royalty_len(token, self.token_royalty@) > MAX_LEN_PAYOUT {
            Some(StoreError::PayoutTooLong)
        } else {
            None
        }
    }

    /// Why a split cannot be set on the first `n` tokens of a request's
    /// list, if it cannot: what the first of them that is refused is
    /// refused for.
    pub open spec fn tokens_split_refusal(
        &self,
        caller: Seq<char>,
        token_ids: Seq<u64>,
        split_len: nat,
        n: int,
    ) -> Option<StoreError>
        decreases n,
    {
        if n <= 0 {
            None
        } else {
            match self.tokens_split_refusal(caller, token_ids, split_len, n - 1) {
                Some(e) => Some(e),
                None => self.token_split_refusal(caller, token_ids, n - 1, split_len),
            }
        }
    }

    /// The storage cost of a split on every token of a list: one record per
    /// split owner and token.
    pub open spec fn split_cost(&self, split_len: nat, tokens: nat) -> nat {
        self.storage_costs.common as nat * split_len * tokens
    }

    /// Why a request to set a split is refused, if it is; the first of
    /// these that holds. It names no token; the split has fewer than two
    /// entries; the deposit is below the storage cost; the split is
    /// invalid; one of its tokens is refused, the first of them in the
    /// order of the list.
    pub open spec fn split_refusal(
        &self,
        caller: Seq<char>,
        attached_deposit: u128,
        token_ids: Seq<u64>,
        split: Entries,
    ) -> Option<StoreError> {
        let cost = self.split_cost(split.len(), token_ids.len());
        if token_ids.len() == 0 {
            Some(StoreError::NoTokens)
        } else if split.len() < 2 {
            Some(StoreError::InvalidSplit)
        } else if cost > attached_deposit {
            Some(StoreError::InsufficientFunds(saturated(cost)))
        } else if !valid_split(split) {
            Some(StoreError::InvalidSplit)
        } else {
            self.tokens_split_refusal(caller, token_ids, split.len(), token_ids.len() as int)
        }
    }

    /// A refusal among the first tokens of a list is the refusal of any
    /// longer part of the list.
    pub proof fn lemma_refusal_stays(
        &self,
        caller: Seq<char>,
        token_ids: Seq<u64>,
        split_len: nat,
        n: int,
        m: int,
    )
        requires
            0 <= n <= m,
            self.tokens_split_refusal(caller, token_ids, split_len, n) is Some,
        ensures
            self.tokens_split_refusal(caller, token_ids, split_len, m)
                == self.tokens_split_refusal(caller, token_ids, split_len, n),
        decreases m - n,
    {
        if n < m {
            self.lemma_refusal_stays(caller, token_ids, split_len, n, m - 1);
        }
    }

    /// Where no token among the first of a list is refused, none of them
    /// is refused by itself.
    pub proof fn lemma_no_refusal(
        &self,
        caller: Seq<char>,
        token_ids: Seq<u64>,
        split_len: nat,
        n: int,
        k: int,
    )
        requires
            0 <= k < n,
            self.tokens_split_refusal(caller, token_ids, split_len, n) is None,
        ensures
            self.token_split_refusal(caller, token_ids, k, split_len) is None,
        decreases n,
    {
        if k < n - 1 {
            self.lemma_no_refusal(caller, token_ids, split_len, n - 1, k);
        }
    }

    /// Decides whether a split of `split_len` accounts can be set on the
    /// token at a place of a request's list.
    pub fn check_token_for_split(
        &self,
        caller: &String,
        token_ids: &Vec<u64>,
        place: usize,
        split_len: usize,
    ) -> (refusal: Option<StoreError>)
        requires
            self.wf(),
            place < token_ids.len(),
        ensures
            refusal == self.token_split_refusal(caller@, token_ids@, place as int, split_len as nat),
    {
        let id: u64 = token_ids[place];
        if id >= self.tokens_minted {
            return Some(StoreError::NoSuchToken);
        }
        let token: &Token = &self.tokens[id as usize];
        assert(token_wf(*token, self.token_royalty@));
        if token.split_owners.is_some() {
            return Some(StoreError::AlreadySplit);
        }
        let mut j: usize = 0;
        while j < place
            invariant
                j <= place < token_ids.len(),
                id == token_ids[place as int],
                id < self.tokens_minted,
                self.tokens[id as int].split_owners is None,
                forall|k: int| 0 <= k < j ==> token_ids[k] != id,
            decreases place - j,
        {
            if token_ids[j] == id {
                assert(token_ids@.take(place as int)[j as int] == id);
                assert(token_ids@.take(place as int).contains(id));
                return Some(StoreError::AlreadySplit);
            }
            j += 1;
        }
        assert(!token_ids@.take(place as int).contains(id));
        match &token.owner_id {
            Owner::Lock(_) => { return Some(StoreError::Locked); },
            Owner::Account(owner) => {
                if *owner != *caller {
                    return Some(StoreError::NotOwner);
                }
            },
            _ => { return Some(StoreError::NotOwner); },
        }
        let roy_len: usize = match token.royalty_id {
            Some(royalty_id) => match self.token_royalty.get(&royalty_id) {
                Some(record) => record.royalty.split_between.len(),
                None => 0,
            },
            None => 0,
        };
        let limit: usize = MAX_LEN_PAYOUT as usize;
        if split_len > limit || split_len + roy_len > limit {
            return Some(StoreError::PayoutTooLong);
        }
        None
    }

    /// Sets how the proceeds of the next sale of each listed token are
    /// divided. Only the account that owns a token may set its split, once
    /// per sale, and the deposit must cover the storage: one record per
    /// split owner and token. The request is looked at first, then the
    /// tokens in the order of the list. A refused request changes nothing.
    pub fn set_split_owners(
        &mut self,
        caller: &String,
        attached_deposit: u128,
        token_ids: Vec<u64>,
        split_between: Vec<Share>,
    ) -> (res: Result<(), StoreError>)
        requires
            old(self).wf(),
        ensures
            final(self).wf(),
            res is Err <==> old(self).split_refusal(
                caller@,
                attached_deposit,
                token_ids@,
                shares_view(split_between@),
            ) is Some,
            res matches Err(e) ==> *final(self) == *old(self) && old(self).split_refusal(
                caller@,
                attached_deposit,
                token_ids@,
                shares_view(split_between@),
            ) == Some(e),
            res is Ok ==> {
                &&& final(self).tokens@.len() == old(self).tokens@.len()
                &&& forall|i: int|
                    0 <= i < old(self).tokens@.len() ==> if token_ids@.contains(i as u64) {
                        split_set(
                            #[trigger] final(self).tokens@[i],
                            old(self).tokens@[i],
                            shares_view(split_between@),
                        )
                    } else {
                        final(self).tokens@[i] == old(self).tokens@[i]
                    }
                &&& final(self).minters == old(self).minters
                &&& final(self).owner_id == old(self).owner_id
                &&& final(self).token_royalty == old(self).token_royalty
                &&& final(self).token_metadata == old(self).token_metadata
                &&& final(self).tokens_minted == old(self).tokens_minted
                &&& final(self).storage_costs == old(self).storage_costs
            },
    {
        let count: usize = token_ids.len();
        let split_len: usize = split_between.len();
        let ghost asked = shares_view(split_between@);
        if count == 0 {
            return Err(StoreError::NoTokens);
        }
        if split_len < 2 {
            return Err(StoreError::InvalidSplit);
        }
        let per_token: Option<u128> = self.storage_costs.common.checked_mul(split_len as u128);
        let storage_cost: Option<u128> = match per_token {
            Some(c) => c.checked_mul(count as u128),
            None => None,
        };
        proof {
            let common = self.storage_costs.common as nat;
            assert(common * (split_len as nat) * (count as nat) >= common * (split_len as nat))
                by (nonlinear_arith)
                requires
                    count >= 1,
            ;
        }
        match storage_cost {
            Some(c) => {
                if attached_deposit < c {
                    return Err(StoreError::InsufficientFunds(c));
                }
            },
            None => {
                return Err(StoreError::InsufficientFunds(u128::MAX));
            },
        }
        let splits: SplitOwners = match SplitOwners::new(split_between) {
            Ok(splits) => splits,
            Err(e) => { return Err(e); },
        };
        let mut k: usize = 0;
        while k < count
            invariant
                k <= count == token_ids.len(),
                0 < count,
                split_len == asked.len(),
                asked == shares_view(split_between@),
                valid_split(asked),
                split_len >= 2,
                self.split_cost(split_len as nat, count as nat) <= attached_deposit,
                self.wf(),
                *self == *old(self),
                self.tokens_split_refusal(caller@, token_ids@, split_len as nat, k as int) is None,
            decreases count - k,
        {
            match self.check_token_for_split(caller, &token_ids, k, split_len) {
                Some(e) => {
                    proof {
                        assert(self.tokens_split_refusal(
                            caller@,
                            token_ids@,
                            split_len as nat,
                            k + 1,
                        ) == Some(e));
                        self.lemma_refusal_stays(
                            caller@,
                            token_ids@,
                            split_len as nat,
                            k + 1,
                            count as int,
                        );
                    }
                    return Err(e);
                },
                None => {},
            }
            k += 1;
        }
        let mut k: usize = 0;
        while k < count
            invariant
                k <= count == token_ids.len(),
                old(self).wf(),
                splits.wf(),
                splits@ == asked,
                asked.len() == split_len,
                old(self).tokens_split_refusal(
                    caller@,
                    token_ids@,
                    split_len as nat,
                    count as int,
                ) is None,
                self.tokens@.len() == old(self).tokens@.len(),
                self.minters == old(self).minters,
                self.owner_id == old(self).owner_id,
                self.token_royalty == old(self).token_royalty,
                self.token_metadata == old(self).token_metadata,
                self.tokens_minted == old(self).tokens_minted,
                self.storage_costs == old(self).storage_costs,
                forall|i: int|
                    0 <= i < self.tokens@.len() ==> if token_ids@.take(k as int).contains(i as u64) {
                        split_set(#[trigger] self.tokens@[i], old(self).tokens@[i], asked)
                    } else {
                        self.tokens@[i] == old(self).tokens@[i]
                    },
            decreases count - k,
        {
            let id: u64 = token_ids[k];
            proof {
                old(self).lemma_no_refusal(
                    caller@,
                    token_ids@,
                    split_len as nat,
                    count as int,
                    k as int,
                );
                assert(!token_ids@.take(k as int).contains(id));
            }
            let place: usize = id as usize;
            let owner: Owner = self.tokens[place].owner_id.copy();
            let ghost before = self.tokens@;
            update_token(&mut self.tokens, place, owner, Some(splits.copy()));
            proof {
                let part = token_ids@.take(k as int);
                let next = token_ids@.take(k + 1);
                assert(next == part.push(id));
                assert forall|i: int| 0 <= i < self.tokens@.len() implies if next.contains(
                    i as u64,
                ) {
                    split_set(#[trigger] self.tokens@[i], old(self).tokens@[i], asked)
                } else {
                    self.tokens@[i] == old(self).tokens@[i]
                } by {
                    if i == place {
                        assert(next[k as int] == id);
                        assert(next.contains(i as u64));
                    } else {
                        assert(self.tokens@[i] == before[i]);
                        if part.contains(i as u64) {
                            let w = part.index_of(i as u64);
                            assert(next[w] == i as u64);
                        }
                        if next.contains(i as u64) {
                            let w = next.index_of(i as u64);
                            assert(w < k);
                            assert(part[w] == i as u64);
                        }
                    }
                }
            }
            k += 1;
        }
        proof {
            assert(token_ids@.take(count as int) == token_ids@);
            assert forall|i: int| 0 <= i < self.tokens.len() implies (#[trigger] self.tokens[i]).id
                == i && token_wf(self.tokens[i], self.token_royalty@) by {
                assert(old(self).tokens[i].id == i && token_wf(
                    old(self).tokens[i],
                    self.token_royalty@,
                ));
                if token_ids@.contains(i as u64) {
                    let w = token_ids@.index_of(i as u64);
                    old(self).lemma_no_refusal(
                        caller@,
                        token_ids@,
                        split_len as nat,
                        count as int,
                        w,
                    );
                }
            }
        }
        Ok(())
    }

    /// A request to set a valid split, with a deposit that covers its
    /// storage, on one token that has a split already is refused for that,
    /// whoever asks and whatever state the token is in.
    pub proof fn lemma_split_twice_refused(
        &self,
        caller: Seq<char>,
        attached_deposit: u128,
        token_id: u64,
        split: Entries,
    )
        requires
            token_id < self.tokens_minted,
            self.tokens[token_id as int].split_owners is Some,
            valid_split(split),
            self.split_cost(split.len(), 1) <= attached_deposit,
        ensures
            self.split_refusal(caller, attached_deposit, seq![token_id], split) == Some(
                StoreError::AlreadySplit,
            ),
    {
        let ids = seq![token_id];
        assert(self.tokens_split_refusal(caller, ids, split.len(), 0) is None);
        assert(self.token_split_refusal(caller, ids, 0, split.len()) == Some(
            StoreError::AlreadySplit,
        ));
        assert(self.tokens_split_refusal(caller, ids, split.len(), 1) == Some(
            StoreError::AlreadySplit,
        ));
    }

    /// A request to set a split is refused for its deposit, with the
    /// amount that is needed, whenever it names a token, its split has two
    /// entries or more and the deposit is below one record per split owner
    /// and token, whatever else is wrong with it.
    pub proof fn lemma_split_needs_deposit(
        &self,
        caller: Seq<char>,
        attached_deposit: u128,
        token_ids: Seq<u64>,
        split: Entries,
    )
        requires
            token_ids.len() > 0,
            split.len() >= 2,
            attached_deposit < self.split_cost(split.len(), token_ids.len()),
        ensures
            self.split_refusal(caller, attached_deposit, token_ids, split) == Some(
                StoreError::InsufficientFunds(
                    saturated(self.split_cost(split.len(), token_ids.len())),
                ),
            ),
    {
    }

    /// A request to set a split whose shares do not sum to the whole is
    /// refused as invalid, before any token is looked at, where it names a
    /// token and its deposit covers the storage.
    pub proof fn lemma_split_sum_off_refused(
        &self,
        caller: Seq<char>,
        attached_deposit: u128,
        token_ids: Seq<u64>,
        split: Entries,
    )
        requires
            token_ids.len() > 0,
            self.split_cost(split.len(), token_ids.len()) <= attached_deposit,
            total(split) != WHOLE,
        ensures
            self.split_refusal(caller, attached_deposit, token_ids, split) == Some(
                StoreError::InvalidSplit,
            ),
    {
    }

    /// The ids of the tokens that an account owns directly, in rising
    /// order.
    pub fn tokens_per_owner(&self, owner_id: &String) -> (ids: Vec<u64>)
        requires
            self.wf(),
        ensures
            forall|i: int, j: int| 0 <= i < j < ids.len() ==> ids[i] < ids[j],
            forall|k: int|
                0 <= k < ids.len() ==> ids[k] < self.tokens_minted && owned_by(
                    self.tokens[ids[k] as int],
                    owner_id@,
                ),
            forall|id: u64|
                id < self.tokens_minted && owned_by(self.tokens[id as int], owner_id@)
                    ==> ids@.contains(id),
    {
        let mut ids: Vec<u64> = Vec::new();
        let mut next: u64 = 0;
        while next < self.tokens_minted
            invariant
                next <= self.tokens_minted == self.tokens.len(),
                forall|i: int, j: int| 0 <= i < j < ids.len() ==> ids[i] < ids[j],
                forall|k: int|
                    0 <= k < ids.len() ==> ids[k] < next && owned_by(
                        self.tokens[ids[k] as int],
                        owner_id@,
                    ),
                forall|id: u64|
                    id < next && owned_by(self.tokens[id as int], owner_id@) ==> ids@.contains(id),
            decreases self.tokens_minted - next,
        {
            let owned: bool = match &self.tokens[next as usize].owner_id {
                Owner::Account(account) => *account == *owner_id,
                _ => false,
            };
            if owned {
                let ghost before = ids@;
                ids.push(next);
                proof {
                    assert(ids@[before.len() as int] == next);
                    assert forall|id: u64|
                        id < next + 1 && owned_by(
                            self.tokens[id as int],
                            owner_id@,
                        ) implies ids@.contains(id) by {
                        if id < next {
                            assert(before.contains(id));
                            let k = before.index_of(id);
                            assert(ids@[k] == id);
                        } else {
                            assert(ids@[before.len() as int] == id);
                        }
                    }
                }
            }
            next += 1;
        }
        ids
    }
}

} // verus!
