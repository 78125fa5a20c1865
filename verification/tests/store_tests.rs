use mintbase_store::costs::StorageCosts;
use mintbase_store::errors::StoreError;
use mintbase_store::fractions::{RoyaltyArgs, Share};
use mintbase_store::owner::Owner;
use mintbase_store::store::{update_token, MintbaseStore, BATCH_LIMIT};

fn acct(s: &str) -> String {
    s.to_string()
}

fn part(account: &str, numerator: u32) -> Share {
    Share { account: acct(account), numerator }
}

fn prices() -> StorageCosts {
    StorageCosts { storage_price_per_byte: 10, common: 100, token: 1_000 }
}

fn fresh() -> MintbaseStore {
    MintbaseStore::new(acct("owner"), prices())
}

fn ten_percent_to(account: &str) -> RoyaltyArgs {
    RoyaltyArgs { split_between: vec![part(account, 10_000)], percentage: 1_000 }
}

fn halves() -> Vec<Share> {
    vec![part("carol", 5_000), part("dave", 5_000)]
}

fn long_list(prefix: &str, count: u32) -> Vec<Share> {
    let mut shares = Vec::new();
    for i in 0..count {
        let numerator = if i == 0 { 10_000 - (count - 1) } else { 1 };
        shares.push(Share { account: format!("{}{}", prefix, i), numerator });
    }
    shares
}

#[test]
fn new_store_is_empty_and_owner_mints() {
    let store = fresh();
    assert_eq!(store.tokens_minted, 0);
    assert!(store.tokens.is_empty());
    assert!(store.check_is_minter(&acct("owner")));
    assert!(!store.check_is_minter(&acct("alice")));
    assert_eq!(store.list_minters(), vec![acct("owner")]);
}

#[test]
fn mint_advances_counter_by_count() {
    let mut store = fresh();
    let first = store
        .nft_batch_mint(&acct("owner"), 1, u128::MAX, acct("alice"), acct("{}"), 10, 3, None, None)
        .unwrap();
    assert_eq!(first, 0);
    assert_eq!(store.tokens_minted, 3);
    let second = store
        .nft_batch_mint(
            &acct("owner"),
            1,
            u128::MAX,
            acct("bob"),
            acct("{}"),
            10,
            2,
            Some(ten_percent_to("roy")),
            Some(halves()),
        )
        .unwrap();
    assert_eq!(second, 3);
    assert_eq!(store.tokens_minted, 5);
    assert_eq!(store.tokens.len(), 5);
    for (place, token) in store.tokens.iter().enumerate() {
        assert_eq!(token.id, place as u64);
        assert_eq!(token.minter, "owner");
    }
    for token in &store.tokens[..3] {
        assert!(matches!(&token.owner_id, Owner::Account(a) if a == "alice"));
        assert_eq!(token.meta_id, 0);
        assert_eq!(token.royalty_id, None);
        assert!(token.split_owners.is_none());
    }
    for token in &store.tokens[3..] {
        assert!(matches!(&token.owner_id, Owner::Account(a) if a == "bob"));
        assert_eq!(token.meta_id, 3);
        assert_eq!(token.royalty_id, Some(3));
        let split = token.split_owners.as_ref().unwrap();
        assert_eq!(split.split_between.len(), 2);
        assert_eq!(split.split_between[0].account, "carol");
        assert_eq!(split.split_between[1].numerator, 5_000);
    }
    assert_eq!(store.token_royalty.len(), 1);
    assert_eq!(store.token_royalty[&3].tokens, 2);
    assert_eq!(store.token_royalty[&3].royalty.percentage, 1_000);
}

#[test]
fn mint_of_full_batch() {
    let mut store = fresh();
    let first = store
        .nft_batch_mint(&acct("owner"), 1, u128::MAX, acct("alice"), acct("{}"), 0, BATCH_LIMIT, None, None)
        .unwrap();
    assert_eq!(first, 0);
    assert_eq!(store.tokens_minted, BATCH_LIMIT);
}

#[test]
fn mint_refusals_change_nothing() {
    let mut store = fresh();
    let owner = acct("owner");
    let zero = store.nft_batch_mint(&owner, 1, u128::MAX, acct("a"), acct("{}"), 0, 0, None, None);
    assert_eq!(zero, Err(StoreError::BatchSizeOutOfRange));
    let many = store.nft_batch_mint(&owner, 1, u128::MAX, acct("a"), acct("{}"), 0, BATCH_LIMIT + 1, None, None);
    assert_eq!(many, Err(StoreError::BatchSizeOutOfRange));
    let unpaid = store.nft_batch_mint(&owner, 0, u128::MAX, acct("a"), acct("{}"), 0, 1, None, None);
    assert_eq!(unpaid, Err(StoreError::NoDeposit));
    let stranger = store.nft_batch_mint(&acct("eve"), 1, u128::MAX, acct("a"), acct("{}"), 0, 1, None, None);
    assert_eq!(stranger, Err(StoreError::NotMinter));
    let long = store.nft_batch_mint(
        &owner,
        1,
        u128::MAX,
        acct("a"),
        acct("{}"),
        0,
        1,
        Some(RoyaltyArgs { split_between: long_list("r", 49), percentage: 10 }),
        Some(halves()),
    );
    assert_eq!(long, Err(StoreError::PayoutTooLong));
    let longest = store.nft_batch_mint(
        &owner,
        1,
        u128::MAX,
        acct("a"),
        acct("{}"),
        0,
        1,
        Some(RoyaltyArgs { split_between: long_list("r", 50), percentage: 10 }),
        None,
    );
    assert_eq!(longest, Err(StoreError::PayoutTooLong));
    let bad_royalty = store.nft_batch_mint(
        &owner,
        1,
        u128::MAX,
        acct("a"),
        acct("{}"),
        0,
        1,
        Some(RoyaltyArgs { split_between: vec![part("r", 9_999)], percentage: 10 }),
        None,
    );
    assert_eq!(bad_royalty, Err(StoreError::InvalidFractions));
    let bad_split = store.nft_batch_mint(
        &owner,
        1,
        u128::MAX,
        acct("a"),
        acct("{}"),
        0,
        1,
        None,
        Some(vec![part("c", 5_000), part("d", 5_001)]),
    );
    assert_eq!(bad_split, Err(StoreError::InvalidSplit));
    let single_split =
        store.nft_batch_mint(&owner, 1, u128::MAX, acct("a"), acct("{}"), 0, 1, None, Some(vec![part("c", 10_000)]));
    assert_eq!(single_split, Err(StoreError::InvalidSplit));
    assert_eq!(store.tokens_minted, 0);
    assert!(store.tokens.is_empty());
    assert!(store.token_royalty.is_empty());
}

#[test]
fn mint_needs_covered_storage() {
    let mut store = fresh();
    let owner = acct("owner");
    // 100 + 50 * 10 + 1 * 100 + 3 * (1000 + 2 * 100)
    let need: u128 = 4_300;
    let short = store.nft_batch_mint(
        &owner,
        1,
        need - 1,
        acct("a"),
        acct("{}"),
        50,
        3,
        Some(ten_percent_to("r")),
        Some(halves()),
    );
    assert_eq!(short, Err(StoreError::InsufficientFunds(need)));
    assert_eq!(store.tokens_minted, 0);
    let exact = store.nft_batch_mint(
        &owner,
        1,
        need,
        acct("a"),
        acct("{}"),
        50,
        3,
        Some(ten_percent_to("r")),
        Some(halves()),
    );
    assert_eq!(exact, Ok(0));
    assert_eq!(store.tokens_minted, 3);
}

#[test]
fn mint_cost_beyond_range_is_insufficient() {
    let costs = StorageCosts { storage_price_per_byte: u128::MAX, common: 1, token: 1 };
    let mut store = MintbaseStore::new(acct("owner"), costs);
    let res = store.nft_batch_mint(&acct("owner"), 1, u128::MAX, acct("a"), acct("{}"), 2, 1, None, None);
    assert_eq!(res, Err(StoreError::InsufficientFunds(u128::MAX)));
}

#[test]
fn grant_is_for_the_owner_only() {
    let mut store = fresh();
    assert_eq!(store.grant_minter(&acct("eve"), acct("eve")), Err(StoreError::NotStoreOwner));
    assert!(!store.check_is_minter(&acct("eve")));
    assert_eq!(store.grant_minter(&acct("owner"), acct("alice")), Ok(true));
    assert_eq!(store.grant_minter(&acct("owner"), acct("alice")), Ok(false));
    assert_eq!(store.grant_minter(&acct("owner"), acct("owner")), Ok(false));
    assert!(store.check_is_minter(&acct("alice")));
    assert_eq!(store.list_minters(), vec![acct("owner"), acct("alice")]);
    let minted = store.nft_batch_mint(&acct("alice"), 1, u128::MAX, acct("bob"), acct("{}"), 0, 1, None, None);
    assert_eq!(minted, Ok(0));
    assert_eq!(store.tokens[0].minter, "alice");
}

#[test]
fn revoke_of_owner_always_fails() {
    let mut store = fresh();
    assert_eq!(
        store.revoke_minter(&acct("owner"), &acct("owner")),
        Err(StoreError::CannotRevokeOwner)
    );
    assert_eq!(
        store.revoke_minter(&acct("eve"), &acct("owner")),
        Err(StoreError::CannotRevokeOwner)
    );
    assert!(store.check_is_minter(&acct("owner")));
}

#[test]
fn revoke_takes_the_privilege() {
    let mut store = fresh();
    store.grant_minter(&acct("owner"), acct("alice")).unwrap();
    store.grant_minter(&acct("owner"), acct("bob")).unwrap();
    assert_eq!(store.revoke_minter(&acct("alice"), &acct("bob")), Err(StoreError::NotStoreOwner));
    assert_eq!(store.revoke_minter(&acct("owner"), &acct("eve")), Err(StoreError::NotMinter));
    assert_eq!(store.list_minters(), vec![acct("owner"), acct("alice"), acct("bob")]);
    assert_eq!(store.revoke_minter(&acct("owner"), &acct("alice")), Ok(()));
    assert!(!store.check_is_minter(&acct("alice")));
    assert!(store.check_is_minter(&acct("bob")));
    assert_eq!(store.list_minters(), vec![acct("owner"), acct("bob")]);
    assert_eq!(store.revoke_minter(&acct("owner"), &acct("alice")), Err(StoreError::NotMinter));
    let res = store.nft_batch_mint(&acct("alice"), 1, u128::MAX, acct("a"), acct("{}"), 0, 1, None, None);
    assert_eq!(res, Err(StoreError::NotMinter));
}

#[test]
fn split_cannot_be_set_twice() {
    let mut store = fresh();
    store.nft_batch_mint(&acct("owner"), 1, u128::MAX, acct("alice"), acct("{}"), 0, 1, None, None).unwrap();
    assert_eq!(store.set_split_owners(&acct("alice"), 200, vec![0], halves()), Ok(()));
    let other = vec![part("x", 1_000), part("y", 9_000)];
    assert_eq!(
        store.set_split_owners(&acct("alice"), 200, vec![0], other),
        Err(StoreError::AlreadySplit)
    );
    let kept = store.tokens[0].split_owners.as_ref().unwrap();
    assert_eq!(kept.split_between.len(), 2);
    assert_eq!(kept.split_between[0].account, "carol");
    assert_eq!(kept.split_between[0].numerator, 5_000);
    assert_eq!(kept.split_between[1].account, "dave");
    assert_eq!(kept.split_between[1].numerator, 5_000);
    // whoever asks
    assert_eq!(
        store.set_split_owners(&acct("eve"), 200, vec![0], halves()),
        Err(StoreError::AlreadySplit)
    );
    store.tokens[0].owner_id = Owner::Lock(acct("alice"));
    assert_eq!(
        store.set_split_owners(&acct("alice"), 200, vec![0], halves()),
        Err(StoreError::AlreadySplit)
    );
}

#[test]
fn split_refusals_change_nothing() {
    let mut store = fresh();
    store
        .nft_batch_mint(
            &acct("owner"),
            1,
            u128::MAX,
            acct("alice"),
            acct("{}"),
            0,
            3,
            Some(RoyaltyArgs { split_between: long_list("r", 48), percentage: 10 }),
            None,
        )
        .unwrap();
    let alice = acct("alice");
    assert_eq!(store.set_split_owners(&alice, 1_000, vec![], halves()), Err(StoreError::NoTokens));
    assert_eq!(
        store.set_split_owners(&alice, 1_000, vec![0, 3], halves()),
        Err(StoreError::NoSuchToken)
    );
    assert_eq!(
        store.set_split_owners(&alice, 1_000, vec![0, 1, 0], halves()),
        Err(StoreError::AlreadySplit)
    );
    assert_eq!(
        store.set_split_owners(&acct("eve"), 1_000, vec![0], halves()),
        Err(StoreError::NotOwner)
    );
    assert_eq!(
        store.set_split_owners(&alice, 1_000, vec![0], long_list("s", 3)),
        Err(StoreError::PayoutTooLong)
    );
    assert_eq!(
        store.set_split_owners(&alice, 1_000, vec![0], vec![part("c", 10_000)]),
        Err(StoreError::InvalidSplit)
    );
    assert_eq!(
        store.set_split_owners(&alice, 1_000, vec![0], vec![part("c", 5_000), part("d", 4_999)]),
        Err(StoreError::InvalidSplit)
    );
    // 100 per record, two split owners, three tokens
    assert_eq!(
        store.set_split_owners(&alice, 599, vec![0, 1, 2], halves()),
        Err(StoreError::InsufficientFunds(600))
    );
    for token in &store.tokens {
        assert!(token.split_owners.is_none());
    }
    store.tokens[1].owner_id = Owner::Lock(acct("alice"));
    assert_eq!(
        store.set_split_owners(&alice, 1_000, vec![0, 1], halves()),
        Err(StoreError::Locked)
    );
    store.tokens[1].owner_id = Owner::TokenId(0);
    assert_eq!(
        store.set_split_owners(&alice, 1_000, vec![1], halves()),
        Err(StoreError::NotOwner)
    );
    assert!(store.tokens[0].split_owners.is_none());
    assert_eq!(store.set_split_owners(&alice, 400, vec![2, 0], halves()), Ok(()));
    assert!(store.tokens[0].split_owners.is_some());
    assert!(store.tokens[1].split_owners.is_none());
    assert!(store.tokens[2].split_owners.is_some());
    assert!(matches!(&store.tokens[0].owner_id, Owner::Account(a) if a == "alice"));
    assert_eq!(store.tokens[2].royalty_id, Some(0));
    assert_eq!(store.tokens[2].minter, "owner");
}

#[test]
fn split_cost_beyond_range_is_insufficient() {
    let costs = StorageCosts { storage_price_per_byte: 0, common: u128::MAX, token: 0 };
    let mut store = MintbaseStore::new(acct("owner"), costs);
    store.storage_costs.common = 0;
    store.nft_batch_mint(&acct("owner"), 1, 0, acct("alice"), acct("{}"), 0, 1, None, None).unwrap();
    store.storage_costs.common = u128::MAX;
    assert_eq!(
        store.set_split_owners(&acct("alice"), u128::MAX, vec![0], halves()),
        Err(StoreError::InsufficientFunds(u128::MAX))
    );
}

#[test]
fn royalty_of_a_token_is_that_of_its_batch() {
    let mut store = fresh();
    store.nft_batch_mint(&acct("owner"), 1, u128::MAX, acct("alice"), acct("{}"), 0, 2, None, None).unwrap();
    store
        .nft_batch_mint(
            &acct("owner"),
            1,
            u128::MAX,
            acct("alice"),
            acct("{}"),
            0,
            2,
            Some(ten_percent_to("bob")),
            None,
        )
        .unwrap();
    assert!(store.get_token_royalty(0).is_none());
    assert!(store.get_token_royalty(1).is_none());
    assert!(store.get_token_royalty(4).is_none());
    for id in [2u64, 3] {
        let royalty = store.get_token_royalty(id).unwrap();
        assert_eq!(royalty.percentage, 1_000);
        assert_eq!(royalty.split_between.len(), 1);
        assert_eq!(royalty.split_between[0].account, "bob");
        assert_eq!(royalty.split_between[0].numerator, 10_000);
    }
}

#[test]
fn transfer_payout_hands_over_and_uses_up_split() {
    let mut store = fresh();
    store
        .nft_batch_mint(
            &acct("owner"),
            1,
            u128::MAX,
            acct("alice"),
            acct("{}"),
            0,
            1,
            Some(ten_percent_to("bob")),
            Some(halves()),
        )
        .unwrap();
    let alice = acct("alice");
    assert_eq!(
        store.nft_transfer_payout(&alice, 0, acct("zed"), 0, 1000, 5).err(),
        Some(StoreError::NoDeposit)
    );
    assert_eq!(
        store.nft_transfer_payout(&alice, 2, acct("zed"), 0, 1000, 5).err(),
        Some(StoreError::NoDeposit)
    );
    assert_eq!(
        store.nft_transfer_payout(&alice, 1, acct("zed"), 9, 1000, 5).err(),
        Some(StoreError::NoSuchToken)
    );
    assert_eq!(
        store.nft_transfer_payout(&alice, 1, acct("zed"), 0, 1000, 2).err(),
        Some(StoreError::PayoutTooLong)
    );
    assert_eq!(
        store.nft_transfer_payout(&acct("eve"), 1, acct("zed"), 0, 1000, 5).err(),
        Some(StoreError::NotOwner)
    );
    assert!(matches!(&store.tokens[0].owner_id, Owner::Account(a) if a == "alice"));
    assert!(store.tokens[0].split_owners.is_some());
    let payout = store.nft_transfer_payout(&alice, 1, acct("zed"), 0, 1000, 3).unwrap();
    let paid: Vec<(String, u128)> =
        payout.payout.iter().map(|e| (e.account.clone(), e.amount)).collect();
    assert_eq!(paid, vec![(acct("bob"), 100), (acct("carol"), 450), (acct("dave"), 450)]);
    assert!(matches!(&store.tokens[0].owner_id, Owner::Account(a) if a == "zed"));
    assert!(store.tokens[0].split_owners.is_none());
    assert_eq!(store.tokens[0].royalty_id, Some(0));
    let next = store.nft_payout(0, 1000, 2).unwrap();
    let paid: Vec<(String, u128)> =
        next.payout.iter().map(|e| (e.account.clone(), e.amount)).collect();
    assert_eq!(paid, vec![(acct("bob"), 100), (acct("zed"), 900)]);
}

#[test]
fn update_token_keeps_the_rest() {
    let mut store = fresh();
    store.nft_batch_mint(&acct("owner"), 1, u128::MAX, acct("alice"), acct("{}"), 0, 2, None, None).unwrap();
    update_token(&mut store.tokens, 1, Owner::TokenId(0), None);
    assert!(matches!(&store.tokens[1].owner_id, Owner::TokenId(0)));
    assert_eq!(store.tokens[1].id, 1);
    assert_eq!(store.tokens[1].minter, "owner");
    assert!(matches!(&store.tokens[0].owner_id, Owner::Account(a) if a == "alice"));
}

#[test]
fn find_minter_gives_the_place() {
    let mut store = fresh();
    store.grant_minter(&acct("owner"), acct("alice")).unwrap();
    assert_eq!(store.find_minter(&acct("owner")), Some(0));
    assert_eq!(store.find_minter(&acct("alice")), Some(1));
    assert_eq!(store.find_minter(&acct("eve")), None);
}

#[test]
fn check_token_for_split_names_the_first_obstacle() {
    let mut store = fresh();
    store.nft_batch_mint(&acct("owner"), 1, u128::MAX, acct("alice"), acct("{}"), 0, 1, None, None).unwrap();
    let ids = vec![0u64, 0, 5];
    assert_eq!(store.check_token_for_split(&acct("alice"), &ids, 0, 2), None);
    assert_eq!(
        store.check_token_for_split(&acct("alice"), &ids, 1, 2),
        Some(StoreError::AlreadySplit)
    );
    assert_eq!(
        store.check_token_for_split(&acct("alice"), &ids, 2, 2),
        Some(StoreError::NoSuchToken)
    );
    assert_eq!(store.check_token_for_split(&acct("eve"), &ids, 0, 2), Some(StoreError::NotOwner));
    assert_eq!(
        store.check_token_for_split(&acct("alice"), &ids, 0, 51),
        Some(StoreError::PayoutTooLong)
    );
    assert_eq!(store.check_token_for_split(&acct("alice"), &ids, 0, 50), None);
}

#[test]
fn store_prices_a_batch() {
    let store = fresh();
    assert_eq!(store.storage_cost_to_mint(3, 50, 2, 4), Some(5_000));
    assert_eq!(store.storage_cost_to_mint(3, 50, 1, 2), Some(4_300));
    let dear = MintbaseStore::new(
        acct("owner"),
        StorageCosts { storage_price_per_byte: 1, common: u128::MAX, token: 1 },
    );
    assert_eq!(dear.storage_cost_to_mint(1, 1, 0, 0), None);
}

#[test]
fn tokens_per_owner_lists_ids_in_order() {
    let mut store = fresh();
    let owner = acct("owner");
    store.nft_batch_mint(&owner, 1, u128::MAX, acct("alice"), acct("{}"), 0, 2, None, None).unwrap();
    store.nft_batch_mint(&owner, 1, u128::MAX, acct("bob"), acct("{}"), 0, 1, None, None).unwrap();
    store.nft_batch_mint(&owner, 1, u128::MAX, acct("alice"), acct("{}"), 0, 2, None, None).unwrap();
    assert_eq!(store.tokens_per_owner(&acct("alice")), vec![0, 1, 3, 4]);
    assert_eq!(store.tokens_per_owner(&acct("bob")), vec![2]);
    assert_eq!(store.tokens_per_owner(&acct("eve")), Vec::<u64>::new());
    store.nft_transfer_payout(&acct("alice"), 1, acct("bob"), 1, 10, 5).unwrap();
    assert_eq!(store.tokens_per_owner(&acct("alice")), vec![0, 3, 4]);
    assert_eq!(store.tokens_per_owner(&acct("bob")), vec![1, 2]);
    store.tokens[0].owner_id = Owner::Lock(acct("alice"));
    assert_eq!(store.tokens_per_owner(&acct("alice")), vec![3, 4]);
}

#[test]
fn mint_files_metadata_once_per_batch() {
    let mut store = fresh();
    let owner = acct("owner");
    store
        .nft_batch_mint(&owner, 1, u128::MAX, acct("alice"), acct("{\"title\":\"a\"}"), 13, 2, None, None)
        .unwrap();
    store
        .nft_batch_mint(&owner, 1, u128::MAX, acct("alice"), acct("{\"title\":\"b\"}"), 13, 3, None, None)
        .unwrap();
    assert_eq!(store.token_metadata.len(), 2);
    assert_eq!(store.token_metadata[&0].tokens, 2);
    assert_eq!(store.token_metadata[&0].metadata, "{\"title\":\"a\"}");
    assert_eq!(store.token_metadata[&2].tokens, 3);
    assert_eq!(store.token_metadata[&2].metadata, "{\"title\":\"b\"}");
    assert_eq!(store.tokens[4].meta_id, 2);
    let refused = store.nft_batch_mint(&owner, 0, u128::MAX, acct("alice"), acct("{}"), 2, 1, None, None);
    assert_eq!(refused, Err(StoreError::NoDeposit));
    assert_eq!(store.token_metadata.len(), 2);
}

#[test]
fn split_request_is_looked_at_before_its_tokens() {
    let costs = StorageCosts { storage_price_per_byte: 0, common: 10, token: 0 };
    let mut store = MintbaseStore::new(acct("owner"), costs);
    store
        .nft_batch_mint(
            &acct("owner"),
            1,
            u128::MAX,
            acct("alice"),
            acct("{}"),
            0,
            2,
            Some(RoyaltyArgs { split_between: long_list("r", 48), percentage: 10 }),
            None,
        )
        .unwrap();
    let alice = acct("alice");
    let off = vec![part("carol", 5_000), part("dave", 4_999)];
    // the deposit comes before the sum of the shares
    assert_eq!(store.set_split_owners(&alice, 0, vec![0], off), Err(StoreError::InsufficientFunds(20)));
    let off = vec![part("carol", 5_000), part("dave", 4_999)];
    assert_eq!(store.set_split_owners(&alice, 19, vec![0], off), Err(StoreError::InsufficientFunds(20)));
    let off = vec![part("carol", 5_000), part("dave", 4_999)];
    assert_eq!(store.set_split_owners(&alice, 20, vec![0], off), Err(StoreError::InvalidSplit));
    // the number of entries comes before the deposit
    assert_eq!(
        store.set_split_owners(&alice, 0, vec![0], vec![part("carol", 10_000)]),
        Err(StoreError::InvalidSplit)
    );
    // the deposit comes before the tokens
    assert_eq!(
        store.set_split_owners(&acct("eve"), 39, vec![0, 9], halves()),
        Err(StoreError::InsufficientFunds(40))
    );
    assert_eq!(
        store.set_split_owners(&acct("eve"), 40, vec![9, 0], halves()),
        Err(StoreError::NoSuchToken)
    );
    // the sum of the shares comes before the tokens
    let mut long_off = long_list("s", 3);
    long_off[0].numerator += 1;
    assert_eq!(store.set_split_owners(&alice, 1_000, vec![0], long_off), Err(StoreError::InvalidSplit));
    assert_eq!(
        store.set_split_owners(&alice, 1_000, vec![0], long_list("s", 3)),
        Err(StoreError::PayoutTooLong)
    );
    // the cost grows with the tokens, and a deposit that equals it is enough
    assert_eq!(
        store.set_split_owners(&alice, 39, vec![0, 1], halves()),
        Err(StoreError::InsufficientFunds(40))
    );
    assert!(store.tokens[0].split_owners.is_none());
    assert!(store.tokens[1].split_owners.is_none());
    assert_eq!(store.set_split_owners(&alice, 40, vec![0, 1], halves()), Ok(()));
    assert!(store.tokens[0].split_owners.is_some());
    assert!(store.tokens[1].split_owners.is_some());
}
