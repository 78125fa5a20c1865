use mintbase_store::costs::{check_admission, StorageCosts};
use mintbase_store::errors::StoreError;
use mintbase_store::fractions::{
    check_shares, clone_shares, Royalty, RoyaltyArgs, Share, SplitOwners, MAX_LEN_PAYOUT, WHOLE,
};
use mintbase_store::owner::{decimal_text, digit_text, Owner};

fn piece(account: &str, numerator: u32) -> Share {
    Share { account: account.to_string(), numerator }
}

fn many(count: u32) -> Vec<Share> {
    let mut shares = Vec::new();
    for i in 0..count {
        let numerator = if i == 0 { WHOLE - (count - 1) } else { 1 };
        shares.push(Share { account: format!("acct{}", i), numerator });
    }
    shares
}

#[test]
fn royalty_with_whole_sum_is_made() {
    let royalty = Royalty::new(RoyaltyArgs {
        split_between: vec![piece("a", 2_500), piece("b", 7_500)],
        percentage: 300,
    })
    .unwrap();
    assert_eq!(royalty.percentage, 300);
    let total: u32 = royalty.split_between.iter().map(|s| s.numerator).sum();
    assert_eq!(total, WHOLE);
    assert_eq!(royalty.split_between[1].account, "b");
    let copy = royalty.copy();
    assert_eq!(copy.percentage, 300);
    assert_eq!(copy.split_between.len(), 2);
    assert_eq!(copy.split_between[0].account, "a");
    assert_eq!(copy.split_between[0].numerator, 2_500);
}

#[test]
fn royalty_with_sum_off_by_one_is_refused() {
    for last in [7_499u32, 7_501] {
        let res = Royalty::new(RoyaltyArgs {
            split_between: vec![piece("a", 2_500), piece("b", last)],
            percentage: 300,
        });
        assert_eq!(res.err(), Some(StoreError::InvalidFractions));
    }
}

#[test]
fn royalty_that_is_malformed_is_refused() {
    let empty = Royalty::new(RoyaltyArgs { split_between: vec![], percentage: 300 });
    assert_eq!(empty.err(), Some(StoreError::InvalidFractions));
    let zero = Royalty::new(RoyaltyArgs {
        split_between: vec![piece("a", 0), piece("b", 10_000)],
        percentage: 300,
    });
    assert_eq!(zero.err(), Some(StoreError::InvalidFractions));
    let twice = Royalty::new(RoyaltyArgs {
        split_between: vec![piece("a", 5_000), piece("a", 5_000)],
        percentage: 300,
    });
    assert_eq!(twice.err(), Some(StoreError::InvalidFractions));
    let too_much = Royalty::new(RoyaltyArgs {
        split_between: vec![piece("a", 10_000)],
        percentage: 10_001,
    });
    assert_eq!(too_much.err(), Some(StoreError::InvalidFractions));
    let all = Royalty::new(RoyaltyArgs { split_between: vec![piece("a", 10_000)], percentage: 10_000 });
    assert!(all.is_ok());
    let none = Royalty::new(RoyaltyArgs { split_between: vec![piece("a", 10_000)], percentage: 0 });
    assert!(none.is_ok());
}

#[test]
fn royalty_length_is_bounded() {
    assert!(check_shares(&many(MAX_LEN_PAYOUT)));
    assert!(!check_shares(&many(MAX_LEN_PAYOUT + 1)));
    let res = Royalty::new(RoyaltyArgs { split_between: many(MAX_LEN_PAYOUT + 1), percentage: 1 });
    assert_eq!(res.err(), Some(StoreError::InvalidFractions));
}

#[test]
fn shares_with_huge_numerators_are_refused() {
    let shares = vec![piece("a", u32::MAX), piece("b", u32::MAX), piece("c", 10_002)];
    assert!(!check_shares(&shares));
}

#[test]
fn split_needs_two_owners() {
    let one = SplitOwners::new(vec![piece("a", 10_000)]);
    assert_eq!(one.err(), Some(StoreError::InvalidSplit));
    let none = SplitOwners::new(vec![]);
    assert_eq!(none.err(), Some(StoreError::InvalidSplit));
    let two = SplitOwners::new(vec![piece("a", 1), piece("b", 9_999)]).unwrap();
    assert_eq!(two.split_between.len(), 2);
    assert_eq!(two.copy().split_between[1].numerator, 9_999);
}

#[test]
fn split_with_sum_off_by_one_is_refused() {
    for last in [4_999u32, 5_001] {
        let res = SplitOwners::new(vec![piece("a", 5_000), piece("b", last)]);
        assert_eq!(res.err(), Some(StoreError::InvalidSplit));
    }
}

#[test]
fn clone_shares_keeps_every_entry() {
    let shares = vec![piece("a", 1), piece("b", 2)];
    let copy = clone_shares(&shares);
    assert_eq!(copy.len(), 2);
    assert_eq!(copy[0].account, "a");
    assert_eq!(copy[1].account, "b");
    assert_eq!(copy[1].numerator, 2);
}

#[test]
fn mint_cost_formula() {
    let costs = StorageCosts { storage_price_per_byte: 10, common: 100, token: 1_000 };
    assert_eq!(costs.estimate_mint_cost(3, 50, 2, 4), Some(5_000));
    assert_eq!(costs.estimate_mint_cost(0, 0, 0, 0), Some(100));
    assert_eq!(costs.estimate_mint_cost(1, 0, 0, 1), Some(1_200));
}

#[test]
fn mint_cost_beyond_range_is_none() {
    let costs = StorageCosts { storage_price_per_byte: u128::MAX, common: 1, token: 1 };
    assert_eq!(costs.estimate_mint_cost(1, 2, 0, 0), None);
    assert_eq!(costs.estimate_mint_cost(1, 1, 0, 0), None);
    assert_eq!(costs.estimate_mint_cost(1, 0, 0, 0), Some(2));
    let dear = StorageCosts { storage_price_per_byte: 0, common: u128::MAX, token: 0 };
    assert_eq!(dear.estimate_mint_cost(0, 0, 0, 5), Some(u128::MAX));
    assert_eq!(dear.estimate_mint_cost(1, 0, 0, 1), None);
}

#[test]
fn mint_cost_never_falls() {
    let costs = StorageCosts { storage_price_per_byte: 3, common: 7, token: 11 };
    let base = costs.estimate_mint_cost(2, 5, 1, 2).unwrap();
    assert!(costs.estimate_mint_cost(3, 5, 1, 2).unwrap() >= base);
    assert!(costs.estimate_mint_cost(2, 6, 1, 2).unwrap() >= base);
    assert!(costs.estimate_mint_cost(2, 5, 2, 2).unwrap() >= base);
    assert!(costs.estimate_mint_cost(2, 5, 1, 3).unwrap() >= base);
}

#[test]
fn admission_passes_iff_funds_reach_estimate() {
    assert_eq!(check_admission(100, 100), Ok(()));
    assert_eq!(check_admission(101, 100), Ok(()));
    assert_eq!(check_admission(99, 100), Err(StoreError::InsufficientFunds(100)));
    assert_eq!(check_admission(0, 0), Ok(()));
}

#[test]
fn owner_text() {
    assert_eq!(Owner::Account("alice.near".to_string()).to_text(), "alice.near");
    assert_eq!(Owner::TokenId(0).to_text(), "0");
    assert_eq!(Owner::TokenId(12_345).to_text(), "12345");
    assert_eq!(Owner::TokenId(u64::MAX).to_text(), u64::MAX.to_string());
    assert_eq!(Owner::CrossKey(42, "other.near".to_string()).to_text(), "42:other.near");
}

#[test]
fn decimal_digits() {
    assert_eq!(digit_text(0), "0");
    assert_eq!(digit_text(9), "9");
    assert_eq!(decimal_text(10), "10");
    assert_eq!(decimal_text(1_000_000), "1000000");
    assert_eq!(decimal_text(9_876_543_210), "9876543210");
}

#[test]
fn owner_copy_is_the_same_owner() {
    let lock = Owner::Lock("alice".to_string());
    assert!(matches!(lock.copy(), Owner::Lock(a) if a == "alice"));
    let key = Owner::CrossKey(3, "s".to_string());
    assert!(matches!(key.copy(), Owner::CrossKey(3, a) if a == "s"));
    assert!(matches!(Owner::TokenId(8).copy(), Owner::TokenId(8)));
}
