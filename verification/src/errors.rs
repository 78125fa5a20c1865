use vstd::prelude::*;

verus! {

/// Why a request was refused. A refused request leaves the store as it was.
#[derive(Clone, Copy, Debug, PartialEq, Eq, Structural)]
pub enum StoreError {
    /// A royalty map is empty, too long, names an account twice, holds a zero
    /// share, does not sum to the whole, or takes more than the whole sale.
    InvalidFractions,
    /// A split map has fewer than two entries or fails the checks of a
    /// royalty map.
    InvalidSplit,
    /// The token already carries a split for its next sale.
    AlreadySplit,
    /// The token is locked until a cross-store operation resolves.
    Locked,
    /// The caller is not the account that owns the token.
    NotOwner,
    /// More recipients than the ceiling allows.
    PayoutTooLong,
    /// The token is owned by another token and has no direct payout.
    ComposedOwnerPayout,
    /// The covered funds are below the storage cost, which is carried here
    /// (saturated at the largest representable amount).
    InsufficientFunds(u128),
    /// The account holds no minting privilege: the caller of a mint, or
    /// the account to revoke.
    NotMinter,
    /// No deposit, or not the exact deposit asked for, was attached.
    NoDeposit,
    /// The store owner's own minting privilege cannot be revoked.
    CannotRevokeOwner,
    /// Only the store owner may grant or revoke minting privileges.
    NotStoreOwner,
    /// The number of tokens of a batch is zero or above the batch limit.
    BatchSizeOutOfRange,
    /// No token has this id.
    NoSuchToken,
    /// The request names no token at all.
    NoTokens,
}

} // verus!
