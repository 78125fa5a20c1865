use vstd::prelude::*;
use crate::errors::StoreError;

verus! {

/// The most recipients that royalty and split of one token name together.
pub const MAX_LEN_PAYOUT: u32 = 50;

/// The numerator that stands for the whole: shares are parts of ten thousand.
pub const WHOLE: u32 = 10_000;

/// A list of accounts, each with a number: a share's numerator or an amount.
pub type Entries = Seq<(Seq<char>, nat)>;

/// One beneficiary and its share, in parts of `WHOLE`.
#[derive(Debug)]
pub struct Share {
    pub account: String,
    pub numerator: u32,
}

impl View for Share {
    type V = (Seq<char>, nat);

    open spec fn view(&self) -> (Seq<char>, nat) {
        (self.account@, self.numerator as nat)
    }
}

/// The entries that a list of shares stands for.
pub open spec fn shares_view(shares: Seq<Share>) -> Entries {
    Seq::new(shares.len(), |i: int| shares[i]@)
}

/// The sum of the numbers of all entries.
pub open spec fn total(entries: Entries) -> nat
    decreases entries.len(),
{
    if entries.len() == 0 {
        0
    } else {
        total(entries.drop_last()) + entries.last().1
    }
}

/// No account stands in two entries.
pub open spec fn distinct_accounts(entries: Entries) -> bool {
    forall|i: int, j: int| 0 <= i < j < entries.len() ==> entries[i].0 != entries[j].0
}

/// Every entry's number is above zero.
pub open spec fn all_positive(entries: Entries) -> bool {
    forall|i: int| 0 <= i < entries.len() ==> entries[i].1 > 0
}

/// A valid division of the whole: between one and `MAX_LEN_PAYOUT` accounts,
/// none named twice, each with a share above zero, all shares together
/// exactly `WHOLE`.
pub open spec fn valid_shares(entries: Entries) -> bool {
    &&& 0 < entries.len() <= MAX_LEN_PAYOUT
    &&& all_positive(entries)
    &&& distinct_accounts(entries)
    &&& total(entries) == WHOLE
}

/// The total of a list grows by the number of an entry added at its end.
pub proof fn lemma_total_push(entries: Entries, entry: (Seq<char>, nat))
    ensures
        total(entries.push(entry)) == total(entries) + entry.1,
{
    assert(entries.push(entry).drop_last() == entries);
}

/// Decides whether a list of shares is a valid division of the whole.
pub fn check_shares(shares: &Vec<Share>) -> (ok: bool)
    ensures
        ok == valid_shares(shares_view(shares@)),
{
    let n: usize = shares.len();
    if n == 0 || n > MAX_LEN_PAYOUT as usize {
        return false;
    }
    let ghost s = shares_view(shares@);
    let mut sum: u64 = 0;
    let mut i: usize = 0;
    while i < n
        invariant
            n == shares.len(),
            0 < n <= 50,
            i <= n,
            s == shares_view(shares@),
            sum == total(s.take(i as int)),
            sum <= i * 0xffff_ffff,
            forall|k: int| 0 <= k < i ==> s[k].1 > 0,
            forall|a: int, b: int| 0 <= a < b < i ==> s[a].0 != s[b].0,
        decreases n - i,
    {
        if shares[i].numerator == 0 {
            assert(s[i as int].1 == 0);
            return false;
        }
        let mut j: usize = 0;
        while j < i
            invariant
                j <= i,
                i < n,
                n == shares.len(),
                s == shares_view(shares@),
                forall|a: int| 0 <= a < j ==> s[a].0 != s[i as int].0,
            decreases i - j,
        {
            if shares[j].account == shares[i].account {
                assert(s[j as int].0 == s[i as int].0);
                return false;
            }
            j += 1;
        }
        proof {
            assert(s.take(i + 1).drop_last() == s.take(i as int));
        }
        sum = sum + shares[i].numerator as u64;
        i += 1;
    }
    proof {
        assert(s.take(n as int) == s);
    }
    sum == WHOLE as u64
}

/// A copy of a list of shares.
pub fn clone_shares(shares: &Vec<Share>) -> (copy: Vec<Share>)
    ensures
        shares_view(copy@) == shares_view(shares@),
{
    let mut copy: Vec<Share> = Vec::new();
    let mut i: usize = 0;
    while i < shares.len()
        invariant
            i <= shares.len(),
            copy.len() == i,
            forall|k: int| 0 <= k < i ==> copy[k]@ == shares[k]@,
        decreases shares.len() - i,
    {
        copy.push(Share { account: shares[i].account.clone(), numerator: shares[i].numerator });
        i += 1;
    }
    assert(shares_view(copy@) =~= shares_view(shares@));
    copy
}

/// A royalty as it is asked for, not yet checked.
#[derive(Debug)]
pub struct RoyaltyArgs {
    /// How the royalty is divided among its receivers.
    pub split_between: Vec<Share>,
    /// The part of every sale that the royalty takes, in parts of `WHOLE`.
    pub percentage: u32,
}

/// A perpetual claim on a part of every sale of the tokens of one batch.
#[derive(Debug)]
pub struct Royalty {
    /// How the royalty is divided among its receivers.
    pub split_between: Vec<Share>,
    /// The part of every sale that the royalty takes, in parts of `WHOLE`.
    pub percentage: u32,
}

/// What a royalty is: its division and the part of a sale that it takes.
pub struct RoyaltyView {
    pub split_between: Entries,
    pub percentage: nat,
}

impl View for Royalty {
    type V = RoyaltyView;

    open spec fn view(&self) -> RoyaltyView {
        RoyaltyView {
            split_between: shares_view(self.split_between@),
            percentage: self.percentage as nat,
        }
    }
}

/// A royalty is valid where its division is valid and it takes no more than
/// the whole sale.
pub open spec fn valid_royalty(split_between: Entries, percentage: nat) -> bool {
    valid_shares(split_between) && percentage <= WHOLE
}

impl Royalty {
    /// The invariant of every royalty that `new` has made.
    pub open spec fn wf(&self) -> bool {
        valid_royalty(self@.split_between, self@.percentage)
    }

    /// Checks a royalty and makes it; an invalid one is refused.
    pub fn new(args: RoyaltyArgs) -> (res: Result<Royalty, StoreError>)
        ensures
            res is Ok <==> valid_royalty(
                shares_view(args.split_between@),
                args.percentage as nat,
            ),
            res matches Ok(royalty) ==> royalty.wf() && royalty.split_between
                == args.split_between && royalty.percentage == args.percentage,
            res matches Ok(royalty) ==> total(royalty@.split_between) == WHOLE,
            total(shares_view(args.split_between@)) != WHOLE ==> res is Err,
            res matches Err(e) ==> e == StoreError::InvalidFractions,
    {
        if args.percentage > WHOLE || !check_shares(&args.split_between) {
            return Err(StoreError::InvalidFractions);
        }
        Ok(Royalty { split_between: args.split_between, percentage: args.percentage })
    }

    /// A copy of this royalty.
    pub fn copy(&self) -> (copy: Royalty)
        ensures
            copy@ == self@,
    {
        Royalty { split_between: clone_shares(&self.split_between), percentage: self.percentage }
    }
}

/// A claim on the next sale of one token, divided among its holders.
#[derive(Debug)]
pub struct SplitOwners {
    pub split_between: Vec<Share>,
}

impl View for SplitOwners {
    type V = Entries;

    open spec fn view(&self) -> Entries {
        shares_view(self.split_between@)
    }
}

/// A split is valid where it is a valid division among two accounts or more.
pub open spec fn valid_split(split_between: Entries) -> bool {
    split_between.len() >= 2 && valid_shares(split_between)
}

impl SplitOwners {
    /// The invariant of every split that `new` has made.
    pub open spec fn wf(&self) -> bool {
        valid_split(self@)
    }

    /// Checks a split and makes it; an invalid one is refused.
    pub fn new(split_between: Vec<Share>) -> (res: Result<SplitOwners, StoreError>)
        ensures
            res is Ok <==> valid_split(shares_view(split_between@)),
            res matches Ok(split) ==> split.wf() && split.split_between == split_between,
            res matches Ok(split) ==> total(split@) == WHOLE,
            total(shares_view(split_between@)) != WHOLE ==> res is Err,
            res matches Err(e) ==> e == StoreError::InvalidSplit,
    {
        if split_between.len() < 2 || !check_shares(&split_between) {
            return Err(StoreError::InvalidSplit);
        }
        Ok(SplitOwners { split_between })
    }

    /// A copy of this split.
    pub fn copy(&self) -> (copy: SplitOwners)
        ensures
            copy@ == self@,
    {
        SplitOwners { split_between: clone_shares(&self.split_between) }
    }
}

} // verus!
