use vstd::prelude::*;
use vstd::arithmetic::div_mod::lemma_fundamental_div_mod;
use vstd::arithmetic::div_mod::lemma_hoist_over_denominator;
use crate::fractions::Entries;
use crate::fractions::Royalty;
use crate::fractions::RoyaltyView;
use crate::fractions::Share;
use crate::fractions::SplitOwners;
use crate::fractions::WHOLE;
use crate::fractions::distinct_accounts;
use crate::fractions::lemma_total_push;
use crate::fractions::shares_view;
use crate::fractions::total;
use crate::fractions::valid_royalty;
use crate::fractions::valid_split;

verus! {

/// The square of `WHOLE`: the denominator of a share of a share.
pub const WHOLE_SQUARED: u64 = 100_000_000;

/// The part `numerator / denominator` of a balance, rounded down.
pub open spec fn scaled(balance: nat, numerator: nat, denominator: nat) -> nat {
    (balance * numerator) / denominator
}

/// Computes the part `numerator / denominator` of a balance, rounded down,
/// without leaving the range of the balance.
pub fn scale(balance: u128, numerator: u64, denominator: u64) -> (amount: u128)
    requires
        0 < denominator <= WHOLE_SQUARED,
        numerator <= denominator,
    ensures
        amount == scaled(balance as nat, numerator as nat, denominator as nat),
        amount <= balance,
{
    let den: u128 = denominator as u128;
    let num: u128 = numerator as u128;
    let quotient: u128 = balance / den;
    let rest: u128 = balance % den;
    proof {
        lemma_fundamental_div_mod(balance as int, den as int);
        assert(quotient * num <= quotient * den) by (nonlinear_arith)
            requires
                num <= den,
        ;
        assert(den * quotient == quotient * den) by (nonlinear_arith);
        assert(rest * num <= rest * den) by (nonlinear_arith)
            requires
                num <= den,
        ;
        assert(rest * den <= 100_000_000 * 100_000_000) by (nonlinear_arith)
            requires
                rest < den,
                den <= 100_000_000,
        ;
        lemma_hoist_over_denominator(rest * num, quotient * num, den as nat);
        assert(rest * num + (quotient * num) * den == balance * num) by (nonlinear_arith)
            requires
                balance == den * quotient + rest,
        ;
        assert((balance * num) / (den as int) <= balance) by (nonlinear_arith)
            requires
                num <= den,
                0 < den,
                balance >= 0,
                num >= 0,
        ;
    }
    quotient * num + (rest * num) / den
}

/// One recipient of a sale and the amount that it receives.
#[derive(Debug)]
pub struct PayoutEntry {
    pub account: String,
    pub amount: u128,
}

impl View for PayoutEntry {
    type V = (Seq<char>, nat);

    open spec fn view(&self) -> (Seq<char>, nat) {
        (self.account@, self.amount as nat)
    }
}

/// The entries that a list of recipients stands for.
pub open spec fn entries_view(recipients: Seq<PayoutEntry>) -> Entries {
    Seq::new(recipients.len(), |i: int| recipients[i]@)
}

/// Whether an account stands in some entry.
pub open spec fn holds(entries: Entries, account: Seq<char>) -> bool {
    exists|i: int| 0 <= i < entries.len() && entries[i].0 == account
}

/// The place of an entry of the account, where there is one.
pub open spec fn place_of(entries: Entries, account: Seq<char>) -> int {
    choose|i: int| 0 <= i < entries.len() && entries[i].0 == account
}

/// The entries after an amount is given to an account: added to the
/// account's entry where it has one, else put in a new entry at the end.
pub open spec fn credited(entries: Entries, account: Seq<char>, amount: nat) -> Entries {
    if holds(entries, account) {
        let i = place_of(entries, account);
        entries.update(i, (account, entries[i].1 + amount))
    } else {
        entries.push((account, amount))
    }
}

/// Replacing the number of one entry changes the total by the difference.
pub proof fn lemma_total_update(entries: Entries, i: int, entry: (Seq<char>, nat))
    requires
        0 <= i < entries.len(),
    ensures
        total(entries.update(i, entry)) + entries[i].1 == total(entries) + entry.1,
    decreases entries.len(),
{
    let updated = entries.update(i, entry);
    if i == entries.len() - 1 {
        assert(updated.drop_last() == entries.drop_last());
    } else {
        assert(updated.drop_last() == entries.drop_last().update(i, entry));
        lemma_total_update(entries.drop_last(), i, entry);
    }
}

/// An amount given to an account raises the total by that amount.
pub proof fn lemma_credited_total(entries: Entries, account: Seq<char>, amount: nat)
    ensures
        total(credited(entries, account, amount)) == total(entries) + amount,
{
    if holds(entries, account) {
        let i = place_of(entries, account);
        lemma_total_update(entries, i, (account, entries[i].1 + amount));
    } else {
        lemma_total_push(entries, (account, amount));
    }
}

/// An amount given to an account leaves every account in one entry at most.
pub proof fn lemma_credited_distinct(entries: Entries, account: Seq<char>, amount: nat)
    requires
        distinct_accounts(entries),
    ensures
        distinct_accounts(credited(entries, account, amount)),
        credited(entries, account, amount).len() <= entries.len() + 1,
{
    let after = credited(entries, account, amount);
    if holds(entries, account) {
        let i = place_of(entries, account);
        assert forall|a: int, b: int| 0 <= a < b < after.len() implies after[a].0 != after[b].0 by {
            assert(after[a].0 == entries[a].0);
            assert(after[b].0 == entries[b].0);
        }
    } else {
        assert forall|a: int, b: int| 0 <= a < b < after.len() implies after[a].0 != after[b].0 by {
            if b < entries.len() {
                assert(after[a].0 == entries[a].0);
                assert(after[b].0 == entries[b].0);
            }
        }
    }
}

/// No entry's number is above the total.
pub proof fn lemma_entry_le_total(entries: Entries, i: int)
    requires
        0 <= i < entries.len(),
    ensures
        entries[i].1 <= total(entries),
    decreases entries.len(),
{
    if i < entries.len() - 1 {
        lemma_entry_le_total(entries.drop_last(), i);
    }
}

/// Gives an amount to an account: adds it to the account's entry where it
/// has one, else puts a new entry at the end.
pub fn credit(recipients: &mut Vec<PayoutEntry>, account: &String, amount: u128)
    requires
        distinct_accounts(entries_view(old(recipients)@)),
        total(entries_view(old(recipients)@)) + amount <= u128::MAX,
    ensures
        entries_view(final(recipients)@) == credited(
            entries_view(old(recipients)@),
            account@,
            amount as nat,
        ),
        distinct_accounts(entries_view(final(recipients)@)),
        total(entries_view(final(recipients)@)) == total(entries_view(old(recipients)@)) + amount,
{
    let ghost before = entries_view(recipients@);
    proof {
        lemma_credited_total(before, account@, amount as nat);
        lemma_credited_distinct(before, account@, amount as nat);
    }
    let mut i: usize = 0;
    while i < recipients.len()
        invariant
            i <= recipients.len(),
            before == entries_view(recipients@),
            before == entries_view(old(recipients)@),
            distinct_accounts(before),
            total(before) + amount <= u128::MAX,
            total(credited(before, account@, amount as nat)) == total(before) + amount,
            distinct_accounts(credited(before, account@, amount as nat)),
            forall|k: int| 0 <= k < i ==> before[k].0 != account@,
        decreases recipients.len() - i,
    {
        if recipients[i].account == *account {
            proof {
                assert(before[i as int].0 == account@);
                assert(holds(before, account@));
                lemma_entry_le_total(before, i as int);
                let p = place_of(before, account@);
                assert(p == i) by {
                    if p < i {
                        assert(before[p].0 != before[i as int].0);
                    } else if i < p {
                        assert(before[i as int].0 != before[p].0);
                    }
                }
            }
            let sum: u128 = recipients[i].amount + amount;
            recipients.set(i, PayoutEntry { account: account.clone(), amount: sum });
            assert(entries_view(recipients@) =~= credited(before, account@, amount as nat));
            return ;
        }
        i += 1;
    }
    assert(!holds(before, account@));
    recipients.push(PayoutEntry { account: account.clone(), amount });
    assert(entries_view(recipients@) =~= credited(before, account@, amount as nat));
}

/// What a list of shares receives of a base amount in all: each share the
/// part `factor * numerator / denominator` of the base, rounded down.
pub open spec fn paid(shares: Entries, base: nat, factor: nat, denominator: nat) -> nat
    decreases shares.len(),
{
    if shares.len() == 0 {
        0
    } else {
        paid(shares.drop_last(), base, factor, denominator) + scaled(
            base,
            factor * shares.last().1,
            denominator,
        )
    }
}

/// The entries after each share, in turn, was given its part of the base.
pub open spec fn credited_shares(
    entries: Entries,
    shares: Entries,
    base: nat,
    factor: nat,
    denominator: nat,
) -> Entries
    decreases shares.len(),
{
    if shares.len() == 0 {
        entries
    } else {
        credited(
            credited_shares(entries, shares.drop_last(), base, factor, denominator),
            shares.last().0,
            scaled(base, factor * shares.last().1, denominator),
        )
    }
}

/// Giving the shares their parts raises the total by what they receive,
/// keeps every account in one entry, and adds one entry per share at most.
pub proof fn lemma_credited_shares(
    entries: Entries,
    shares: Entries,
    base: nat,
    factor: nat,
    denominator: nat,
)
    requires
        distinct_accounts(entries),
    ensures
        total(credited_shares(entries, shares, base, factor, denominator)) == total(entries)
            + paid(shares, base, factor, denominator),
        distinct_accounts(credited_shares(entries, shares, base, factor, denominator)),
        credited_shares(entries, shares, base, factor, denominator).len() <= entries.len()
            + shares.len(),
    decreases shares.len(),
{
    if shares.len() > 0 {
        lemma_credited_shares(entries, shares.drop_last(), base, factor, denominator);
        let before = credited_shares(entries, shares.drop_last(), base, factor, denominator);
        let amount = scaled(base, factor * shares.last().1, denominator);
        lemma_credited_total(before, shares.last().0, amount);
        lemma_credited_distinct(before, shares.last().0, amount);
    }
}

/// What the shares receive, times the denominator, is at most the base times
/// the factor times the sum of the shares: rounding only takes away.
pub proof fn lemma_paid_bound(shares: Entries, base: nat, factor: nat, denominator: nat)
    requires
        denominator > 0,
    ensures
        paid(shares, base, factor, denominator) * denominator <= base * factor * total(shares),
    decreases shares.len(),
{
    if shares.len() == 0 {
        assert(0 * denominator <= base * factor * 0) by (nonlinear_arith);
    } else {
        lemma_paid_bound(shares.drop_last(), base, factor, denominator);
        let head = paid(shares.drop_last(), base, factor, denominator);
        let part = shares.last().1;
        let amount = scaled(base, factor * part, denominator);
        let sum = total(shares.drop_last());
        assert(amount * denominator <= base * (factor * part)) by (nonlinear_arith)
            requires
                amount == (base * (factor * part)) / denominator,
                denominator > 0,
        ;
        assert((head + amount) * denominator <= base * factor * (sum + part))
            by (nonlinear_arith)
            requires
                head * denominator <= base * factor * sum,
                amount * denominator <= base * (factor * part),
        ;
        assert(paid(shares, base, factor, denominator) == head + amount);
        assert(total(shares) == sum + part);
    }
}

/// Shares whose sum, times the factor, is within the denominator receive no
/// more than the base.
pub proof fn lemma_paid_le_base(shares: Entries, base: nat, factor: nat, denominator: nat)
    requires
        denominator > 0,
        factor * total(shares) <= denominator,
    ensures
        paid(shares, base, factor, denominator) <= base,
{
    lemma_paid_bound(shares, base, factor, denominator);
    let given = paid(shares, base, factor, denominator);
    let sum = total(shares);
    assert(given <= base) by (nonlinear_arith)
        requires
            given * denominator <= base * factor * sum,
            factor * sum <= denominator,
            denominator > 0,
    ;
}

/// The first entries of a list sum to no more than the whole list.
pub proof fn lemma_total_take(entries: Entries, n: int)
    requires
        0 <= n <= entries.len(),
    ensures
        total(entries.take(n)) <= total(entries),
    decreases entries.len(),
{
    if n == entries.len() {
        assert(entries.take(n) == entries);
    } else {
        assert(entries.drop_last().take(n) == entries.take(n));
        lemma_total_take(entries.drop_last(), n);
    }
}

/// Gives each share, in turn, its part `factor * numerator / denominator` of
/// the base, rounded down, and returns what was given in all.
pub fn credit_shares(
    recipients: &mut Vec<PayoutEntry>,
    shares: &Vec<Share>,
    base: u128,
    factor: u32,
    denominator: u64,
) -> (given: u128)
    requires
        distinct_accounts(entries_view(old(recipients)@)),
        total(entries_view(old(recipients)@)) + base <= u128::MAX,
        0 < denominator <= WHOLE_SQUARED,
        factor * total(shares_view(shares@)) <= denominator,
    ensures
        entries_view(final(recipients)@) == credited_shares(
            entries_view(old(recipients)@),
            shares_view(shares@),
            base as nat,
            factor as nat,
            denominator as nat,
        ),
        given == paid(shares_view(shares@), base as nat, factor as nat, denominator as nat),
        given <= base,
        distinct_accounts(entries_view(final(recipients)@)),
        total(entries_view(final(recipients)@)) == total(entries_view(old(recipients)@)) + given,
{
    let ghost start = entries_view(recipients@);
    let ghost s = shares_view(shares@);
    let mut given: u128 = 0;
    let mut i: usize = 0;
    while i < shares.len()
        invariant
            i <= shares.len(),
            s == shares_view(shares@),
            start == entries_view(old(recipients)@),
            0 < denominator <= WHOLE_SQUARED,
            factor * total(s) <= denominator,
            total(start) + base <= u128::MAX,
            entries_view(recipients@) == credited_shares(
                start,
                s.take(i as int),
                base as nat,
                factor as nat,
                denominator as nat,
            ),
            given == paid(s.take(i as int), base as nat, factor as nat, denominator as nat),
            given <= base,
            distinct_accounts(entries_view(recipients@)),
            total(entries_view(recipients@)) == total(start) + given,
        decreases shares.len() - i,
    {
        proof {
            let next = s.take(i + 1);
            assert(next.drop_last() == s.take(i as int));
            assert(next.last() == s[i as int]);
            lemma_total_take(s, i + 1);
            lemma_entry_le_total(next, i as int);
            let part = s[i as int].1;
            let sum = total(s);
            let upto = total(next);
            assert(factor * part <= factor * sum && factor * upto <= factor * sum)
                by (nonlinear_arith)
                requires
                    part <= upto,
                    upto <= sum,
            ;
            lemma_paid_le_base(next, base as nat, factor as nat, denominator as nat);
        }
        let numerator: u64 = (factor as u64) * (shares[i].numerator as u64);
        let amount: u128 = scale(base, numerator, denominator);
        credit(recipients, &shares[i].account, amount);
        given = given + amount;
        i += 1;
    }
    proof {
        assert(s.take(shares.len() as int) == s);
    }
    given
}

/// What a sale pays out: its recipients, each named once, with their amounts.
#[derive(Debug)]
pub struct Payout {
    pub payout: Vec<PayoutEntry>,
}

impl View for Payout {
    type V = Entries;

    open spec fn view(&self) -> Entries {
        entries_view(self.payout@)
    }
}

/// What a royalty is, where there is one.
pub open spec fn royalty_view(royalty: Option<Royalty>) -> Option<RoyaltyView> {
    match royalty {
        Some(r) => Some(r@),
        None => None,
    }
}

/// What a split is, where there is one.
pub open spec fn split_view(split: Option<SplitOwners>) -> Option<Entries> {
    match split {
        Some(s) => Some(s@),
        None => None,
    }
}

/// The receivers of a royalty; none where there is no royalty.
pub open spec fn royalty_shares(royalty: Option<RoyaltyView>) -> Entries {
    match royalty {
        Some(r) => r.split_between,
        None => Seq::empty(),
    }
}

/// The part of a sale that a royalty takes; nothing where there is none.
pub open spec fn royalty_percentage(royalty: Option<RoyaltyView>) -> nat {
    match royalty {
        Some(r) => r.percentage,
        None => 0,
    }
}

/// What the royalty receivers get of a sale in all.
pub open spec fn royalty_paid(royalty: Option<RoyaltyView>, balance: nat) -> nat {
    paid(royalty_shares(royalty), balance, royalty_percentage(royalty), WHOLE_SQUARED as nat)
}

/// What is left of a sale once the royalty is taken off the top.
pub open spec fn after_royalty(royalty: Option<RoyaltyView>, balance: nat) -> nat {
    (balance - royalty_paid(royalty, balance)) as nat
}

/// The payout of a sale of a token owned by an account.
///
/// Each royalty receiver gets `percentage * share / WHOLE²` of the balance,
/// rounded down. Each split owner gets `share / WHOLE` of what the royalty
/// left, rounded down. The owner gets all the rest: without a split what the
/// royalty left, with a split what rounding left (and no entry for nothing).
/// An account that is named more than once gets one entry with the sum.
pub open spec fn payout_entries(
    owner: Seq<char>,
    royalty: Option<RoyaltyView>,
    split: Option<Entries>,
    balance: nat,
) -> Entries {
    let royalties = credited_shares(
        Seq::empty(),
        royalty_shares(royalty),
        balance,
        royalty_percentage(royalty),
        WHOLE_SQUARED as nat,
    );
    let remaining = after_royalty(royalty, balance);
    match split {
        Some(s) => {
            let splits = credited_shares(royalties, s, remaining, 1, WHOLE as nat);
            let rest = (remaining - paid(s, remaining, 1, WHOLE as nat)) as nat;
            if rest > 0 {
                credited(splits, owner, rest)
            } else {
                splits
            }
        },
        None => credited(royalties, owner, remaining),
    }
}

/// The most entries a payout can have: one per royalty receiver, then one
/// per split owner or, without a split, one for the owner.
pub open spec fn payout_bound(royalty: Option<RoyaltyView>, split: Option<Entries>) -> nat {
    royalty_shares(royalty).len() + match split {
        Some(s) => s.len() + 1,
        None => 1,
    }
}

/// The amounts of a payout sum to the balance exactly, whatever rounding
/// took from the shares, and no account stands in it twice.
pub proof fn lemma_payout_sums_to_balance(
    owner: Seq<char>,
    royalty: Option<RoyaltyView>,
    split: Option<Entries>,
    balance: nat,
)
    requires
        royalty matches Some(r) ==> valid_royalty(r.split_between, r.percentage),
        split matches Some(s) ==> valid_split(s),
    ensures
        total(payout_entries(owner, royalty, split, balance)) == balance,
        distinct_accounts(payout_entries(owner, royalty, split, balance)),
        payout_entries(owner, royalty, split, balance).len() <= payout_bound(royalty, split),
        royalty_paid(royalty, balance) <= balance,
        split matches Some(s) ==> paid(s, after_royalty(royalty, balance), 1, WHOLE as nat)
            <= after_royalty(royalty, balance),
{
    let shares = royalty_shares(royalty);
    let percentage = royalty_percentage(royalty);
    let square = WHOLE_SQUARED as nat;
    let sum = total(shares);
    assert(percentage * sum <= square) by (nonlinear_arith)
        requires
            percentage <= 10_000,
            sum <= 10_000,
            square == 100_000_000,
    ;
    lemma_paid_le_base(shares, balance, percentage, square);
    lemma_credited_shares(Seq::empty(), shares, balance, percentage, square);
    let royalties = credited_shares(Seq::empty(), shares, balance, percentage, square);
    let remaining = after_royalty(royalty, balance);
    match split {
        Some(s) => {
            lemma_paid_le_base(s, remaining, 1, WHOLE as nat);
            lemma_credited_shares(royalties, s, remaining, 1, WHOLE as nat);
            let splits = credited_shares(royalties, s, remaining, 1, WHOLE as nat);
            let rest = (remaining - paid(s, remaining, 1, WHOLE as nat)) as nat;
            lemma_credited_total(splits, owner, rest);
            lemma_credited_distinct(splits, owner, rest);
        },
        None => {
            lemma_credited_total(royalties, owner, remaining);
            lemma_credited_distinct(royalties, owner, remaining);
        },
    }
}

/// What an account is owed by the entries: the number of its entry, or
/// nothing where it stands in none.
pub open spec fn owed(entries: Entries, account: Seq<char>) -> nat {
    if holds(entries, account) {
        entries[place_of(entries, account)].1
    } else {
        0
    }
}

/// Where no account stands twice, an entry of an account is its place.
pub proof fn lemma_place_unique(entries: Entries, account: Seq<char>, i: int)
    requires
        distinct_accounts(entries),
        0 <= i < entries.len(),
        entries[i].0 == account,
    ensures
        holds(entries, account),
        place_of(entries, account) == i,
        owed(entries, account) == entries[i].1,
{
    assert(holds(entries, account));
    let p = place_of(entries, account);
    if p < i {
        assert(entries[p].0 != entries[i].0);
    } else if i < p {
        assert(entries[i].0 != entries[p].0);
    }
}

/// An amount given to an account raises what that account is owed by the
/// amount, and leaves what any other is owed.
pub proof fn lemma_credited_owed(
    entries: Entries,
    account: Seq<char>,
    amount: nat,
    other: Seq<char>,
)
    requires
        distinct_accounts(entries),
    ensures
        owed(credited(entries, account, amount), other) == owed(entries, other) + if other
            == account {
            amount
        } else {
            0
        },
{
    let after = credited(entries, account, amount);
    lemma_credited_distinct(entries, account, amount);
    let n = entries.len() as int;
    if holds(entries, account) {
        let i = place_of(entries, account);
        if other == account {
            assert(after[i] == (account, entries[i].1 + amount));
            lemma_place_unique(after, account, i);
        } else if holds(entries, other) {
            let p = place_of(entries, other);
            assert(after[p] == entries[p]);
            lemma_place_unique(after, other, p);
        } else if holds(after, other) {
            let q = place_of(after, other);
            assert(after[q].0 == entries[q].0);
            assert(false);
        }
    } else {
        if other == account {
            assert(after[n] == (account, amount));
            lemma_place_unique(after, account, n);
        } else if holds(entries, other) {
            let p = place_of(entries, other);
            assert(after[p] == entries[p]);
            lemma_place_unique(after, other, p);
        } else if holds(after, other) {
            let q = place_of(after, other);
            assert(q < n);
            assert(after[q].0 == entries[q].0);
            assert(false);
        }
    }
}

/// What an account is owed by a list in which no account stands twice is
/// what the list without its last entry owes it, and the last entry's
/// number where that entry is the account's.
pub proof fn lemma_owed_drop_last(entries: Entries, account: Seq<char>)
    requires
        distinct_accounts(entries),
        entries.len() > 0,
    ensures
        distinct_accounts(entries.drop_last()),
        account == entries.last().0 ==> owed(entries.drop_last(), account) == 0 && owed(
            entries,
            account,
        ) == entries.last().1,
        account != entries.last().0 ==> owed(entries, account) == owed(
            entries.drop_last(),
            account,
        ),
{
    let front = entries.drop_last();
    let n = entries.len() - 1;
    assert forall|i: int, j: int| 0 <= i < j < front.len() implies front[i].0 != front[j].0 by {
        assert(front[i] == entries[i] && front[j] == entries[j]);
    }
    if account == entries.last().0 {
        lemma_place_unique(entries, account, n);
        if holds(front, account) {
            let p = place_of(front, account);
            assert(entries[p].0 == entries[n].0);
            assert(false);
        }
    } else if holds(front, account) {
        let p = place_of(front, account);
        assert(front[p] == entries[p]);
        lemma_place_unique(entries, account, p);
    } else if holds(entries, account) {
        let q = place_of(entries, account);
        assert(q < n);
        assert(front[q].0 == account);
        assert(false);
    }
}

/// After shares, none for an account twice, were given their parts of a
/// base amount, an account is owed what it was owed before and the part
/// of its own share, rounded down; nothing more where it has no share.
pub proof fn lemma_credited_shares_owed(
    entries: Entries,
    shares: Entries,
    base: nat,
    factor: nat,
    denominator: nat,
    account: Seq<char>,
)
    requires
        distinct_accounts(entries),
        distinct_accounts(shares),
        denominator > 0,
    ensures
        owed(credited_shares(entries, shares, base, factor, denominator), account) == owed(
            entries,
            account,
        ) + scaled(base, factor * owed(shares, account), denominator),
    decreases shares.len(),
{
    assert(factor * 0 == 0) by (nonlinear_arith);
    assert(base * 0 == 0) by (nonlinear_arith);
    assert(0int / (denominator as int) == 0) by (nonlinear_arith)
        requires
            denominator > 0,
    ;
    assert(scaled(base, factor * 0, denominator) == 0);
    if shares.len() > 0 {
        let front = shares.drop_last();
        let before = credited_shares(entries, front, base, factor, denominator);
        let amount = scaled(base, factor * shares.last().1, denominator);
        lemma_owed_drop_last(shares, account);
        lemma_credited_shares_owed(entries, front, base, factor, denominator, account);
        lemma_credited_shares(entries, front, base, factor, denominator);
        lemma_credited_owed(before, shares.last().0, amount, account);
    }
}

/// The owners of a split; none where there is no split.
pub open spec fn split_shares(split: Option<Entries>) -> Entries {
    match split {
        Some(s) => s,
        None => Seq::empty(),
    }
}

/// What an account receives of a sale for its shares: its royalty share
/// of the balance, and its split share of what the royalty left, each
/// rounded down, a share that it does not have counting as nothing.
pub open spec fn share_amount(
    account: Seq<char>,
    royalty: Option<RoyaltyView>,
    split: Option<Entries>,
    balance: nat,
) -> nat {
    scaled(
        balance,
        royalty_percentage(royalty) * owed(royalty_shares(royalty), account),
        WHOLE_SQUARED as nat,
    ) + scaled(
        after_royalty(royalty, balance),
        1 * owed(split_shares(split), account),
        WHOLE as nat,
    )
}

/// What is left of a sale for the owner once every share is paid.
pub open spec fn owner_rest(
    royalty: Option<RoyaltyView>,
    split: Option<Entries>,
    balance: nat,
) -> nat {
    (after_royalty(royalty, balance) - paid(
        split_shares(split),
        after_royalty(royalty, balance),
        1,
        WHOLE as nat,
    )) as nat
}

/// In a payout every account gets exactly what its shares give it, and the
/// owner gets, on top of that, all the rest: the owner alone takes up what
/// rounding leaves.
pub proof fn lemma_payout_amounts(
    owner: Seq<char>,
    royalty: Option<RoyaltyView>,
    split: Option<Entries>,
    balance: nat,
    account: Seq<char>,
)
    requires
        royalty matches Some(r) ==> valid_royalty(r.split_between, r.percentage),
        split matches Some(s) ==> valid_split(s),
    ensures
        owed(payout_entries(owner, royalty, split, balance), account) == share_amount(
            account,
            royalty,
            split,
            balance,
        ) + if account == owner {
            owner_rest(royalty, split, balance)
        } else {
            0
        },
{
    let shares = royalty_shares(royalty);
    let percentage = royalty_percentage(royalty);
    let square = WHOLE_SQUARED as nat;
    let whole = WHOLE as nat;
    let none = Seq::<(Seq<char>, nat)>::empty();
    let remaining = after_royalty(royalty, balance);
    assert(!holds(none, account));
    lemma_credited_shares_owed(none, shares, balance, percentage, square, account);
    lemma_credited_shares(none, shares, balance, percentage, square);
    let royalties = credited_shares(none, shares, balance, percentage, square);
    let owners = split_shares(split);
    lemma_credited_shares_owed(royalties, owners, remaining, 1, whole, account);
    lemma_credited_shares(royalties, owners, remaining, 1, whole);
    let splits = credited_shares(royalties, owners, remaining, 1, whole);
    let rest = owner_rest(royalty, split, balance);
    lemma_credited_owed(splits, owner, rest, account);
    match split {
        Some(s) => {},
        None => {
            assert(splits == royalties);
            assert(paid(owners, remaining, 1, whole) == 0);
        },
    }
}

/// Computes the payout of a sale of `balance` for a token that `owner` owns,
/// under the token's royalty and split, where it has them.
pub fn compute_payout(
    owner: &String,
    royalty: &Option<Royalty>,
    split_owners: &Option<SplitOwners>,
    balance: u128,
) -> (payout: Payout)
    requires
        royalty matches Some(r) ==> r.wf(),
        split_owners matches Some(s) ==> s.wf(),
    ensures
        payout@ == payout_entries(
            owner@,
            royalty_view(*royalty),
            split_view(*split_owners),
            balance as nat,
        ),
        total(payout@) == balance,
        distinct_accounts(payout@),
        payout@.len() <= payout_bound(royalty_view(*royalty), split_view(*split_owners)),
        forall|account: Seq<char>| #[trigger]
            owed(payout@, account) == share_amount(
                account,
                royalty_view(*royalty),
                split_view(*split_owners),
                balance as nat,
            ) + if account == owner@ {
                owner_rest(royalty_view(*royalty), split_view(*split_owners), balance as nat)
            } else {
                0
            },
{
    proof {
        lemma_payout_sums_to_balance(
            owner@,
            royalty_view(*royalty),
            split_view(*split_owners),
            balance as nat,
        );
        assert forall|account: Seq<char>| #[trigger]
            owed(
                payout_entries(
                    owner@,
                    royalty_view(*royalty),
                    split_view(*split_owners),
                    balance as nat,
                ),
                account,
            ) == share_amount(
                account,
                royalty_view(*royalty),
                split_view(*split_owners),
                balance as nat,
            ) + if account == owner@ {
                owner_rest(royalty_view(*royalty), split_view(*split_owners), balance as nat)
            } else {
                0
            } by {
            lemma_payout_amounts(
                owner@,
                royalty_view(*royalty),
                split_view(*split_owners),
                balance as nat,
                account,
            );
        }
    }
    let mut recipients: Vec<PayoutEntry> = Vec::new();
    assert(entries_view(recipients@) =~= Seq::empty());
    let taken: u128 = match royalty {
        Some(r) => {
            proof {
                let sum = total(shares_view(r.split_between@));
                assert(r.percentage * sum <= 100_000_000) by (nonlinear_arith)
                    requires
                        r.percentage <= 10_000,
                        sum <= 10_000,
                ;
            }
            credit_shares(&mut recipients, &r.split_between, balance, r.percentage, WHOLE_SQUARED)
        },
        None => 0,
    };
    let remaining: u128 = balance - taken;
    match split_owners {
        Some(s) => {
            let given: u128 = credit_shares(
                &mut recipients,
                &s.split_between,
                remaining,
                1,
                WHOLE as u64,
            );
            let rest: u128 = remaining - given;
            if rest > 0 {
                credit(&mut recipients, owner, rest);
            }
        },
        None => {
            credit(&mut recipients, owner, remaining);
        },
    }
    Payout { payout: recipients }
}

} // verus!
