use vstd::prelude::*;
use vstd::string::StringExecFns;

verus! {

/// Who controls a token.
#[derive(Debug)]
pub enum Owner {
    /// Owned by a user account.
    Account(String),
    /// Composed: owned by another token of this store.
    TokenId(u64),
    /// Cross-composed: owned by the token with this id on the store of this
    /// account.
    CrossKey(u64, String),
    /// Locked until a cross-store operation resolves; the account is the
    /// owner to go back to.
    Lock(String),
}

/// The character of a decimal digit.
pub open spec fn digit_char(digit: nat) -> char {
    if digit == 0 {
        '0'
    } else if digit == 1 {
        '1'
    } else if digit == 2 {
        '2'
    } else if digit == 3 {
        '3'
    } else if digit == 4 {
        '4'
    } else if digit == 5 {
        '5'
    } else if digit == 6 {
        '6'
    } else if digit == 7 {
        '7'
    } else if digit == 8 {
        '8'
    } else {
        '9'
    }
}

/// A number written in decimal digits, without leading zeros.
pub open spec fn decimal(n: nat) -> Seq<char>
    decreases n,
{
    if n < 10 {
        seq![digit_char(n)]
    } else {
        decimal(n / 10).push(digit_char(n % 10))
    }
}

/// The text of one decimal digit.
pub fn digit_text(digit: u64) -> (text: &'static str)
    requires
        digit < 10,
    ensures
        text@ == seq![digit_char(digit as nat)],
{
    proof {
        reveal_strlit("0");
        reveal_strlit("1");
        reveal_strlit("2");
        reveal_strlit("3");
        reveal_strlit("4");
        reveal_strlit("5");
        reveal_strlit("6");
        reveal_strlit("7");
        reveal_strlit("8");
        reveal_strlit("9");
    }
    let text: &'static str = if digit == 0 {
        "0"
    } else if digit == 1 {
        "1"
    } else if digit == 2 {
        "2"
    } else if digit == 3 {
        "3"
    } else if digit == 4 {
        "4"
    } else if digit == 5 {
        "5"
    } else if digit == 6 {
        "6"
    } else if digit == 7 {
        "7"
    } else if digit == 8 {
        "8"
    } else {
        "9"
    };
    assert(text@ =~= seq![digit_char(digit as nat)]);
    text
}

/// Writes a number in decimal digits.
pub fn decimal_text(n: u64) -> (text: String)
    ensures
        text@ == decimal(n as nat),
    decreases n,
{
    if n < 10 {
        String::from_str(digit_text(n))
    } else {
        let mut text: String = decimal_text(n / 10);
        text.append(digit_text(n % 10));
        assert(text@ =~= decimal(n as nat));
        text
    }
}

impl Owner {
    /// The text that names this owner as the receiver of a payout: an
    /// account by its name, a token of this store by its id in decimal, a
    /// token of another store by its id, a colon and that store's account.
    /// A locked owner has no such text.
    pub open spec fn text(&self) -> Seq<char> {
        match *self {
            Owner::Account(account) => account@,
            Owner::TokenId(id) => decimal(id as nat),
            Owner::CrossKey(id, account) => decimal(id as nat) + seq![':'] + account@,
            Owner::Lock(_) => Seq::empty(),
        }
    }

    /// Writes the text that names this owner, which must not be locked.
    pub fn to_text(&self) -> (text: String)
        requires
            !(self is Lock),
        ensures
            text@ == self.text(),
    {
        match self {
            Owner::Account(account) => account.clone(),
            Owner::TokenId(id) => decimal_text(*id),
            Owner::CrossKey(id, account) => {
                let mut text: String = decimal_text(*id);
                proof {
                    reveal_strlit(":");
                }
                text.append(":");
                text.append(account.as_str());
                assert(text@ =~= self.text());
                text
            },
            Owner::Lock(account) => account.clone(),
        }
    }

    /// A copy of this owner.
    pub fn copy(&self) -> (copy: Owner)
        ensures
            copy == *self,
    {
        match self {
            Owner::Account(account) => Owner::Account(account.clone()),
            Owner::TokenId(id) => Owner::TokenId(*id),
            Owner::CrossKey(id, account) => Owner::CrossKey(*id, account.clone()),
            Owner::Lock(account) => Owner::Lock(account.clone()),
        }
    }
}

} // verus!
