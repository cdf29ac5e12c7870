//! The ledger: what each user holds of each asset, available and locked.

use crate::engine::error::EngineError;
use crate::sums::{
    lemma_sum_over_agree, lemma_sum_over_change, lemma_sum_over_insert, sum_over,
};
use std::collections::HashMap;
use vstd::pervasive::unreached;
use vstd::prelude::*;

verus! {

/// The assets of the market.
#[derive(Clone, Copy, Debug, PartialEq, Eq, Structural)]
pub enum AssetCode {
    Btc,
    Usdc,
}

/// What a user holds of one asset: `available` can be spent, `locked` is
/// reserved against the user's resting orders.
#[derive(Clone, Copy, Debug, PartialEq, Eq, Structural)]
pub struct AssetBalance {
    pub available: u64,
    pub locked: u64,
}

impl AssetCode {
    /// The asset that goes by `name`: `BTC` or `USDC`, in capitals.
    pub open spec fn named(name: Seq<char>) -> Option<AssetCode> {
        if name == "BTC"@ {
            Some(AssetCode::Btc)
        } else if name == "USDC"@ {
            Some(AssetCode::Usdc)
        } else {
            None
        }
    }

    /// The asset that goes by `name`, if the market trades one of that name.
    pub fn from_name(name: &String) -> (code: Option<AssetCode>)
        ensures
            code == AssetCode::named(name@),
    {
        if *name == "BTC".to_string() {
            Some(AssetCode::Btc)
        } else if *name == "USDC".to_string() {
            Some(AssetCode::Usdc)
        } else {
            None
        }
    }

    /// The name of the asset.
    pub open spec fn spelled(self) -> Seq<char> {
        match self {
            AssetCode::Btc => "BTC"@,
            AssetCode::Usdc => "USDC"@,
        }
    }

    /// The name of the asset.
    pub fn name(&self) -> (name: String)
        ensures
            name@ == self.spelled(),
            AssetCode::named(name@) == Some(*self),
    {
        let name = match self {
            AssetCode::Btc => "BTC".to_string(),
            AssetCode::Usdc => "USDC".to_string(),
        };
        proof {
            reveal_strlit("BTC");
            reveal_strlit("USDC");
            assert("BTC"@.len() != "USDC"@.len());
        }
        name
    }
}

impl AssetBalance {
    /// Available and locked together.
    pub open spec fn total(self) -> int {
        self.available + self.locked
    }
}

/// A user's account: one balance for each asset of the market.
#[derive(Clone, Copy, Debug, PartialEq, Eq, Structural)]
pub struct UserBalance {
    pub btc: AssetBalance,
    pub usdc: AssetBalance,
}

impl UserBalance {
    /// The balance held of `code`.
    pub open spec fn of(self, code: AssetCode) -> AssetBalance {
        match code {
            AssetCode::Btc => self.btc,
            AssetCode::Usdc => self.usdc,
        }
    }

    /// This account with the balance of `code` replaced.
    pub open spec fn with(self, code: AssetCode, balance: AssetBalance) -> UserBalance {
        match code {
            AssetCode::Btc => UserBalance { btc: balance, usdc: self.usdc },
            AssetCode::Usdc => UserBalance { btc: self.btc, usdc: balance },
        }
    }

    /// The account of a new user: nothing of any asset.
    pub open spec fn empty() -> UserBalance {
        UserBalance {
            btc: AssetBalance { available: 0, locked: 0 },
            usdc: AssetBalance { available: 0, locked: 0 },
        }
    }

    /// The account of a new user.
    pub fn new() -> (account: UserBalance)
        ensures
            account == UserBalance::empty(),
    {
        UserBalance {
            btc: AssetBalance { available: 0, locked: 0 },
            usdc: AssetBalance { available: 0, locked: 0 },
        }
    }

    /// The balance held of `code`.
    pub fn get(&self, code: AssetCode) -> (balance: AssetBalance)
        ensures
            balance == self.of(code),
    {
        match code {
            AssetCode::Btc => self.btc,
            AssetCode::Usdc => self.usdc,
        }
    }

    /// Replaces the balance held of `code`.
    pub fn set(&mut self, code: AssetCode, balance: AssetBalance)
        ensures
            *final(self) == old(self).with(code, balance),
    {
        match code {
            AssetCode::Btc => {
                self.btc = balance;
            },
            AssetCode::Usdc => {
                self.usdc = balance;
            },
        }
    }
}

/// What `user` holds of `code` in all, as a function of the user.
pub open spec fn holdings(users: Map<u128, UserBalance>, code: AssetCode) -> spec_fn(u128) -> int {
    |user: u128| users[user].of(code).total()
}

/// What all users together hold of `code`, available and locked.
pub open spec fn supply(users: Map<u128, UserBalance>, code: AssetCode) -> int {
    sum_over(users.dom(), holdings(users, code))
}

/// `users` after `amount` of `code` was added to what `user` has available.
pub open spec fn credited(
    users: Map<u128, UserBalance>,
    user: u128,
    code: AssetCode,
    amount: u64,
) -> Map<u128, UserBalance> {
    let b = users[user].of(code);
    users.insert(
        user,
        users[user].with(
            code,
            AssetBalance { available: (b.available + amount) as u64, locked: b.locked },
        ),
    )
}

/// `users` after `amount` of `code` was taken out of what `user` has locked.
pub open spec fn debited(
    users: Map<u128, UserBalance>,
    user: u128,
    code: AssetCode,
    amount: u64,
) -> Map<u128, UserBalance> {
    let b = users[user].of(code);
    users.insert(
        user,
        users[user].with(
            code,
            AssetBalance { available: b.available, locked: (b.locked - amount) as u64 },
        ),
    )
}

/// `users` after `user` moved `amount` of `code` from available to locked.
pub open spec fn reserved(
    users: Map<u128, UserBalance>,
    user: u128,
    code: AssetCode,
    amount: u64,
) -> Map<u128, UserBalance> {
    let b = users[user].of(code);
    users.insert(
        user,
        users[user].with(
            code,
            AssetBalance {
                available: (b.available - amount) as u64,
                locked: (b.locked + amount) as u64,
            },
        ),
    )
}

/// `users` after `user` moved `amount` of `code` from locked back to
/// available.
pub open spec fn released(
    users: Map<u128, UserBalance>,
    user: u128,
    code: AssetCode,
    amount: u64,
) -> Map<u128, UserBalance> {
    let b = users[user].of(code);
    users.insert(
        user,
        users[user].with(
            code,
            AssetBalance {
                available: (b.available + amount) as u64,
                locked: (b.locked - amount) as u64,
            },
        ),
    )
}

/// `users` after `amount` of `code` left what `from` has locked and
/// arrived in what `to` has available. The two may be the same user.
pub open spec fn transferred(
    users: Map<u128, UserBalance>,
    from: u128,
    to: u128,
    code: AssetCode,
    amount: u64,
) -> Map<u128, UserBalance> {
    credited(debited(users, from, code, amount), to, code, amount)
}

/// Replacing one account changes the supply by the change in that account.
pub proof fn lemma_supply_replace(
    users: Map<u128, UserBalance>,
    user: u128,
    account: UserBalance,
    code: AssetCode,
)
    requires
        users.dom().finite(),
        users.contains_key(user),
    ensures
        supply(users.insert(user, account), code) == supply(users, code) - users[user].of(
            code,
        ).total() + account.of(code).total(),
{
    let after = users.insert(user, account);
    assert(after.dom() =~= users.dom());
    lemma_sum_over_change(users.dom(), holdings(users, code), holdings(after, code), user);
}

/// A new account adds what it holds to the supply.
pub proof fn lemma_supply_add(
    users: Map<u128, UserBalance>,
    user: u128,
    account: UserBalance,
    code: AssetCode,
)
    requires
        users.dom().finite(),
        !users.contains_key(user),
    ensures
        supply(users.insert(user, account), code) == supply(users, code) + account.of(code).total(),
{
    let after = users.insert(user, account);
    assert(after.dom() =~= users.dom().insert(user));
    lemma_sum_over_insert(users.dom(), holdings(after, code), user);
    lemma_sum_over_agree(users.dom(), holdings(users, code), holdings(after, code));
}

/// What a transfer does to the accounts: the users stay the same, the
/// payer has `amount` less locked, and nothing else that is locked changes.
pub proof fn lemma_transferred(
    users: Map<u128, UserBalance>,
    from: u128,
    to: u128,
    code: AssetCode,
    amount: u64,
)
    requires
        users.contains_key(from),
        users.contains_key(to),
        amount <= users[from].of(code).locked,
    ensures
        transferred(users, from, to, code, amount).dom() == users.dom(),
        forall|user: u128| #[trigger]
            users.contains_key(user) ==> {
                let before = users[user];
                let after = transferred(users, from, to, code, amount)[user];
                &&& after.of(code).locked == before.of(code).locked - (if user == from {
                    amount as int
                } else {
                    0
                })
                &&& forall|other: AssetCode| other != code ==> after.of(other) == before.of(other)
            },
{
    let mid = debited(users, from, code, amount);
    let after = transferred(users, from, to, code, amount);
    assert(mid.dom() =~= users.dom());
    assert(after.dom() =~= users.dom());
}

/// What a reservation does to the accounts: the users stay the same, the
/// user has `amount` more locked, and nothing else that is locked changes.
pub proof fn lemma_reserved(users: Map<u128, UserBalance>, who: u128, code: AssetCode, amount: u64)
    requires
        users.contains_key(who),
        amount <= users[who].of(code).available,
        users[who].of(code).locked + amount <= u64::MAX,
    ensures
        reserved(users, who, code, amount).dom() == users.dom(),
        forall|user: u128| #[trigger]
            users.contains_key(user) ==> {
                let before = users[user];
                let after = reserved(users, who, code, amount)[user];
                &&& after.of(code).locked == before.of(code).locked + (if user == who {
                    amount as int
                } else {
                    0
                })
                &&& forall|other: AssetCode| other != code ==> after.of(other) == before.of(other)
            },
{
    assert(reserved(users, who, code, amount).dom() =~= users.dom());
}

/// What a release does to the accounts: the users stay the same, the user
/// has `amount` less locked, and nothing else that is locked changes.
pub proof fn lemma_released(users: Map<u128, UserBalance>, who: u128, code: AssetCode, amount: u64)
    requires
        users.contains_key(who),
        amount <= users[who].of(code).locked,
    ensures
        released(users, who, code, amount).dom() == users.dom(),
        forall|user: u128| #[trigger]
            users.contains_key(user) ==> {
                let before = users[user];
                let after = released(users, who, code, amount)[user];
                &&& after.of(code).locked == before.of(code).locked - (if user == who {
                    amount as int
                } else {
                    0
                })
                &&& forall|other: AssetCode| other != code ==> after.of(other) == before.of(other)
            },
{
    assert(released(users, who, code, amount).dom() =~= users.dom());
}

/// A transfer whose credit fits in 64 bits leaves the supply of every
/// asset as it was.
pub proof fn lemma_transferred_supply(
    users: Map<u128, UserBalance>,
    from: u128,
    to: u128,
    code: AssetCode,
    amount: u64,
    of: AssetCode,
)
    requires
        users.dom().finite(),
        users.contains_key(from),
        users.contains_key(to),
        amount <= users[from].of(code).locked,
        users[to].of(code).available + amount <= u64::MAX,
    ensures
        supply(transferred(users, from, to, code, amount), of) == supply(users, of),
{
    let mid = debited(users, from, code, amount);
    assert(mid.dom() =~= users.dom());
    lemma_supply_replace(users, from, mid[from], AssetCode::Btc);
    lemma_supply_replace(users, from, mid[from], AssetCode::Usdc);
    assert(mid[to].of(code).available == users[to].of(code).available);
    let after = credited(mid, to, code, amount);
    lemma_supply_replace(mid, to, after[to], AssetCode::Btc);
    lemma_supply_replace(mid, to, after[to], AssetCode::Usdc);
}

/// A reservation that fits in 64 bits leaves the supply of every asset as
/// it was.
pub proof fn lemma_reserved_supply(
    users: Map<u128, UserBalance>,
    who: u128,
    code: AssetCode,
    amount: u64,
    of: AssetCode,
)
    requires
        users.dom().finite(),
        users.contains_key(who),
        amount <= users[who].of(code).available,
        users[who].of(code).locked + amount <= u64::MAX,
    ensures
        supply(reserved(users, who, code, amount), of) == supply(users, of),
{
    let after = reserved(users, who, code, amount);
    lemma_supply_replace(users, who, after[who], AssetCode::Btc);
    lemma_supply_replace(users, who, after[who], AssetCode::Usdc);
}

/// A release that fits in 64 bits leaves the supply of every asset as it
/// was.
pub proof fn lemma_released_supply(
    users: Map<u128, UserBalance>,
    who: u128,
    code: AssetCode,
    amount: u64,
    of: AssetCode,
)
    requires
        users.dom().finite(),
        users.contains_key(who),
        amount <= users[who].of(code).locked,
        users[who].of(code).available + amount <= u64::MAX,
    ensures
        supply(released(users, who, code, amount), of) == supply(users, of),
{
    let after = released(users, who, code, amount);
    lemma_supply_replace(users, who, after[who], AssetCode::Btc);
    lemma_supply_replace(users, who, after[who], AssetCode::Usdc);
}

/// A deposit that fits in 64 bits adds its amount to the supply of its
/// asset and leaves the supply of the other as it was.
pub proof fn lemma_credited_supply(
    users: Map<u128, UserBalance>,
    who: u128,
    code: AssetCode,
    amount: u64,
    of: AssetCode,
)
    requires
        users.dom().finite(),
        users.contains_key(who),
        users[who].of(code).available + amount <= u64::MAX,
    ensures
        supply(credited(users, who, code, amount), of) == supply(users, of) + (if of == code {
            amount as int
        } else {
            0
        }),
{
    let after = credited(users, who, code, amount);
    lemma_supply_replace(users, who, after[who], AssetCode::Btc);
    lemma_supply_replace(users, who, after[who], AssetCode::Usdc);
}

/// The ledger: the account of each user.
pub struct Balances {
    users: HashMap<u128, UserBalance>,
}

impl View for Balances {
    type V = Map<u128, UserBalance>;

    /// The accounts, by user.
    closed spec fn view(&self) -> Map<u128, UserBalance> {
        self.users@
    }
}

impl Balances {
    /// A ledger without users.
    pub fn new() -> (ledger: Balances)
        ensures
            ledger@ == Map::<u128, UserBalance>::empty(),
    {
        Balances { users: HashMap::new() }
    }

    /// Puts the account of `user` back to what it was: `account`.
    pub(crate) fn restore(&mut self, user: u128, account: UserBalance)
        ensures
            final(self)@ == old(self)@.insert(user, account),
    {
        self.users.insert(user, account);
    }

    /// Whether `user` has an account.
    pub fn contains(&self, user: u128) -> (known: bool)
        ensures
            known == self@.contains_key(user),
    {
        self.users.contains_key(&user)
    }

    /// A copy of the account of `user`, if there is one.
    pub fn get(&self, user: u128) -> (account: Option<UserBalance>)
        ensures
            account == (if self@.contains_key(user) {
                Some(self@[user])
            } else {
                None
            }),
    {
        match self.users.get(&user) {
            Some(account) => Some(*account),
            None => None,
        }
    }

    /// Opens an empty account for `user`, unless the user has one.
    pub fn open_account(&mut self, user: u128) -> (opened: bool)
        ensures
            opened == !old(self)@.contains_key(user),
            final(self)@ == (if opened {
                old(self)@.insert(user, UserBalance::empty())
            } else {
                old(self)@
            }),
            forall|code: AssetCode| supply(final(self)@, code) == supply(old(self)@, code),
    {
        if self.users.contains_key(&user) {
            return false;
        }
        proof {
            lemma_supply_add(self@, user, UserBalance::empty(), AssetCode::Btc);
            lemma_supply_add(self@, user, UserBalance::empty(), AssetCode::Usdc);
        }
        self.users.insert(user, UserBalance::new());
        true
    }

    /// Adds `amount` of `code` to what `user` has available. Refused where
    /// the user is unknown, and where what the user has available would no
    /// longer fit in 64 bits.
    pub fn deposit(&mut self, user: u128, code: AssetCode, amount: u64) -> (done: Result<
        (),
        EngineError,
    >)
        ensures
            done == (if !old(self)@.contains_key(user) {
                Err(EngineError::UnknownUser)
            } else if old(self)@[user].of(code).available + amount > u64::MAX {
                Err(EngineError::Overflow)
            } else {
                Ok(())
            }),
            final(self)@ == (if done is Ok {
                credited(old(self)@, user, code, amount)
            } else {
                old(self)@
            }),
            forall|other: AssetCode|
                supply(final(self)@, other) == supply(old(self)@, other) + (if done is Ok && other
                    == code {
                    amount as int
                } else {
                    0
                }),
    {
        let mut account = match self.users.get(&user) {
            Some(account) => *account,
            None => {
                return Err(EngineError::UnknownUser);
            },
        };
        let balance = account.get(code);
        if amount > u64::MAX - balance.available {
            return Err(EngineError::Overflow);
        }
        proof {
            lemma_credited_supply(self@, user, code, amount, AssetCode::Btc);
            lemma_credited_supply(self@, user, code, amount, AssetCode::Usdc);
        }
        account.set(
            code,
            AssetBalance { available: balance.available + amount, locked: balance.locked },
        );
        self.users.insert(user, account);
        Ok(())
    }

    /// Moves `amount` of `code` from what `user` has available to what the
    /// user has locked. Refused where the user is unknown, where the user
    /// has less than `amount` available, and where what the user has locked
    /// would no longer fit in 64 bits.
    pub fn lock(&mut self, user: u128, code: AssetCode, amount: u64) -> (done: Result<
        (),
        EngineError,
    >)
        ensures
            done == (if !old(self)@.contains_key(user) {
                Err(EngineError::UnknownUser)
            } else if old(self)@[user].of(code).available < amount {
                Err(EngineError::InsufficientFunds)
            } else if old(self)@[user].of(code).locked + amount > u64::MAX {
                Err(EngineError::Overflow)
            } else {
                Ok(())
            }),
            final(self)@ == (if done is Ok {
                reserved(old(self)@, user, code, amount)
            } else {
                old(self)@
            }),
            forall|other: AssetCode| supply(final(self)@, other) == supply(old(self)@, other),
    {
        let mut account = match self.users.get(&user) {
            Some(account) => *account,
            None => {
                return Err(EngineError::UnknownUser);
            },
        };
        let balance = account.get(code);
        if balance.available < amount {
            return Err(EngineError::InsufficientFunds);
        }
        if amount > u64::MAX - balance.locked {
            return Err(EngineError::Overflow);
        }
        proof {
            lemma_reserved_supply(self@, user, code, amount, AssetCode::Btc);
            lemma_reserved_supply(self@, user, code, amount, AssetCode::Usdc);
        }
        account.set(
            code,
            AssetBalance {
                available: balance.available - amount,
                locked: balance.locked + amount,
            },
        );
        self.users.insert(user, account);
        Ok(())
    }

    /// Moves `amount` of `code` from what `user` has locked back to what the
    /// user has available.
    pub fn unlock(&mut self, user: u128, code: AssetCode, amount: u64)
        requires
            old(self)@.contains_key(user),
            amount <= old(self)@[user].of(code).locked,
            old(self)@[user].of(code).available + amount <= u64::MAX,
        ensures
            final(self)@ == released(old(self)@, user, code, amount),
            forall|other: AssetCode| supply(final(self)@, other) == supply(old(self)@, other),
    {
        let mut account = match self.users.get(&user) {
            Some(account) => *account,
            None => unreached(),
        };
        let balance = account.get(code);
        proof {
            lemma_released_supply(self@, user, code, amount, AssetCode::Btc);
            lemma_released_supply(self@, user, code, amount, AssetCode::Usdc);
        }
        account.set(
            code,
            AssetBalance {
                available: balance.available + amount,
                locked: balance.locked - amount,
            },
        );
        self.users.insert(user, account);
    }

    /// Settles one leg of a trade: `amount` of `code` leaves what `from` has
    /// locked and arrives in what `to` has available.
    pub fn transfer(&mut self, from: u128, to: u128, code: AssetCode, amount: u64)
        requires
            old(self)@.contains_key(from),
            old(self)@.contains_key(to),
            amount <= old(self)@[from].of(code).locked,
            old(self)@[to].of(code).available + amount <= u64::MAX,
        ensures
            final(self)@ == transferred(old(self)@, from, to, code, amount),
            forall|other: AssetCode| supply(final(self)@, other) == supply(old(self)@, other),
    {
        proof {
            lemma_transferred_supply(self@, from, to, code, amount, AssetCode::Btc);
            lemma_transferred_supply(self@, from, to, code, amount, AssetCode::Usdc);
        }
        let mut payer = match self.users.get(&from) {
            Some(account) => *account,
            None => unreached(),
        };
        let paying = payer.get(code);
        payer.set(
            code,
            AssetBalance { available: paying.available, locked: paying.locked - amount },
        );
        self.users.insert(from, payer);
        let mut payee = match self.users.get(&to) {
            Some(account) => *account,
            None => unreached(),
        };
        let receiving = payee.get(code);
        payee.set(
            code,
            AssetBalance { available: receiving.available + amount, locked: receiving.locked },
        );
        self.users.insert(to, payee);
    }
}

} // verus!
