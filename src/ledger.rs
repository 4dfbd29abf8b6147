//! The token ledger: balances per (token, owner) and the recorded total
//! supply per token, with transfer, mint and burn.

use vstd::prelude::*;

use crate::store::{lemma_lookup, lemma_map_eq, pairs_map, unique_keys};
use crate::types::Address;

verus! {

/// What the ledger records an amount for.
#[derive(Clone, Copy, Debug, PartialEq, Eq, Structural)]
pub enum LedgerKey {
    /// The balance of an owner (second) in a token (first).
    Balance(Address, Address),
    /// The total supply of a token.
    Supply(Address),
}

/// Why a ledger operation was refused.
#[derive(Clone, Copy, Debug, PartialEq, Eq, Structural)]
pub enum LedgerError {
    /// The amount is zero.
    InvalidAmount,
    /// The account holds less than the amount.
    InsufficientBalance,
    /// The minter is not the internal address authorized to mint.
    Unauthorized,
    /// A balance or the supply would leave the range of `u128`, or the
    /// recorded supply is below the amount burned.
    Overflow,
}

/// The amount recorded under `k`; zero where nothing is.
pub open spec fn amount_of(m: Map<LedgerKey, u128>, k: LedgerKey) -> nat {
    if m.contains_key(k) {
        m[k] as nat
    } else {
        0
    }
}

/// The balance of `owner` in `token`.
pub open spec fn balance(m: Map<LedgerKey, u128>, token: Address, owner: Address) -> nat {
    amount_of(m, LedgerKey::Balance(token, owner))
}

/// The recorded total supply of `token`.
pub open spec fn supply(m: Map<LedgerKey, u128>, token: Address) -> nat {
    amount_of(m, LedgerKey::Supply(token))
}

/// The outcome of a transfer on the ledger `m`: the ledger after it, or
/// the error.
pub open spec fn transfer_result(
    m: Map<LedgerKey, u128>,
    src: Address,
    dest: Address,
    token: Address,
    amount: u128,
) -> Result<Map<LedgerKey, u128>, LedgerError> {
    if amount == 0 {
        Err(LedgerError::InvalidAmount)
    } else if balance(m, token, src) < amount {
        Err(LedgerError::InsufficientBalance)
    } else if src == dest {
        Ok(m)
    } else if balance(m, token, dest) + amount > u128::MAX {
        Err(LedgerError::Overflow)
    } else {
        Ok(
            m.insert(
                LedgerKey::Balance(token, src),
                (balance(m, token, src) - amount) as u128,
            ).insert(LedgerKey::Balance(token, dest), (balance(m, token, dest) + amount) as u128),
        )
    }
}

/// The outcome of minting by `authority` where `authorized` is the internal
/// address entitled to mint.
pub open spec fn mint_result(
    m: Map<LedgerKey, u128>,
    authority: Address,
    authorized: Address,
    target: Address,
    token: Address,
    amount: u128,
) -> Result<Map<LedgerKey, u128>, LedgerError> {
    if !(authority.is_internal_spec() && authority == authorized) {
        Err(LedgerError::Unauthorized)
    } else if amount == 0 {
        Err(LedgerError::InvalidAmount)
    } else if balance(m, token, target) + amount > u128::MAX || supply(m, token) + amount > u128::MAX {
        Err(LedgerError::Overflow)
    } else {
        Ok(
            m.insert(
                LedgerKey::Balance(token, target),
                (balance(m, token, target) + amount) as u128,
            ).insert(LedgerKey::Supply(token), (supply(m, token) + amount) as u128),
        )
    }
}

/// The outcome of burning `amount` of `token` from `target`.
pub open spec fn burn_result(
    m: Map<LedgerKey, u128>,
    target: Address,
    token: Address,
    amount: u128,
) -> Result<Map<LedgerKey, u128>, LedgerError> {
    if amount == 0 {
        Err(LedgerError::InvalidAmount)
    } else if balance(m, token, target) < amount {
        Err(LedgerError::InsufficientBalance)
    } else if supply(m, token) < amount {
        Err(LedgerError::Overflow)
    } else {
        Ok(
            m.insert(
                LedgerKey::Balance(token, target),
                (balance(m, token, target) - amount) as u128,
            ).insert(LedgerKey::Supply(token), (supply(m, token) - amount) as u128),
        )
    }
}

/// The ledger's result as seen by a caller: the new view, or the error.
pub open spec fn outcome(r: Result<(), LedgerError>, after: Map<LedgerKey, u128>) -> Result<Map<LedgerKey, u128>, LedgerError> {
    match r {
        Ok(_) => Ok(after),
        Err(e) => Err(e),
    }
}

/// The sum of the balances in `token` of the given accounts.
pub open spec fn sum_balances(m: Map<LedgerKey, u128>, token: Address, accounts: Seq<Address>) -> int
    decreases accounts.len(),
{
    if accounts.len() == 0 {
        0
    } else {
        sum_balances(m, token, accounts.drop_last()) + balance(m, token, accounts.last())
    }
}

/// `amount` where `accounts` holds `a`, else zero.
pub open spec fn share(accounts: Seq<Address>, a: Address, amount: u128) -> int {
    if accounts.contains(a) {
        amount as int
    } else {
        0
    }
}

/// A successful transfer moves exactly `amount` of `token` out of the sum
/// over any set of accounts that holds `src`, and into one that holds
/// `dest`; sums in other tokens do not change.
pub proof fn lemma_transfer_sum(
    m1: Map<LedgerKey, u128>,
    m2: Map<LedgerKey, u128>,
    src: Address,
    dest: Address,
    token: Address,
    amount: u128,
    t: Address,
    accounts: Seq<Address>,
)
    requires
        transfer_result(m1, src, dest, token, amount) == Ok::<Map<LedgerKey, u128>, LedgerError>(m2),
        accounts.no_duplicates(),
    ensures
        t != token || src == dest ==> sum_balances(m2, t, accounts) == sum_balances(m1, t, accounts),
        t == token && src != dest ==> sum_balances(m2, t, accounts) == sum_balances(m1, t, accounts)
            - share(accounts, src, amount) + share(accounts, dest, amount),
    decreases accounts.len(),
{
    if accounts.len() > 0 {
        let rest = accounts.drop_last();
        let a = accounts.last();
        assert(rest.no_duplicates());
        lemma_transfer_sum(m1, m2, src, dest, token, amount, t, rest);
        assert(accounts =~= rest.push(a));
        assert(accounts.contains(src) == (rest.contains(src) || a == src));
        assert(accounts.contains(dest) == (rest.contains(dest) || a == dest));
        assert(!rest.contains(a)) by {
            if rest.contains(a) {
                let i = choose|i: int| 0 <= i < rest.len() && rest[i] == a;
                assert(accounts[i] == accounts[accounts.len() - 1]);
            }
        }
    }
}

/// Conservation of value: along any run of successful transfers whose
/// parties all belong to a set of accounts, the sum of the balances of any
/// token over that set never changes.
pub proof fn lemma_transfers_conserve(
    states: Seq<Map<LedgerKey, u128>>,
    steps: Seq<(Address, Address, Address, u128)>,
    t: Address,
    accounts: Seq<Address>,
)
    requires
        accounts.no_duplicates(),
        states.len() == steps.len() + 1,
        forall|i: int| 0 <= i < steps.len() ==> transfer_result(
            states[i],
            (#[trigger] steps[i]).0,
            steps[i].1,
            steps[i].2,
            steps[i].3,
        ) == Ok::<Map<LedgerKey, u128>, LedgerError>(states[i + 1]),
        forall|i: int| 0 <= i < steps.len() ==> accounts.contains((#[trigger] steps[i]).0) && accounts.contains(steps[i].1),
    ensures
        sum_balances(states.last(), t, accounts) == sum_balances(states[0], t, accounts),
    decreases steps.len(),
{
    if steps.len() > 0 {
        let n = steps.len() - 1;
        lemma_transfers_conserve(states.drop_last(), steps.drop_last(), t, accounts);
        let st = steps[n];
        assert(transfer_result(states[n], st.0, st.1, st.2, st.3) == Ok::<Map<LedgerKey, u128>, LedgerError>(states[n + 1]));
        assert(accounts.contains(st.0) && accounts.contains(st.1));
        lemma_transfer_sum(states[n], states[n + 1], st.0, st.1, st.2, st.3, t, accounts);
    }
}

/// Minting is refused as unauthorized, and changes nothing, unless the
/// minter is the authorized internal address. Where no balance exceeds its
/// token's supply (as on every well-formed ledger) and the new supply fits
/// in a `u128`, a positive amount is minted exactly when the minter is the
/// authorized internal address.
pub proof fn lemma_mint_authorization(
    m: Map<LedgerKey, u128>,
    authority: Address,
    authorized: Address,
    target: Address,
    token: Address,
    amount: u128,
)
    ensures
        !(authority.is_internal_spec() && authority == authorized) ==> mint_result(
            m,
            authority,
            authorized,
            target,
            token,
            amount,
        ) == Err::<Map<LedgerKey, u128>, LedgerError>(LedgerError::Unauthorized),
        mint_result(m, authority, authorized, target, token, amount).is_ok() ==> authority == authorized,
        amount > 0 && balance(m, token, target) <= supply(m, token) && supply(m, token) + amount <= u128::MAX
            ==> (mint_result(m, authority, authorized, target, token, amount).is_ok() <==> (
        authority.is_internal_spec() && authority == authorized)),
{
}

/// A transfer of more than the source holds is refused for insufficient
/// balance.
pub proof fn lemma_transfer_overdraft(
    m: Map<LedgerKey, u128>,
    src: Address,
    dest: Address,
    token: Address,
    amount: u128,
)
    requires
        amount > balance(m, token, src),
    ensures
        transfer_result(m, src, dest, token, amount) == Err::<Map<LedgerKey, u128>, LedgerError>(
            LedgerError::InsufficientBalance,
        ),
{
}

/// A burn of more than the target holds is refused for insufficient
/// balance; a successful burn lowers the supply by exactly the amount.
pub proof fn lemma_burn_supply(
    m1: Map<LedgerKey, u128>,
    target: Address,
    token: Address,
    amount: u128,
)
    ensures
        amount > balance(m1, token, target) ==> burn_result(m1, target, token, amount) == Err::<
            Map<LedgerKey, u128>,
            LedgerError,
        >(LedgerError::InsufficientBalance),
        burn_result(m1, target, token, amount) is Ok ==> supply(
            burn_result(m1, target, token, amount)->Ok_0,
            token,
        ) == supply(m1, token) - amount,
{
}

/// What an amount `v` recorded under `k` adds to the balances of `t`.
pub open spec fn key_contrib(k: LedgerKey, v: int, t: Address) -> int {
    match k {
        LedgerKey::Balance(token, _) => if token == t {
            v
        } else {
            0
        },
        LedgerKey::Supply(_) => 0,
    }
}

/// The sum of the balances of `t` recorded in the entries `s`.
pub open spec fn token_total(s: Seq<(LedgerKey, u128)>, t: Address) -> int
    decreases s.len(),
{
    if s.len() == 0 {
        0
    } else {
        token_total(s.drop_last(), t) + key_contrib(s.last().0, s.last().1 as int, t)
    }
}

proof fn lemma_total_nonneg(s: Seq<(LedgerKey, u128)>, t: Address)
    ensures
        token_total(s, t) >= 0,
    decreases s.len(),
{
    if s.len() > 0 {
        lemma_total_nonneg(s.drop_last(), t);
    }
}

proof fn lemma_total_one(s: Seq<(LedgerKey, u128)>, i: int, t: Address)
    requires
        0 <= i < s.len(),
    ensures
        key_contrib(s[i].0, s[i].1 as int, t) <= token_total(s, t),
    decreases s.len(),
{
    if i == s.len() - 1 {
        lemma_total_nonneg(s.drop_last(), t);
    } else {
        lemma_total_one(s.drop_last(), i, t);
    }
}

proof fn lemma_total_two(s: Seq<(LedgerKey, u128)>, i: int, j: int, t: Address)
    requires
        0 <= i < s.len(),
        0 <= j < s.len(),
        i != j,
    ensures
        key_contrib(s[i].0, s[i].1 as int, t) + key_contrib(s[j].0, s[j].1 as int, t) <= token_total(s, t),
    decreases s.len(),
{
    if j == s.len() - 1 {
        lemma_total_one(s.drop_last(), i, t);
    } else if i == s.len() - 1 {
        lemma_total_one(s.drop_last(), j, t);
    } else {
        lemma_total_two(s.drop_last(), i, j, t);
    }
}

proof fn lemma_total_update(s: Seq<(LedgerKey, u128)>, i: int, e: (LedgerKey, u128), t: Address)
    requires
        0 <= i < s.len(),
    ensures
        token_total(s.update(i, e), t) == token_total(s, t) - key_contrib(s[i].0, s[i].1 as int, t)
            + key_contrib(e.0, e.1 as int, t),
    decreases s.len(),
{
    let u = s.update(i, e);
    if i == s.len() - 1 {
        assert(u.drop_last() =~= s.drop_last());
    } else {
        assert(u.drop_last() =~= s.drop_last().update(i, e));
        lemma_total_update(s.drop_last(), i, e, t);
    }
}

proof fn lemma_total_push(s: Seq<(LedgerKey, u128)>, e: (LedgerKey, u128), t: Address)
    ensures
        token_total(s.push(e), t) == token_total(s, t) + key_contrib(e.0, e.1 as int, t),
{
    assert(s.push(e).drop_last() =~= s);
}

proof fn lemma_balances_within_total(s: Seq<(LedgerKey, u128)>, t: Address, o1: Address, o2: Address)
    requires
        unique_keys(s),
    ensures
        balance(pairs_map(s), t, o1) <= token_total(s, t),
        o1 != o2 ==> balance(pairs_map(s), t, o1) + balance(pairs_map(s), t, o2) <= token_total(s, t),
{
    let m = pairs_map(s);
    let k1 = LedgerKey::Balance(t, o1);
    let k2 = LedgerKey::Balance(t, o2);
    lemma_total_nonneg(s, t);
    if m.contains_key(k1) {
        let i = choose|i: int| 0 <= i < s.len() && s[i].0 == k1;
        lemma_lookup(s, i);
        lemma_total_one(s, i, t);
        if o1 != o2 && m.contains_key(k2) {
            let j = choose|j: int| 0 <= j < s.len() && s[j].0 == k2;
            lemma_lookup(s, j);
            lemma_total_two(s, i, j, t);
        }
    } else if m.contains_key(k2) {
        let j = choose|j: int| 0 <= j < s.len() && s[j].0 == k2;
        lemma_lookup(s, j);
        lemma_total_one(s, j, t);
    }
}

/// Recorded amounts, each key at most once.
pub struct Ledger {
    entries: Vec<(LedgerKey, u128)>,
}

impl View for Ledger {
    type V = Map<LedgerKey, u128>;

    closed spec fn view(&self) -> Map<LedgerKey, u128> {
        pairs_map(self.entries@)
    }
}

impl Ledger {
    /// The ledger's invariant: no key is held twice, and for each token the
    /// balances sum to the recorded supply.
    pub closed spec fn wf(&self) -> bool {
        &&& unique_keys(self.entries@)
        &&& forall|t: Address| #[trigger] token_total(self.entries@, t) == supply(pairs_map(self.entries@), t)
    }

    /// No balance exceeds its token's supply, nor do two balances together.
    pub proof fn lemma_balance_le_supply(&self, token: Address, o1: Address, o2: Address)
        requires
            self.wf(),
        ensures
            balance(self@, token, o1) <= supply(self@, token),
            o1 != o2 ==> balance(self@, token, o1) + balance(self@, token, o2) <= supply(self@, token),
    {
        lemma_balances_within_total(self.entries@, token, o1, o2);
        assert(token_total(self.entries@, token) == supply(self@, token));
    }

    /// An empty ledger: every balance and supply is zero.
    pub fn new() -> (r: Ledger)
        ensures
            r.wf(),
            r@ == Map::<LedgerKey, u128>::empty(),
    {
        let r = Ledger { entries: Vec::new() };
        assert(r@ =~= Map::<LedgerKey, u128>::empty());
        r
    }

    /// The amount recorded under `k`.
    pub fn get(&self, k: LedgerKey) -> (r: u128)
        requires
            self.wf(),
        ensures
            r as nat == amount_of(self@, k),
    {
        let mut i: usize = 0;
        while i < self.entries.len()
            invariant
                unique_keys(self.entries@),
                i <= self.entries.len(),
                forall|j: int| 0 <= j < i ==> (#[trigger] self.entries@[j]).0 != k,
            decreases self.entries.len() - i,
        {
            if self.entries[i].0 == k {
                proof {
                    lemma_lookup(self.entries@, i as int);
                }
                return self.entries[i].1;
            }
            i = i + 1;
        }
        0
    }

    fn set(&mut self, k: LedgerKey, v: u128)
        requires
            unique_keys(old(self).entries@),
        ensures
            unique_keys(final(self).entries@),
            final(self)@ == old(self)@.insert(k, v),
            forall|t: Address| #[trigger] token_total(final(self).entries@, t) == token_total(old(self).entries@, t)
                - key_contrib(k, amount_of(old(self)@, k) as int, t) + key_contrib(k, v as int, t),
    {
        let ghost s1 = self.entries@;
        let mut i: usize = 0;
        while i < self.entries.len()
            invariant
                self.entries@ == s1,
                old(self).entries@ == s1,
                unique_keys(s1),
                i <= self.entries.len(),
                forall|j: int| 0 <= j < i ==> (#[trigger] self.entries@[j]).0 != k,
            decreases self.entries.len() - i,
        {
            if self.entries[i].0 == k {
                self.entries.set(i, (k, v));
                let ghost s2 = self.entries@;
                proof {
                    lemma_lookup(s1, i as int);
                    assert(s2 == s1.update(i as int, (k, v)));
                    assert forall|t: Address| #[trigger] token_total(s2, t) == token_total(s1, t) - key_contrib(
                        k,
                        amount_of(pairs_map(s1), k) as int,
                        t,
                    ) + key_contrib(k, v as int, t) by {
                        lemma_total_update(s1, i as int, (k, v), t);
                    }
                }
                let ghost m = pairs_map(s1).insert(k, v);
                assert(unique_keys(s2)) by {
                    assert forall|a: int, b: int| 0 <= a < s2.len() && 0 <= b < s2.len() && a != b implies s2[a].0 != s2[b].0 by {
                        assert(s2[a].0 == s1[a].0 && s2[b].0 == s1[b].0);
                    }
                }
                assert forall|k2: LedgerKey| #[trigger] m.contains_key(k2) implies exists|j: int| 0 <= j < s2.len() && s2[j].0 == k2 by {
                    if k2 == k {
                        assert(s2[i as int].0 == k2);
                    } else {
                        let j = choose|j: int| 0 <= j < s1.len() && s1[j].0 == k2;
                        assert(s2[j] == s1[j]);
                    }
                }
                assert forall|j: int| 0 <= j < s2.len() implies #[trigger] m.contains_key(s2[j].0) && m[s2[j].0] == s2[j].1 by {
                    if j != i {
                        assert(s2[j] == s1[j]);
                        lemma_lookup(s1, j);
                    }
                }
                proof {
                    lemma_map_eq(s2, m);
                }
                return;
            }
            i = i + 1;
        }
        self.entries.push((k, v));
        let ghost s2 = self.entries@;
        proof {
            assert(!pairs_map(s1).contains_key(k));
            assert forall|t: Address| #[trigger] token_total(s2, t) == token_total(s1, t) - key_contrib(
                k,
                amount_of(pairs_map(s1), k) as int,
                t,
            ) + key_contrib(k, v as int, t) by {
                lemma_total_push(s1, (k, v), t);
            }
        }
        let ghost m = pairs_map(s1).insert(k, v);
        assert(unique_keys(s2)) by {
            assert forall|a: int, b: int| 0 <= a < s2.len() && 0 <= b < s2.len() && a != b implies s2[a].0 != s2[b].0 by {
                if a < s1.len() {
                    assert(s2[a] == s1[a]);
                }
                if b < s1.len() {
                    assert(s2[b] == s1[b]);
                }
            }
        }
        assert forall|k2: LedgerKey| #[trigger] m.contains_key(k2) implies exists|j: int| 0 <= j < s2.len() && s2[j].0 == k2 by {
            if k2 == k {
                assert(s2[s1.len() as int].0 == k2);
            } else {
                let j = choose|j: int| 0 <= j < s1.len() && s1[j].0 == k2;
                assert(s2[j] == s1[j]);
            }
        }
        assert forall|j: int| 0 <= j < s2.len() implies #[trigger] m.contains_key(s2[j].0) && m[s2[j].0] == s2[j].1 by {
            if j < s1.len() {
                assert(s2[j] == s1[j]);
                lemma_lookup(s1, j);
            }
        }
        proof {
            lemma_map_eq(s2, m);
        }
    }

    /// A copy of the ledger.
    pub fn copy(&self) -> (r: Ledger)
        requires
            self.wf(),
        ensures
            r.wf(),
            r@ == self@,
    {
        let mut entries: Vec<(LedgerKey, u128)> = Vec::new();
        let mut i: usize = 0;
        while i < self.entries.len()
            invariant
                i <= self.entries.len(),
                entries@ == self.entries@.subrange(0, i as int),
            decreases self.entries.len() - i,
        {
            entries.push(self.entries[i]);
            assert(entries@ =~= self.entries@.subrange(0, i + 1));
            i = i + 1;
        }
        assert(entries@ =~= self.entries@);
        Ledger { entries }
    }

    /// Moves `amount` of `token` from `src` to `dest`. A zero amount is
    /// refused; moving to oneself changes nothing.
    pub fn transfer(&mut self, src: Address, dest: Address, token: Address, amount: u128) -> (r: Result<(), LedgerError>)
        requires
            old(self).wf(),
        ensures
            final(self).wf(),
            outcome(r, final(self)@) == transfer_result(old(self)@, src, dest, token, amount),
            r.is_err() ==> final(self)@ == old(self)@,
            r != Err::<(), LedgerError>(LedgerError::Overflow),
    {
        if amount == 0 {
            return Err(LedgerError::InvalidAmount);
        }
        let from = self.get(LedgerKey::Balance(token, src));
        if from < amount {
            return Err(LedgerError::InsufficientBalance);
        }
        if src == dest {
            return Ok(());
        }
        let to = self.get(LedgerKey::Balance(token, dest));
        proof {
            self.lemma_balance_le_supply(token, src, dest);
        }
        if to > u128::MAX - amount {
            return Err(LedgerError::Overflow);
        }
        self.set(LedgerKey::Balance(token, src), from - amount);
        self.set(LedgerKey::Balance(token, dest), to + amount);
        Ok(())
    }

    /// Mints `amount` of `token` to `target` on behalf of `authority`, which
    /// must be the internal address `authorized`; the supply grows as much.
    pub fn mint(&mut self, authority: Address, authorized: Address, target: Address, token: Address, amount: u128) -> (r: Result<(), LedgerError>)
        requires
            old(self).wf(),
        ensures
            final(self).wf(),
            outcome(r, final(self)@) == mint_result(old(self)@, authority, authorized, target, token, amount),
            r.is_err() ==> final(self)@ == old(self)@,
    {
        if !(authority.is_internal() && authority == authorized) {
            return Err(LedgerError::Unauthorized);
        }
        if amount == 0 {
            return Err(LedgerError::InvalidAmount);
        }
        let held = self.get(LedgerKey::Balance(token, target));
        let total = self.get(LedgerKey::Supply(token));
        if held > u128::MAX - amount || total > u128::MAX - amount {
            return Err(LedgerError::Overflow);
        }
        self.set(LedgerKey::Balance(token, target), held + amount);
        self.set(LedgerKey::Supply(token), total + amount);
        Ok(())
    }

    /// Burns `amount` of `token` from `target`; the supply shrinks as much.
    pub fn burn(&mut self, target: Address, token: Address, amount: u128) -> (r: Result<(), LedgerError>)
        requires
            old(self).wf(),
        ensures
            final(self).wf(),
            outcome(r, final(self)@) == burn_result(old(self)@, target, token, amount),
            r.is_err() ==> final(self)@ == old(self)@,
            r != Err::<(), LedgerError>(LedgerError::Overflow),
    {
        if amount == 0 {
            return Err(LedgerError::InvalidAmount);
        }
        let held = self.get(LedgerKey::Balance(token, target));
        if held < amount {
            return Err(LedgerError::InsufficientBalance);
        }
        let total = self.get(LedgerKey::Supply(token));
        proof {
            self.lemma_balance_le_supply(token, target, target);
        }
        if total < amount {
            return Err(LedgerError::Overflow);
        }
        self.set(LedgerKey::Balance(token, target), held - amount);
        self.set(LedgerKey::Supply(token), total - amount);
        Ok(())
    }
}

} // verus!
