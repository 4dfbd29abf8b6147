use namada_ctx::ledger::{Ledger, LedgerError, LedgerKey};
use namada_ctx::types::{Address, InternalAddress};

const IBC: Address = Address::Internal(InternalAddress::Ibc);
const TOKEN: Address = Address::Established(100);
const ALICE: Address = Address::Implicit(1);
const BOB: Address = Address::Implicit(2);
const CAROL: Address = Address::Established(3);

fn bal(l: &Ledger, owner: Address) -> u128 {
    l.get(LedgerKey::Balance(TOKEN, owner))
}

fn funded() -> Ledger {
    let mut l = Ledger::new();
    assert_eq!(l.mint(IBC, IBC, ALICE, TOKEN, 100), Ok(()));
    assert_eq!(l.mint(IBC, IBC, BOB, TOKEN, 50), Ok(()));
    l
}

#[test]
fn transfers_conserve_sum() {
    let mut l = funded();
    let accounts = [ALICE, BOB, CAROL];
    let sum = |l: &Ledger| accounts.iter().map(|a| bal(l, *a)).sum::<u128>();
    assert_eq!(sum(&l), 150);
    assert_eq!(l.transfer(ALICE, BOB, TOKEN, 30), Ok(()));
    assert_eq!(l.transfer(BOB, CAROL, TOKEN, 70), Ok(()));
    assert_eq!(l.transfer(CAROL, ALICE, TOKEN, 5), Ok(()));
    assert_eq!(sum(&l), 150);
    assert_eq!((bal(&l, ALICE), bal(&l, BOB), bal(&l, CAROL)), (75, 10, 65));
    assert_eq!(l.get(LedgerKey::Supply(TOKEN)), 150);
}

#[test]
fn mint_by_other_address_is_unauthorized() {
    let mut l = funded();
    assert_eq!(l.mint(ALICE, IBC, BOB, TOKEN, 10), Err(LedgerError::Unauthorized));
    let pgf = Address::Internal(InternalAddress::Pgf);
    assert_eq!(l.mint(pgf, IBC, BOB, TOKEN, 10), Err(LedgerError::Unauthorized));
    assert_eq!(l.mint(ALICE, ALICE, BOB, TOKEN, 10), Err(LedgerError::Unauthorized));
    assert_eq!(bal(&l, BOB), 50);
    assert_eq!(l.get(LedgerKey::Supply(TOKEN)), 150);
}

#[test]
fn mint_raises_balance_and_supply() {
    let mut l = funded();
    assert_eq!(l.mint(IBC, IBC, CAROL, TOKEN, 7), Ok(()));
    assert_eq!(bal(&l, CAROL), 7);
    assert_eq!(l.get(LedgerKey::Supply(TOKEN)), 157);
}

#[test]
fn overdraft_leaves_balances() {
    let mut l = funded();
    assert_eq!(l.transfer(BOB, ALICE, TOKEN, 51), Err(LedgerError::InsufficientBalance));
    assert_eq!(l.transfer(BOB, BOB, TOKEN, 51), Err(LedgerError::InsufficientBalance));
    assert_eq!((bal(&l, ALICE), bal(&l, BOB)), (100, 50));
}

#[test]
fn self_transfer_is_noop() {
    let mut l = funded();
    assert_eq!(l.transfer(ALICE, ALICE, TOKEN, 40), Ok(()));
    assert_eq!(bal(&l, ALICE), 100);
}

#[test]
fn zero_amounts_are_refused() {
    let mut l = funded();
    assert_eq!(l.transfer(ALICE, BOB, TOKEN, 0), Err(LedgerError::InvalidAmount));
    assert_eq!(l.mint(IBC, IBC, ALICE, TOKEN, 0), Err(LedgerError::InvalidAmount));
    assert_eq!(l.burn(ALICE, TOKEN, 0), Err(LedgerError::InvalidAmount));
}

#[test]
fn burn_checks_balance_and_lowers_supply() {
    let mut l = funded();
    assert_eq!(l.burn(BOB, TOKEN, 51), Err(LedgerError::InsufficientBalance));
    assert_eq!(l.get(LedgerKey::Supply(TOKEN)), 150);
    assert_eq!(l.burn(BOB, TOKEN, 20), Ok(()));
    assert_eq!(bal(&l, BOB), 30);
    assert_eq!(l.get(LedgerKey::Supply(TOKEN)), 130);
}

#[test]
fn overflow_is_refused() {
    let mut l = Ledger::new();
    assert_eq!(l.mint(IBC, IBC, ALICE, TOKEN, u128::MAX), Ok(()));
    assert_eq!(l.mint(IBC, IBC, BOB, TOKEN, 1), Err(LedgerError::Overflow));
    assert_eq!(bal(&l, BOB), 0);
}

#[test]
fn tokens_are_separate() {
    let mut l = funded();
    let other = Address::Established(200);
    assert_eq!(l.transfer(ALICE, BOB, other, 1), Err(LedgerError::InsufficientBalance));
    assert_eq!(l.get(LedgerKey::Supply(other)), 0);
}
