use namada_ctx::ctx::{Ctx, Error};
use namada_ctx::ibc::{ibc_actions, ActionKind, IbcAction, RouteError, TransferModule};
use namada_ctx::ledger::LedgerError;
use namada_ctx::types::{Address, DenominatedAmount};

fn amount(n: u128) -> DenominatedAmount {
    DenominatedAmount { amount: n, denom: 0 }
}

#[test]
fn transfer_module_id() {
    assert_eq!(TransferModule::new().module_id(), "transfer");
}

#[test]
fn duplicate_route_rejected() {
    let mut actions = ibc_actions(Ctx::new(1, vec![]));
    let id = TransferModule::new().module_id();
    assert!(actions.has_route(&id));
    assert!(!actions.has_route(&"other".to_string()));
    actions.add_transfer_route("other".to_string(), TransferModule::new());
    assert!(actions.has_route(&"other".to_string()));
}

#[test]
fn dispatch_routes_by_identifier() {
    let mut actions = ibc_actions(Ctx::new(1, vec![]));
    let token = Address::Established(9);
    let (a, b) = (Address::Implicit(1), Address::Implicit(2));
    let mint = IbcAction { module: "transfer".to_string(), kind: ActionKind::Mint { target: a, token, amount: amount(5) } };
    assert_eq!(actions.dispatch(&mint), Ok(()));
    let send = IbcAction {
        module: "transfer".to_string(),
        kind: ActionKind::Transfer { src: a, dest: b, token, amount: amount(2) },
    };
    assert_eq!(actions.dispatch(&send), Ok(()));
    let burn = IbcAction { module: "transfer".to_string(), kind: ActionKind::Burn { target: b, token, amount: amount(3) } };
    assert_eq!(
        actions.dispatch(&burn),
        Err(RouteError::Context(Error::Ledger(LedgerError::InsufficientBalance)))
    );
    let lost = IbcAction { module: "nowhere".to_string(), kind: ActionKind::Burn { target: b, token, amount: amount(1) } };
    assert_eq!(actions.dispatch(&lost), Err(RouteError::UnroutableAction));
    let mut ctx = actions.into_ctx();
    assert_eq!(ctx.burn_token(&b, &token, amount(2)), Ok(()));
    assert_eq!(
        ctx.burn_token(&a, &token, amount(4)),
        Err(Error::Ledger(LedgerError::InsufficientBalance))
    );
    assert_eq!(ctx.burn_token(&a, &token, amount(3)), Ok(()));
}
