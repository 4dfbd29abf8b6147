//! The router of inter-chain protocol actions: modules registered under
//! unique identifiers, each handling the actions addressed to it through the
//! execution context.

use vstd::prelude::*;

use crate::ctx::{as_ctx, ctx_outcome, Ctx, Error};
use crate::ledger::{burn_result, mint_result, transfer_result, LedgerKey};
use crate::types::{Address, DenominatedAmount, InternalAddress};

verus! {

/// The identifier under which the token transfer module is routed.
pub open spec fn transfer_port() -> Seq<char> {
    seq!['t', 'r', 'a', 'n', 's', 'f', 'e', 'r']
}

/// What a protocol action asks the ledger to do.
#[derive(Clone, Copy, Debug, PartialEq, Eq, Structural)]
pub enum ActionKind {
    Transfer { src: Address, dest: Address, token: Address, amount: DenominatedAmount },
    Mint { target: Address, token: Address, amount: DenominatedAmount },
    Burn { target: Address, token: Address, amount: DenominatedAmount },
}

/// A protocol action addressed to the module routed under `module`.
pub struct IbcAction {
    pub module: String,
    pub kind: ActionKind,
}

/// Why routing failed.
#[derive(Clone, Copy, Debug, PartialEq, Eq, Structural)]
pub enum RouteError {
    /// No module is routed under the action's identifier.
    UnroutableAction,
    /// The module's work failed in the context.
    Context(Error),
}

/// The ledger outcome of an action handled in a context whose ledger is `m`
/// and whose minting address is `minter`.
pub open spec fn action_result(m: Map<LedgerKey, u128>, minter: Address, kind: ActionKind) -> Result<Map<LedgerKey, u128>, Error> {
    match kind {
        ActionKind::Transfer { src, dest, token, amount } => as_ctx(transfer_result(m, src, dest, token, amount.amount)),
        ActionKind::Mint { target, token, amount } => as_ctx(
            mint_result(m, Address::Internal(InternalAddress::Ibc), minter, target, token, amount.amount),
        ),
        ActionKind::Burn { target, token, amount } => as_ctx(burn_result(m, target, token, amount.amount)),
    }
}

/// The module that moves, mints and burns tokens for the protocol.
pub struct TransferModule {
    id: String,
}

impl TransferModule {
    /// The identifier of the module.
    pub closed spec fn id_spec(&self) -> Seq<char> {
        self.id@
    }

    /// A transfer module, identified as the transfer port.
    pub fn new() -> (r: TransferModule)
        ensures
            r.id_spec() == transfer_port(),
    {
        proof {
            reveal_strlit("transfer");
        }
        let id = String::from_str("transfer");
        TransferModule { id }
    }

    /// The identifier of the module.
    pub fn module_id(&self) -> (r: String)
        ensures
            r@ == self.id_spec(),
    {
        self.id.clone()
    }

    /// Performs `kind` on the ledger of `ctx`.
    pub fn handle_action(&self, ctx: &mut Ctx, kind: ActionKind) -> (r: Result<(), Error>)
        requires
            old(ctx).wf(),
        ensures
            final(ctx).wf(),
            ctx_outcome(r, final(ctx).balances()) == action_result(old(ctx).balances(), old(ctx).minter_spec(), kind),
            r.is_err() ==> final(ctx).balances() == old(ctx).balances(),
            final(ctx).same_except_balances(*old(ctx)),
    {
        match kind {
            ActionKind::Transfer { src, dest, token, amount } => ctx.transfer_token(&src, &dest, &token, amount),
            ActionKind::Mint { target, token, amount } => ctx.mint_token(&target, &token, amount),
            ActionKind::Burn { target, token, amount } => ctx.burn_token(&target, &token, amount),
        }
    }
}

/// The outcome of routing a module under `id` where `ids` are routed: the
/// identifiers after, or `None` where `id` is taken.
pub open spec fn add_route_result(ids: Seq<Seq<char>>, id: Seq<char>) -> Option<Seq<Seq<char>>> {
    if ids.contains(id) {
        None
    } else {
        Some(ids.push(id))
    }
}

/// Once a module is routed under an identifier, routing another under the
/// same identifier is refused, whatever was routed before: the identifier is
/// taken, so a second registration is ruled out before any action is routed.
pub proof fn lemma_duplicate_route_refused(ids: Seq<Seq<char>>, id: Seq<char>)
    requires
        add_route_result(ids, id) is Some,
    ensures
        (add_route_result(ids, id)->Some_0).contains(id),
        add_route_result(add_route_result(ids, id)->Some_0, id) is None,
{
    let after = add_route_result(ids, id)->Some_0;
    assert(after[after.len() - 1] == id);
}

/// The protocol's actions over one execution context: the context and the
/// modules routed by identifier.
pub struct IbcActions {
    ctx: Ctx,
    routes: Vec<(String, TransferModule)>,
}

impl IbcActions {
    /// The identifiers routed, in the order they were added.
    pub closed spec fn route_ids(&self) -> Seq<Seq<char>> {
        self.routes@.map_values(|r: (String, TransferModule)| r.0@)
    }

    /// The context the actions work in.
    pub closed spec fn ctx_spec(&self) -> Ctx {
        self.ctx
    }

    /// The invariant: identifiers are unique and the context is well formed.
    pub closed spec fn wf(&self) -> bool {
        &&& self.ctx.wf()
        &&& self.route_ids().no_duplicates()
    }

    /// Whether a module is routed under `id`.
    pub fn has_route(&self, id: &String) -> (r: bool)
        requires
            self.wf(),
        ensures
            r == self.route_ids().contains(id@),
    {
        let ghost ids = self.route_ids();
        let mut i: usize = 0;
        while i < self.routes.len()
            invariant
                i <= self.routes.len(),
                ids == self.routes@.map_values(|r: (String, TransferModule)| r.0@),
                forall|j: int| 0 <= j < i ==> ids[j] != id@,
            decreases self.routes.len() - i,
        {
            if self.routes[i].0 == *id {
                assert(ids[i as int] == id@);
                return true;
            }
            i = i + 1;
        }
        false
    }

    /// Routes `module` under `id`. Routing tables are fixed when the actions
    /// are built, so an identifier may be routed once only: a second
    /// registration is a programming error that callers rule out.
    pub fn add_transfer_route(&mut self, id: String, module: TransferModule)
        requires
            old(self).wf(),
            !old(self).route_ids().contains(id@),
        ensures
            final(self).wf(),
            final(self).ctx_spec() == old(self).ctx_spec(),
            add_route_result(old(self).route_ids(), id@) == Some(final(self).route_ids()),
    {
        let ghost ids = self.route_ids();
        let ghost iv = id@;
        self.routes.push((id, module));
        assert(self.route_ids() =~= ids.push(iv));
    }

    /// Hands `action` to the module routed under its identifier, which
    /// performs it in the context.
    pub fn dispatch(&mut self, action: &IbcAction) -> (r: Result<(), RouteError>)
        requires
            old(self).wf(),
        ensures
            final(self).wf(),
            final(self).route_ids() == old(self).route_ids(),
            !old(self).route_ids().contains(action.module@) ==> r == Err::<(), RouteError>(RouteError::UnroutableAction)
                && final(self).ctx_spec() == old(self).ctx_spec(),
            old(self).route_ids().contains(action.module@) ==> {
                let res = action_result(old(self).ctx_spec().balances(), old(self).ctx_spec().minter_spec(), action.kind);
                &&& final(self).ctx_spec().same_except_balances(old(self).ctx_spec())
                &&& match res {
                    Ok(m) => r is Ok && final(self).ctx_spec().balances() == m,
                    Err(e) => r == Err::<(), RouteError>(RouteError::Context(e)) && final(self).ctx_spec().balances()
                        == old(self).ctx_spec().balances(),
                }
            },
    {
        let ghost ids = self.route_ids();
        let mut i: usize = 0;
        while i < self.routes.len()
            invariant
                *self == *old(self),
                self.wf(),
                i <= self.routes.len(),
                ids == self.routes@.map_values(|r: (String, TransferModule)| r.0@),
                forall|j: int| 0 <= j < i ==> ids[j] != action.module@,
            decreases self.routes.len() - i,
        {
            if self.routes[i].0 == action.module {
                assert(ids[i as int] == action.module@);
                let r = self.routes[i].1.handle_action(&mut self.ctx, action.kind);
                return match r {
                    Ok(()) => Ok(()),
                    Err(e) => Err(RouteError::Context(e)),
                };
            }
            i = i + 1;
        }
        Err(RouteError::UnroutableAction)
    }

    /// The context the actions work in.
    pub fn ctx(&self) -> (r: &Ctx)
        ensures
            *r == self.ctx_spec(),
    {
        &self.ctx
    }

    /// Ends the routing and gives the context back.
    pub fn into_ctx(self) -> (r: Ctx)
        requires
            self.wf(),
        ensures
            r == self.ctx_spec(),
            r.wf(),
    {
        self.ctx
    }
}

/// The protocol's actions over `ctx`, with the transfer module routed under
/// its own identifier.
pub fn ibc_actions(ctx: Ctx) -> (r: IbcActions)
    requires
        ctx.wf(),
    ensures
        r.wf(),
        r.ctx_spec() == ctx,
        r.route_ids() == seq![transfer_port()],
{
    let mut actions = IbcActions { ctx, routes: Vec::new() };
    assert(actions.route_ids() =~= Seq::<Seq<char>>::empty());
    let module = TransferModule::new();
    let id = module.module_id();
    actions.add_transfer_route(id, module);
    assert(actions.route_ids() =~= seq![transfer_port()]);
    actions
}

} // verus!
