//! Addresses and amounts shared by the ledger, the context and the router.

use vstd::prelude::*;

verus! {

/// The protocol-reserved accounts.
#[derive(Clone, Copy, Debug, PartialEq, Eq, Structural)]
pub enum InternalAddress {
    /// The inter-chain protocol module: minter and escrow of its tokens.
    Ibc,
    /// Public goods funding.
    Pgf,
    /// Proof of stake.
    PoS,
    /// The multitoken account.
    Multitoken,
    /// Governance.
    Governance,
}

/// An account: user-controlled (established or implicit) or internal.
#[derive(Clone, Copy, Debug, PartialEq, Eq, Structural)]
pub enum Address {
    Established(u64),
    Implicit(u64),
    Internal(InternalAddress),
}

impl Address {
    /// Whether the address is protocol-reserved.
    pub open spec fn is_internal_spec(self) -> bool {
        self is Internal
    }

    /// Whether the address is protocol-reserved.
    pub fn is_internal(&self) -> (r: bool)
        ensures
            r == self.is_internal_spec(),
    {
        match self {
            Address::Internal(_) => true,
            _ => false,
        }
    }
}

/// An amount of a token together with its decimal exponent.
#[derive(Clone, Copy, Debug, PartialEq, Eq, Structural)]
pub struct DenominatedAmount {
    pub amount: u128,
    pub denom: u8,
}

} // verus!
