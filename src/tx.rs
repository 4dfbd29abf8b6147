//! The transaction entry convention: decode the payload, act through the
//! context, and commit on success or discard everything on failure. The
//! transaction here resigns a steward of public goods funding.

use vstd::prelude::*;

use crate::ctx::{Ctx, Error};
use crate::types::{Address, InternalAddress};

verus! {

/// `256` to the power `n`.
pub open spec fn pow256(n: nat) -> nat
    decreases n,
{
    if n == 0 {
        1
    } else {
        256 * pow256((n - 1) as nat)
    }
}

/// The number whose little-endian bytes are `b`.
pub open spec fn le_value(b: Seq<u8>) -> nat
    decreases b.len(),
{
    if b.len() == 0 {
        0
    } else {
        b[0] as nat + 256 * le_value(b.drop_first())
    }
}

/// The `n` little-endian bytes of `v` (truncated to `n` bytes).
pub open spec fn le_bytes(v: nat, n: nat) -> Seq<u8>
    decreases n,
{
    if n == 0 {
        Seq::empty()
    } else {
        seq![(v % 256) as u8] + le_bytes(v / 256, (n - 1) as nat)
    }
}

/// The tag byte of each internal address.
pub open spec fn internal_tag(i: InternalAddress) -> u8 {
    match i {
        InternalAddress::Ibc => 0,
        InternalAddress::Pgf => 1,
        InternalAddress::PoS => 2,
        InternalAddress::Multitoken => 3,
        InternalAddress::Governance => 4,
    }
}

/// The canonical bytes of an address: a kind byte, then eight
/// little-endian bytes of the number or one byte for the internal account.
pub open spec fn encode_address(a: Address) -> Seq<u8> {
    match a {
        Address::Established(n) => seq![0u8] + le_bytes(n as nat, 8),
        Address::Implicit(n) => seq![1u8] + le_bytes(n as nat, 8),
        Address::Internal(i) => seq![2u8, internal_tag(i)],
    }
}

/// The address whose canonical bytes are exactly `b`, if any.
pub open spec fn decode_address(b: Seq<u8>) -> Option<Address> {
    if b.len() == 9 && b[0] == 0 {
        Some(Address::Established(le_value(b.subrange(1, 9)) as u64))
    } else if b.len() == 9 && b[0] == 1 {
        Some(Address::Implicit(le_value(b.subrange(1, 9)) as u64))
    } else if b.len() == 2 && b[0] == 2 && b[1] <= 4 {
        Some(
            Address::Internal(
                if b[1] == 0 {
                    InternalAddress::Ibc
                } else if b[1] == 1 {
                    InternalAddress::Pgf
                } else if b[1] == 2 {
                    InternalAddress::PoS
                } else if b[1] == 3 {
                    InternalAddress::Multitoken
                } else {
                    InternalAddress::Governance
                },
            ),
        )
    } else {
        None
    }
}

/// The key prefix of the stewards of public goods funding.
pub open spec fn steward_prefix() -> Seq<u8> {
    seq![112u8, 103u8, 102u8, 47u8, 115u8, 116u8, 101u8, 119u8, 97u8, 114u8, 100u8, 115u8, 47u8]
}

/// The storage key that records `a` as a steward.
pub open spec fn steward_key_spec(a: Address) -> Seq<u8> {
    steward_prefix() + encode_address(a)
}

proof fn lemma_le_value_bound(b: Seq<u8>)
    ensures
        le_value(b) < pow256(b.len()),
    decreases b.len(),
{
    if b.len() > 0 {
        lemma_le_value_bound(b.drop_first());
    }
}

/// Reads the little-endian number in `b[start..start + 8]`.
fn read_u64_le(b: &Vec<u8>, start: usize) -> (r: u64)
    requires
        start + 8 <= b.len(),
    ensures
        r as nat == le_value(b@.subrange(start as int, start + 8)),
{
    let mut acc: u64 = 0;
    let mut j: usize = start + 8;
    assert(b@.subrange(j as int, start + 8) =~= Seq::<u8>::empty());
    while j > start
        invariant
            start <= j <= start + 8,
            start + 8 <= b.len(),
            acc as nat == le_value(b@.subrange(j as int, start + 8)),
        decreases j,
    {
        let ghost tail = b@.subrange(j as int, start + 8);
        let ghost next = b@.subrange(j - 1, start + 8);
        assert(next.drop_first() =~= tail);
        assert(next[0] == b@[j - 1]);
        proof {
            lemma_le_value_bound(next);
            reveal_with_fuel(pow256, 9);
        }
        acc = b[j - 1] as u64 + 256 * acc;
        j = j - 1;
    }
    acc
}

/// Writes the eight little-endian bytes of `v` after `out`.
fn push_u64_le(out: &mut Vec<u8>, v: u64)
    ensures
        final(out)@ == old(out)@ + le_bytes(v as nat, 8),
{
    let ghost start = out@;
    let mut x: u64 = v;
    let mut i: usize = 0;
    while i < 8
        invariant
            i <= 8,
            out@ + le_bytes(x as nat, (8 - i) as nat) == start + le_bytes(v as nat, 8),
        decreases 8 - i,
    {
        let ghost rest = le_bytes(x as nat, (8 - i) as nat);
        assert(rest == seq![(x as nat % 256) as u8] + le_bytes(x as nat / 256, (8 - i - 1) as nat));
        out.push((x % 256) as u8);
        let ghost o = out@;
        x = x / 256;
        i = i + 1;
        assert(o + le_bytes(x as nat, (8 - i) as nat) =~= start + le_bytes(v as nat, 8));
    }
    assert(le_bytes(x as nat, 0) =~= Seq::<u8>::empty());
    assert(out@ =~= start + le_bytes(v as nat, 8));
}

/// Decodes the canonical bytes of an address; anything else is refused.
pub fn decode_address_bytes(b: &Vec<u8>) -> (r: Option<Address>)
    ensures
        r == decode_address(b@),
{
    if b.len() == 9 && b[0] == 0 {
        Some(Address::Established(read_u64_le(b, 1)))
    } else if b.len() == 9 && b[0] == 1 {
        Some(Address::Implicit(read_u64_le(b, 1)))
    } else if b.len() == 2 && b[0] == 2 && b[1] <= 4 {
        let i = if b[1] == 0 {
            InternalAddress::Ibc
        } else if b[1] == 1 {
            InternalAddress::Pgf
        } else if b[1] == 2 {
            InternalAddress::PoS
        } else if b[1] == 3 {
            InternalAddress::Multitoken
        } else {
            InternalAddress::Governance
        };
        Some(Address::Internal(i))
    } else {
        None
    }
}

/// The canonical bytes of `a`.
pub fn encode_address_bytes(a: &Address) -> (r: Vec<u8>)
    ensures
        r@ == encode_address(*a),
{
    let mut out: Vec<u8> = Vec::new();
    match a {
        Address::Established(n) => {
            out.push(0u8);
            push_u64_le(&mut out, *n);
        },
        Address::Implicit(n) => {
            out.push(1u8);
            push_u64_le(&mut out, *n);
        },
        Address::Internal(i) => {
            out.push(2u8);
            let t: u8 = match i {
                InternalAddress::Ibc => 0,
                InternalAddress::Pgf => 1,
                InternalAddress::PoS => 2,
                InternalAddress::Multitoken => 3,
                InternalAddress::Governance => 4,
            };
            out.push(t);
        },
    }
    assert(out@ =~= encode_address(*a));
    out
}

/// The storage key that records `a` as a steward.
pub fn steward_key(a: &Address) -> (r: Vec<u8>)
    ensures
        r@ == steward_key_spec(*a),
{
    let mut k: Vec<u8> = vec![112u8, 103u8, 102u8, 47u8, 115u8, 116u8, 101u8, 119u8, 97u8, 114u8, 100u8, 115u8, 47u8];
    let mut e = encode_address_bytes(a);
    let ghost p = k@;
    k.append(&mut e);
    assert(p =~= steward_prefix());
    assert(k@ =~= steward_key_spec(*a));
    k
}

/// Removes `a` from the stewards.
pub fn remove_steward(ctx: &mut Ctx, a: &Address) -> (r: Result<(), Error>)
    requires
        old(ctx).wf(),
    ensures
        r is Ok,
        final(ctx).wf(),
        final(ctx).storage() == old(ctx).storage().remove(steward_key_spec(*a)),
        final(ctx).same_except_storage(*old(ctx)),
{
    let k = steward_key(a);
    ctx.delete(&k)
}

/// A signed transaction, as far as the entry reads it: its data, if any.
pub struct Tx {
    data: Option<Vec<u8>>,
}

impl Tx {
    /// The transaction's data.
    pub closed spec fn data_spec(&self) -> Option<Seq<u8>> {
        match self.data {
            Some(d) => Some(d@),
            None => None,
        }
    }

    /// A transaction with the given data.
    pub fn new(data: Option<Vec<u8>>) -> (r: Tx)
        ensures
            r.data_spec() == match data {
                Some(d) => Some(d@),
                None => None::<Seq<u8>>,
            },
    {
        Tx { data }
    }

    /// A copy of the transaction's data.
    pub fn data(&self) -> (r: Option<Vec<u8>>)
        ensures
            match r {
                Some(d) => self.data_spec() == Some(d@),
                None => self.data_spec() is None,
            },
    {
        match &self.data {
            Some(d) => Some(crate::store::copy_bytes(d)),
            None => None,
        }
    }
}

/// Why the payload could not be decoded.
#[derive(Clone, Copy, Debug, PartialEq, Eq, Structural)]
pub enum DecodeError {
    /// The transaction carries no data.
    MissingData,
    /// The data is not the canonical bytes of an address.
    InvalidAddress,
}

/// Why a transaction failed.
#[derive(Clone, Copy, Debug, PartialEq, Eq, Structural)]
pub enum TxError {
    Decode(DecodeError),
    Context(Error),
}

/// The steward a resignation names, or why the payload is refused.
pub open spec fn resignation(data: Option<Seq<u8>>) -> Result<Address, DecodeError> {
    match data {
        None => Err(DecodeError::MissingData),
        Some(d) => match decode_address(d) {
            Some(a) => Ok(a),
            None => Err(DecodeError::InvalidAddress),
        },
    }
}

/// The body of the resignation: decodes the steward's address from the
/// data and removes it from the stewards. A malformed payload is refused
/// before anything is written.
pub fn apply_tx(ctx: &mut Ctx, tx_data: &Tx) -> (r: Result<(), TxError>)
    requires
        old(ctx).wf(),
    ensures
        final(ctx).wf(),
        final(ctx).same_except_storage(*old(ctx)),
        match resignation(tx_data.data_spec()) {
            Ok(a) => r is Ok && final(ctx).storage() == old(ctx).storage().remove(steward_key_spec(a)),
            Err(e) => r == Err::<(), TxError>(TxError::Decode(e)) && final(ctx).storage() == old(ctx).storage(),
        },
{
    let data = match tx_data.data() {
        Some(d) => d,
        None => {
            return Err(TxError::Decode(DecodeError::MissingData));
        },
    };
    let steward = match decode_address_bytes(&data) {
        Some(a) => a,
        None => {
            return Err(TxError::Decode(DecodeError::InvalidAddress));
        },
    };
    match remove_steward(ctx, &steward) {
        Ok(()) => Ok(()),
        Err(e) => Err(TxError::Context(e)),
    }
}

/// Runs the resignation as one transaction: on success everything it did
/// is committed; on failure everything it did is discarded.
pub fn execute_tx(ctx: &mut Ctx, tx_data: &Tx) -> (r: Result<(), TxError>)
    requires
        old(ctx).wf(),
    ensures
        final(ctx).wf(),
        final(ctx).idle(),
        match resignation(tx_data.data_spec()) {
            Ok(a) => r is Ok && final(ctx).committed_storage() == old(ctx).storage().remove(steward_key_spec(a)),
            Err(e) => r == Err::<(), TxError>(TxError::Decode(e)) && final(ctx).committed_storage()
                == old(ctx).committed_storage(),
        },
        r.is_err() ==> final(ctx).storage() == old(ctx).committed_storage() && final(ctx).balances()
            == old(ctx).committed_balances() && final(ctx).committed_events() == old(ctx).committed_events(),
{
    let r = apply_tx(ctx, tx_data);
    match r {
        Ok(()) => ctx.commit(),
        Err(_) => ctx.abort(),
    }
    r
}

/// A failed transaction leaves no trace: where a context was idle before
/// the transaction, every write left the committed state alone, and the
/// failure discarded the pending changes, the state seen afterwards is the
/// state seen before.
pub proof fn lemma_failed_tx_restores(before: Ctx, during: Ctx, after: Ctx)
    requires
        before.idle(),
        during.committed_storage() == before.committed_storage(),
        during.committed_balances() == before.committed_balances(),
        after.storage() == during.committed_storage(),
        after.balances() == during.committed_balances(),
    ensures
        after.storage() == before.storage(),
        after.balances() == before.balances(),
{
}

} // verus!
