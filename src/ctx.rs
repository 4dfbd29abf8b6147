//! The execution context of one transaction: keyed storage whose writes are
//! seen by later reads of the same transaction and kept only on commit, the
//! token ledger, the event log, and read-only block history.

use vstd::prelude::*;

use crate::ledger::{burn_result, mint_result, transfer_result, Ledger, LedgerError, LedgerKey};
use crate::store::{copy_bytes, pairs_map, pairs_view, sorted_keys, unique_keys, with_prefix, KvStore, Pair};
use crate::types::{Address, DenominatedAmount, InternalAddress};

verus! {

/// A storage key: the canonical bytes of a hierarchical path.
pub type Key = Vec<u8>;

/// A block height.
pub type BlockHeight = u64;

/// The header of a committed block.
#[derive(Clone, Copy, Debug, PartialEq, Eq, Structural)]
pub struct Header {
    pub height: BlockHeight,
    pub hash: u64,
    pub time: u64,
}

/// Why a context operation failed.
#[derive(Clone, Copy, Debug, PartialEq, Eq, Structural)]
pub enum Error {
    /// A ledger operation was refused.
    Ledger(LedgerError),
    /// An iterator was used after the transaction it was made in ended.
    InvalidIterator,
}

/// An event of the inter-chain protocol: a type and attributes.
pub struct IbcEvent {
    pub event_type: String,
    pub attributes: Vec<(String, String)>,
}

/// An event as plain values.
pub type EventView = (Seq<char>, Seq<(Seq<char>, Seq<char>)>);

impl View for IbcEvent {
    type V = EventView;

    open spec fn view(&self) -> EventView {
        (self.event_type@, self.attributes@.map_values(|a: (String, String)| (a.0@, a.1@)))
    }
}

/// The plain values of a sequence of events.
pub open spec fn events_view(s: Seq<IbcEvent>) -> Seq<EventView> {
    s.map_values(|e: IbcEvent| e@)
}

/// The most recent event of type `t` in `s`.
pub open spec fn latest_event(s: Seq<EventView>, t: Seq<char>) -> Option<EventView>
    decreases s.len(),
{
    if s.len() == 0 {
        None
    } else if s.last().0 == t {
        Some(s.last())
    } else {
        latest_event(s.drop_last(), t)
    }
}

impl IbcEvent {
    /// A copy of the event.
    pub fn copy(&self) -> (r: IbcEvent)
        ensures
            r@ == self@,
    {
        let mut attributes: Vec<(String, String)> = Vec::new();
        let mut i: usize = 0;
        while i < self.attributes.len()
            invariant
                i <= self.attributes.len(),
                attributes@.map_values(|a: (String, String)| (a.0@, a.1@)) == self.attributes@.map_values(
                    |a: (String, String)| (a.0@, a.1@),
                ).subrange(0, i as int),
            decreases self.attributes.len() - i,
        {
            let ghost a0 = attributes@.map_values(|a: (String, String)| (a.0@, a.1@));
            let k = self.attributes[i].0.clone();
            let v = self.attributes[i].1.clone();
            attributes.push((k, v));
            assert(attributes@.map_values(|a: (String, String)| (a.0@, a.1@)) =~= a0.push(
                (self.attributes@[i as int].0@, self.attributes@[i as int].1@),
            ));
            assert(attributes@.map_values(|a: (String, String)| (a.0@, a.1@)) =~= self.attributes@.map_values(
                |a: (String, String)| (a.0@, a.1@),
            ).subrange(0, i + 1));
            i = i + 1;
        }
        assert(attributes@.map_values(|a: (String, String)| (a.0@, a.1@)) =~= self.attributes@.map_values(
            |a: (String, String)| (a.0@, a.1@),
        ));
        IbcEvent { event_type: self.event_type.clone(), attributes }
    }
}

/// A cursor over the pairs of a key prefix in lexicographic key order,
/// valid only within the transaction it was made in.
pub struct PrefixIter {
    items: Vec<(Vec<u8>, Vec<u8>)>,
    pos: usize,
    epoch: u64,
}

impl PrefixIter {
    /// The pairs not yet handed out.
    pub closed spec fn remaining(&self) -> Seq<Pair> {
        pairs_view(self.items@).subrange(self.pos as int, self.items@.len() as int)
    }

    /// The transaction the cursor was made in.
    pub closed spec fn epoch_spec(&self) -> u64 {
        self.epoch
    }

    /// The cursor's invariant.
    pub closed spec fn wf(&self) -> bool {
        self.pos <= self.items.len()
    }
}

/// The context of the transaction being executed.
pub struct Ctx {
    committed_kv: KvStore,
    committed_ledger: Ledger,
    committed_events: Vec<IbcEvent>,
    kv: KvStore,
    ledger: Ledger,
    events: Vec<IbcEvent>,
    epoch: u64,
    height: BlockHeight,
    headers: Vec<Header>,
    minter: Address,
    diagnostics: Vec<String>,
}

impl Ctx {
    /// The context's invariant.
    pub closed spec fn wf(&self) -> bool {
        &&& self.committed_kv.wf()
        &&& self.committed_ledger.wf()
        &&& self.kv.wf()
        &&& self.ledger.wf()
        &&& self.minter == Address::Internal(InternalAddress::Ibc)
    }

    /// The store as this transaction sees it, its own writes included.
    pub closed spec fn storage(&self) -> Map<Seq<u8>, Seq<u8>> {
        self.kv@
    }

    /// The store as last committed.
    pub closed spec fn committed_storage(&self) -> Map<Seq<u8>, Seq<u8>> {
        self.committed_kv@
    }

    /// The ledger as this transaction sees it.
    pub closed spec fn balances(&self) -> Map<LedgerKey, u128> {
        self.ledger@
    }

    /// The ledger as last committed.
    pub closed spec fn committed_balances(&self) -> Map<LedgerKey, u128> {
        self.committed_ledger@
    }

    /// The events emitted by this transaction so far.
    pub closed spec fn pending_events(&self) -> Seq<EventView> {
        events_view(self.events@)
    }

    /// The events of committed transactions.
    pub closed spec fn committed_events(&self) -> Seq<EventView> {
        events_view(self.committed_events@)
    }

    /// The transaction currently running; it changes at each commit or abort.
    pub closed spec fn epoch_spec(&self) -> u64 {
        self.epoch
    }

    /// The height of the block being built.
    pub closed spec fn height_spec(&self) -> BlockHeight {
        self.height
    }

    /// The headers of the committed blocks.
    pub closed spec fn headers_spec(&self) -> Seq<Header> {
        self.headers@
    }

    /// The internal address entitled to mint.
    pub closed spec fn minter_spec(&self) -> Address {
        self.minter
    }

    /// The diagnostic messages logged so far.
    pub closed spec fn diagnostics_spec(&self) -> Seq<Seq<char>> {
        self.diagnostics@.map_values(|m: String| m@)
    }

    /// No transaction has pending changes: what it sees is what is committed.
    pub open spec fn idle(&self) -> bool {
        &&& self.storage() == self.committed_storage()
        &&& self.balances() == self.committed_balances()
        &&& self.pending_events().len() == 0
    }

    /// A context over empty storage at `height`, with the headers of the
    /// committed blocks, in which the inter-chain module's address mints.
    pub fn new(height: BlockHeight, headers: Vec<Header>) -> (r: Ctx)
        ensures
            r.wf(),
            r.idle(),
            r.storage() == Map::<Seq<u8>, Seq<u8>>::empty(),
            r.balances() == Map::<LedgerKey, u128>::empty(),
            r.committed_events().len() == 0,
            r.height_spec() == height,
            r.headers_spec() == headers@,
            r.minter_spec() == Address::Internal(InternalAddress::Ibc),
            r.diagnostics_spec().len() == 0,
    {
        let r = Ctx {
            committed_kv: KvStore::new(),
            committed_ledger: Ledger::new(),
            committed_events: Vec::new(),
            kv: KvStore::new(),
            ledger: Ledger::new(),
            events: Vec::new(),
            epoch: 0,
            height,
            headers,
            minter: Address::Internal(InternalAddress::Ibc),
            diagnostics: Vec::new(),
        };
        assert(r.pending_events() =~= Seq::<EventView>::empty());
        assert(r.committed_events() =~= Seq::<EventView>::empty());
        assert(r.diagnostics_spec() =~= Seq::<Seq<char>>::empty());
        r
    }

    /// The value stored under `key`, this transaction's writes included.
    pub fn read(&self, key: &Key) -> (r: Result<Option<Vec<u8>>, Error>)
        requires
            self.wf(),
        ensures
            r is Ok,
            (r->Ok_0).is_some() == self.storage().contains_key(key@),
            (r->Ok_0).is_some() ==> (r->Ok_0).unwrap()@ == self.storage()[key@],
    {
        Ok(self.kv.get(key))
    }

    /// Whether a value is stored under `key`.
    pub fn has_key(&self, key: &Key) -> (r: Result<bool, Error>)
        requires
            self.wf(),
        ensures
            r == Ok::<bool, Error>(self.storage().contains_key(key@)),
    {
        Ok(self.kv.contains(key))
    }

    /// Stores `data` under `key` for this transaction.
    pub fn write(&mut self, key: &Key, data: Vec<u8>) -> (r: Result<(), Error>)
        requires
            old(self).wf(),
        ensures
            r is Ok,
            final(self).wf(),
            final(self).storage() == old(self).storage().insert(key@, data@),
            final(self).same_except_storage(*old(self)),
    {
        self.kv.insert(copy_bytes(key), data);
        Ok(())
    }

    /// Removes what is stored under `key` for this transaction.
    pub fn delete(&mut self, key: &Key) -> (r: Result<(), Error>)
        requires
            old(self).wf(),
        ensures
            r is Ok,
            final(self).wf(),
            final(self).storage() == old(self).storage().remove(key@),
            final(self).same_except_storage(*old(self)),
    {
        self.kv.remove(key);
        Ok(())
    }

    /// Everything but the store this transaction sees is as in `o`.
    pub open spec fn same_except_storage(&self, o: Ctx) -> bool {
        &&& self.committed_storage() == o.committed_storage()
        &&& self.balances() == o.balances()
        &&& self.committed_balances() == o.committed_balances()
        &&& self.pending_events() == o.pending_events()
        &&& self.committed_events() == o.committed_events()
        &&& self.epoch_spec() == o.epoch_spec()
        &&& self.height_spec() == o.height_spec()
        &&& self.headers_spec() == o.headers_spec()
        &&& self.minter_spec() == o.minter_spec()
    }

    /// Everything but the ledger this transaction sees is as in `o`.
    pub open spec fn same_except_balances(&self, o: Ctx) -> bool {
        &&& self.storage() == o.storage()
        &&& self.committed_storage() == o.committed_storage()
        &&& self.committed_balances() == o.committed_balances()
        &&& self.pending_events() == o.pending_events()
        &&& self.committed_events() == o.committed_events()
        &&& self.epoch_spec() == o.epoch_spec()
        &&& self.height_spec() == o.height_spec()
        &&& self.headers_spec() == o.headers_spec()
        &&& self.minter_spec() == o.minter_spec()
    }

    /// A cursor over the pairs whose keys start with `prefix`, this
    /// transaction's writes included, each key once, in lexicographic key
    /// order.
    pub fn iter_prefix(&self, prefix: &Key) -> (r: Result<PrefixIter, Error>)
        requires
            self.wf(),
        ensures
            r is Ok,
            (r->Ok_0).wf(),
            (r->Ok_0).epoch_spec() == self.epoch_spec(),
            unique_keys((r->Ok_0).remaining()),
            sorted_keys((r->Ok_0).remaining()),
            pairs_map((r->Ok_0).remaining()) == with_prefix(self.storage(), prefix@),
    {
        let items = self.kv.collect_prefix(prefix);
        let it = PrefixIter { items, pos: 0, epoch: self.epoch };
        assert(it.remaining() =~= pairs_view(it.items@));
        Ok(it)
    }

    /// The next key of the cursor that is still stored, with the value stored
    /// under it now, this transaction's later writes included; keys deleted
    /// since the cursor was made are passed over. `None` when no such key is
    /// left. A cursor from an ended transaction is refused.
    pub fn iter_next(&self, iter: &mut PrefixIter) -> (r: Result<Option<(Vec<u8>, Vec<u8>)>, Error>)
        requires
            self.wf(),
            old(iter).wf(),
        ensures
            final(iter).wf(),
            final(iter).epoch_spec() == old(iter).epoch_spec(),
            old(iter).epoch_spec() != self.epoch_spec() ==> r == Err::<Option<(Vec<u8>, Vec<u8>)>, Error>(
                Error::InvalidIterator,
            ) && final(iter).remaining() == old(iter).remaining(),
            old(iter).epoch_spec() == self.epoch_spec() ==> r is Ok && match r->Ok_0 {
                Some(p) => {
                    &&& self.storage().contains_key(p.0@)
                    &&& self.storage()[p.0@] == p.1@
                    &&& exists|j: int|
                        0 <= j < old(iter).remaining().len() && old(iter).remaining()[j].0 == p.0@
                            && final(iter).remaining() == old(iter).remaining().subrange(
                            j + 1,
                            old(iter).remaining().len() as int,
                        ) && forall|i: int| 0 <= i < j ==> !self.storage().contains_key(
                            #[trigger] old(iter).remaining()[i].0,
                        )
                },
                None => final(iter).remaining().len() == 0 && forall|i: int|
                    0 <= i < old(iter).remaining().len() ==> !self.storage().contains_key(
                        #[trigger] old(iter).remaining()[i].0,
                    ),
            },
    {
        if iter.epoch != self.epoch {
            return Err(Error::InvalidIterator);
        }
        let ghost rem = iter.remaining();
        let ghost start = iter.pos as int;
        while iter.pos < iter.items.len()
            invariant
                self.wf(),
                iter.epoch == old(iter).epoch,
                old(iter).epoch == self.epoch,
                iter.items == old(iter).items,
                rem == old(iter).remaining(),
                start == old(iter).pos,
                start <= iter.pos <= iter.items.len(),
                forall|i: int| 0 <= i < iter.pos - start ==> !self.storage().contains_key(#[trigger] rem[i].0),
            decreases iter.items.len() - iter.pos,
        {
            let ghost j = iter.pos - start;
            assert(rem[j].0 == iter.items@[iter.pos as int].0@);
            match self.kv.get(&iter.items[iter.pos].0) {
                Some(v) => {
                    let k = copy_bytes(&iter.items[iter.pos].0);
                    iter.pos = iter.pos + 1;
                    assert(iter.remaining() =~= rem.subrange(j + 1, rem.len() as int));
                    return Ok(Some((k, v)));
                },
                None => {
                    iter.pos = iter.pos + 1;
                },
            }
        }
        assert(iter.remaining().len() == 0);
        Ok(None)
    }

    /// Appends `event` to this transaction's event log.
    pub fn emit_ibc_event(&mut self, event: IbcEvent) -> (r: Result<(), Error>)
        requires
            old(self).wf(),
        ensures
            r is Ok,
            final(self).wf(),
            final(self).pending_events() == old(self).pending_events().push(event@),
            final(self).storage() == old(self).storage(),
            final(self).committed_storage() == old(self).committed_storage(),
            final(self).balances() == old(self).balances(),
            final(self).committed_balances() == old(self).committed_balances(),
            final(self).committed_events() == old(self).committed_events(),
            final(self).epoch_spec() == old(self).epoch_spec(),
            final(self).height_spec() == old(self).height_spec(),
            final(self).headers_spec() == old(self).headers_spec(),
            final(self).minter_spec() == old(self).minter_spec(),
            final(self).diagnostics_spec() == old(self).diagnostics_spec(),
    {
        let ghost e = event@;
        self.events.push(event);
        assert(self.pending_events() =~= old(self).pending_events().push(e));
        Ok(())
    }

    /// The most recent event of type `event_type` emitted by this transaction.
    pub fn get_ibc_event(&self, event_type: &String) -> (r: Result<Option<IbcEvent>, Error>)
        ensures
            r is Ok,
            match r->Ok_0 {
                Some(e) => latest_event(self.pending_events(), event_type@) == Some(e@),
                None => latest_event(self.pending_events(), event_type@) is None,
            },
    {
        let ghost s = self.pending_events();
        let mut i: usize = self.events.len();
        assert(s.subrange(0, i as int) =~= s);
        while i > 0
            invariant
                i <= self.events.len(),
                s == events_view(self.events@),
                latest_event(s, event_type@) == latest_event(s.subrange(0, i as int), event_type@),
            decreases i,
        {
            let ghost sub = s.subrange(0, i as int);
            assert(sub.drop_last() =~= s.subrange(0, i - 1));
            assert(sub.last() == self.events@[i - 1]@);
            if self.events[i - 1].event_type == *event_type {
                return Ok(Some(self.events[i - 1].copy()));
            }
            i = i - 1;
        }
        Ok(None)
    }

    /// Moves a denominated amount of `token` from `src` to `dest`.
    pub fn transfer_token(
        &mut self,
        src: &Address,
        dest: &Address,
        token: &Address,
        amount: DenominatedAmount,
    ) -> (r: Result<(), Error>)
        requires
            old(self).wf(),
        ensures
            final(self).wf(),
            ctx_outcome(r, final(self).balances()) == as_ctx(transfer_result(old(self).balances(), *src, *dest, *token, amount.amount)),
            r != Err::<(), Error>(Error::Ledger(LedgerError::Overflow)),
            r.is_err() ==> final(self).balances() == old(self).balances(),
            final(self).same_except_balances(*old(self)),
    {
        lift(self.ledger.transfer(*src, *dest, *token, amount.amount))
    }

    /// Mints `amount` of `token` to `target` on behalf of `authority`; only
    /// the context's minting address is authorized.
    pub fn mint(&mut self, authority: &Address, target: &Address, token: &Address, amount: u128) -> (r: Result<(), Error>)
        requires
            old(self).wf(),
        ensures
            final(self).wf(),
            ctx_outcome(r, final(self).balances()) == as_ctx(mint_result(
                old(self).balances(),
                *authority,
                old(self).minter_spec(),
                *target,
                *token,
                amount,
            )),
            r.is_err() ==> final(self).balances() == old(self).balances(),
            final(self).same_except_balances(*old(self)),
    {
        lift(self.ledger.mint(*authority, self.minter, *target, *token, amount))
    }

    /// Mints a denominated amount of `token` to `target` as the inter-chain
    /// module.
    pub fn mint_token(&mut self, target: &Address, token: &Address, amount: DenominatedAmount) -> (r: Result<(), Error>)
        requires
            old(self).wf(),
        ensures
            final(self).wf(),
            ctx_outcome(r, final(self).balances()) == as_ctx(mint_result(
                old(self).balances(),
                Address::Internal(InternalAddress::Ibc),
                old(self).minter_spec(),
                *target,
                *token,
                amount.amount,
            )),
            r.is_err() ==> final(self).balances() == old(self).balances(),
            final(self).same_except_balances(*old(self)),
    {
        self.mint(&Address::Internal(InternalAddress::Ibc), target, token, amount.amount)
    }

    /// Burns a denominated amount of `token` from `target`.
    pub fn burn_token(&mut self, target: &Address, token: &Address, amount: DenominatedAmount) -> (r: Result<(), Error>)
        requires
            old(self).wf(),
        ensures
            final(self).wf(),
            ctx_outcome(r, final(self).balances()) == as_ctx(burn_result(old(self).balances(), *target, *token, amount.amount)),
            r != Err::<(), Error>(Error::Ledger(LedgerError::Overflow)),
            r.is_err() ==> final(self).balances() == old(self).balances(),
            final(self).same_except_balances(*old(self)),
    {
        lift(self.ledger.burn(*target, *token, amount.amount))
    }

    /// The height of the block being built.
    pub fn get_height(&self) -> (r: Result<BlockHeight, Error>)
        ensures
            r == Ok::<BlockHeight, Error>(self.height_spec()),
    {
        Ok(self.height)
    }

    /// The header of the committed block at `height`, if there is one.
    pub fn get_header(&self, height: BlockHeight) -> (r: Result<Option<Header>, Error>)
        ensures
            r is Ok,
            match r->Ok_0 {
                Some(h) => h.height == height && self.headers_spec().contains(h),
                None => forall|i: int| 0 <= i < self.headers_spec().len() ==> (#[trigger] self.headers_spec()[i]).height != height,
            },
    {
        let mut i: usize = 0;
        while i < self.headers.len()
            invariant
                i <= self.headers.len(),
                forall|j: int| 0 <= j < i ==> (#[trigger] self.headers@[j]).height != height,
            decreases self.headers.len() - i,
        {
            if self.headers[i].height == height {
                assert(self.headers@[i as int] == self.headers[i as int]);
                return Ok(Some(self.headers[i]));
            }
            i = i + 1;
        }
        Ok(None)
    }

    /// Records a diagnostic message; it has no effect on execution.
    pub fn log_string(&mut self, message: String)
        requires
            old(self).wf(),
        ensures
            final(self).wf(),
            final(self).diagnostics_spec() == old(self).diagnostics_spec().push(message@),
            final(self).storage() == old(self).storage(),
            final(self).same_except_storage(*old(self)),
    {
        let ghost m = message@;
        self.diagnostics.push(message);
        assert(self.diagnostics_spec() =~= old(self).diagnostics_spec().push(m));
    }

    /// The diagnostic messages logged so far, oldest first; taking them
    /// empties the list.
    pub fn take_diagnostics(&mut self) -> (r: Vec<String>)
        requires
            old(self).wf(),
        ensures
            final(self).wf(),
            r@.map_values(|m: String| m@) == old(self).diagnostics_spec(),
            final(self).diagnostics_spec().len() == 0,
            final(self).storage() == old(self).storage(),
            final(self).same_except_storage(*old(self)),
    {
        let mut r: Vec<String> = Vec::new();
        std::mem::swap(&mut self.diagnostics, &mut r);
        assert(self.diagnostics_spec() =~= Seq::<Seq<char>>::empty());
        r
    }

    fn next_epoch(&mut self)
        ensures
            final(self).epoch != old(self).epoch,
            final(self).committed_kv == old(self).committed_kv,
            final(self).committed_ledger == old(self).committed_ledger,
            final(self).committed_events == old(self).committed_events,
            final(self).kv == old(self).kv,
            final(self).ledger == old(self).ledger,
            final(self).events == old(self).events,
            final(self).height == old(self).height,
            final(self).headers == old(self).headers,
            final(self).minter == old(self).minter,
            final(self).diagnostics == old(self).diagnostics,
    {
        if self.epoch < u64::MAX {
            self.epoch = self.epoch + 1;
        } else {
            self.epoch = 0;
        }
    }

    /// Makes this transaction's writes, ledger changes and events durable;
    /// cursors made before are invalidated.
    pub fn commit(&mut self)
        requires
            old(self).wf(),
        ensures
            final(self).wf(),
            final(self).idle(),
            final(self).committed_storage() == old(self).storage(),
            final(self).committed_balances() == old(self).balances(),
            final(self).committed_events() == old(self).committed_events() + old(self).pending_events(),
            final(self).epoch_spec() != old(self).epoch_spec(),
            final(self).height_spec() == old(self).height_spec(),
            final(self).headers_spec() == old(self).headers_spec(),
            final(self).minter_spec() == old(self).minter_spec(),
    {
        self.committed_kv = self.kv.copy();
        self.committed_ledger = self.ledger.copy();
        let ghost done = self.committed_events@;
        let mut pending: Vec<IbcEvent> = Vec::new();
        std::mem::swap(&mut self.events, &mut pending);
        let ghost p = pending@;
        self.committed_events.append(&mut pending);
        assert(self.committed_events@ =~= done + p);
        assert(events_view(done + p) =~= events_view(done) + events_view(p));
        assert(self.pending_events() =~= Seq::<EventView>::empty());
        self.next_epoch();
    }

    /// Discards this transaction's writes, ledger changes and events: what it
    /// sees is again what is committed. Cursors made before are invalidated.
    pub fn abort(&mut self)
        requires
            old(self).wf(),
        ensures
            final(self).wf(),
            final(self).idle(),
            final(self).committed_storage() == old(self).committed_storage(),
            final(self).committed_balances() == old(self).committed_balances(),
            final(self).committed_events() == old(self).committed_events(),
            final(self).epoch_spec() != old(self).epoch_spec(),
            final(self).height_spec() == old(self).height_spec(),
            final(self).headers_spec() == old(self).headers_spec(),
            final(self).minter_spec() == old(self).minter_spec(),
    {
        self.kv = self.committed_kv.copy();
        self.ledger = self.committed_ledger.copy();
        self.events = Vec::new();
        assert(self.pending_events() =~= Seq::<EventView>::empty());
        self.next_epoch();
    }
}

/// A caller's view of a ledger operation: the ledger after it, or the error.
pub open spec fn ctx_outcome(r: Result<(), Error>, after: Map<LedgerKey, u128>) -> Result<Map<LedgerKey, u128>, Error> {
    match r {
        Ok(_) => Ok(after),
        Err(e) => Err(e),
    }
}

/// A ledger outcome with its error as the context reports it.
pub open spec fn as_ctx(x: Result<Map<LedgerKey, u128>, LedgerError>) -> Result<Map<LedgerKey, u128>, Error> {
    match x {
        Ok(m) => Ok(m),
        Err(e) => Err(Error::Ledger(e)),
    }
}

fn lift(r: Result<(), LedgerError>) -> (o: Result<(), Error>)
    ensures
        match r {
            Ok(_) => o is Ok,
            Err(e) => o == Err::<(), Error>(Error::Ledger(e)),
        },
{
    match r {
        Ok(()) => Ok(()),
        Err(e) => Err(Error::Ledger(e)),
    }
}

} // verus!
