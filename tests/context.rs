use namada_ctx::ctx::{Ctx, Error, Header, IbcEvent};
use namada_ctx::ledger::{LedgerError, LedgerKey};
use namada_ctx::types::{Address, DenominatedAmount, InternalAddress};

fn key(s: &str) -> Vec<u8> {
    s.as_bytes().to_vec()
}

fn event(t: &str, v: &str) -> IbcEvent {
    IbcEvent { event_type: t.to_string(), attributes: vec![("value".to_string(), v.to_string())] }
}

fn amount(n: u128) -> DenominatedAmount {
    DenominatedAmount { amount: n, denom: 6 }
}

#[test]
fn reads_see_own_writes() {
    let mut ctx = Ctx::new(10, vec![]);
    assert_eq!(ctx.read(&key("a/b")), Ok(None));
    assert_eq!(ctx.write(&key("a/b"), vec![1, 2]), Ok(()));
    assert_eq!(ctx.read(&key("a/b")), Ok(Some(vec![1, 2])));
    assert_eq!(ctx.has_key(&key("a/b")), Ok(true));
    assert_eq!(ctx.write(&key("a/b"), vec![3]), Ok(()));
    assert_eq!(ctx.read(&key("a/b")), Ok(Some(vec![3])));
    assert_eq!(ctx.delete(&key("a/b")), Ok(()));
    assert_eq!(ctx.has_key(&key("a/b")), Ok(false));
}

#[test]
fn abort_restores_store() {
    let mut ctx = Ctx::new(1, vec![]);
    ctx.write(&key("x"), vec![7]).unwrap();
    ctx.commit();
    ctx.write(&key("x"), vec![8]).unwrap();
    ctx.write(&key("y"), vec![9]).unwrap();
    ctx.delete(&key("x")).unwrap();
    ctx.mint_token(&Address::Implicit(1), &Address::Established(5), amount(10)).unwrap();
    ctx.emit_ibc_event(event("t", "1")).unwrap();
    ctx.abort();
    assert_eq!(ctx.read(&key("x")), Ok(Some(vec![7])));
    assert_eq!(ctx.read(&key("y")), Ok(None));
    assert_eq!(ctx.get_ibc_event(&"t".to_string()).unwrap().is_none(), true);
    assert_eq!(
        ctx.burn_token(&Address::Implicit(1), &Address::Established(5), amount(1)),
        Err(Error::Ledger(LedgerError::InsufficientBalance))
    );
}

#[test]
fn iter_prefix_lists_pending_and_committed() {
    let mut ctx = Ctx::new(1, vec![]);
    ctx.write(&key("p/3"), vec![3]).unwrap();
    ctx.write(&key("p/1"), vec![1]).unwrap();
    ctx.write(&key("q/1"), vec![9]).unwrap();
    ctx.write(&key("p"), vec![0]).unwrap();
    ctx.commit();
    ctx.write(&key("p/2"), vec![2]).unwrap();
    ctx.write(&key("p/1"), vec![11]).unwrap();
    ctx.write(&key("p/10"), vec![10]).unwrap();
    let mut it = ctx.iter_prefix(&key("p/")).unwrap();
    let mut seen = Vec::new();
    while let Some(p) = ctx.iter_next(&mut it).unwrap() {
        seen.push(p);
    }
    assert_eq!(
        seen,
        vec![
            (key("p/1"), vec![11]),
            (key("p/10"), vec![10]),
            (key("p/2"), vec![2]),
            (key("p/3"), vec![3]),
        ]
    );
    assert_eq!(ctx.iter_next(&mut it), Ok(None));
}

#[test]
fn iterator_invalid_after_commit() {
    let mut ctx = Ctx::new(1, vec![]);
    ctx.write(&key("p/1"), vec![1]).unwrap();
    let mut it = ctx.iter_prefix(&key("p/")).unwrap();
    ctx.commit();
    assert_eq!(ctx.iter_next(&mut it), Err(Error::InvalidIterator));
}

#[test]
fn latest_event_by_type() {
    let mut ctx = Ctx::new(1, vec![]);
    ctx.emit_ibc_event(event("send_packet", "1")).unwrap();
    ctx.emit_ibc_event(event("recv_packet", "2")).unwrap();
    ctx.emit_ibc_event(event("send_packet", "3")).unwrap();
    let e = ctx.get_ibc_event(&"send_packet".to_string()).unwrap().unwrap();
    assert_eq!(e.attributes[0].1, "3");
    let e = ctx.get_ibc_event(&"recv_packet".to_string()).unwrap().unwrap();
    assert_eq!(e.attributes[0].1, "2");
    assert!(ctx.get_ibc_event(&"ack".to_string()).unwrap().is_none());
}

#[test]
fn height_and_headers() {
    let h = Header { height: 4, hash: 44, time: 400 };
    let ctx = Ctx::new(5, vec![Header { height: 3, hash: 33, time: 300 }, h]);
    assert_eq!(ctx.get_height(), Ok(5));
    assert_eq!(ctx.get_header(4), Ok(Some(h)));
    assert_eq!(ctx.get_header(5), Ok(None));
}

#[test]
fn context_ledger_operations() {
    let mut ctx = Ctx::new(1, vec![]);
    let token = Address::Established(5);
    let (a, b) = (Address::Implicit(1), Address::Implicit(2));
    assert_eq!(ctx.mint_token(&a, &token, amount(10)), Ok(()));
    assert_eq!(ctx.transfer_token(&a, &b, &token, amount(4)), Ok(()));
    assert_eq!(
        ctx.transfer_token(&a, &b, &token, amount(7)),
        Err(Error::Ledger(LedgerError::InsufficientBalance))
    );
    assert_eq!(ctx.mint(&a, &b, &token, 3), Err(Error::Ledger(LedgerError::Unauthorized)));
    let ibc = Address::Internal(InternalAddress::Ibc);
    assert_eq!(ctx.mint(&ibc, &b, &token, 3), Ok(()));
    assert_eq!(ctx.burn_token(&b, &token, amount(2)), Ok(()));
    ctx.commit();
    let _ = LedgerKey::Supply(token);
    assert_eq!(
        ctx.burn_token(&b, &token, amount(6)),
        Err(Error::Ledger(LedgerError::InsufficientBalance))
    );
    assert_eq!(ctx.burn_token(&b, &token, amount(5)), Ok(()));
}

#[test]
fn diagnostics_are_kept_in_order() {
    let mut ctx = Ctx::new(1, vec![]);
    ctx.log_string("one".to_string());
    ctx.log_string("two".to_string());
    assert_eq!(ctx.take_diagnostics(), vec!["one".to_string(), "two".to_string()]);
    assert!(ctx.take_diagnostics().is_empty());
}

#[test]
fn cursor_sees_later_writes_and_deletes() {
    let mut ctx = Ctx::new(1, vec![]);
    ctx.write(&vec![1], vec![1]).unwrap();
    ctx.write(&vec![1, 5], vec![15]).unwrap();
    let mut it = ctx.iter_prefix(&vec![1]).unwrap();
    ctx.write(&vec![1], vec![2]).unwrap();
    assert_eq!(ctx.iter_next(&mut it), Ok(Some((vec![1], vec![2]))));
    assert_eq!(ctx.read(&vec![1]), Ok(Some(vec![2])));
    ctx.delete(&vec![1, 5]).unwrap();
    assert_eq!(ctx.iter_next(&mut it), Ok(None));
}
