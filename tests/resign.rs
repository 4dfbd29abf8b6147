use namada_ctx::ctx::Ctx;
use namada_ctx::tx::{
    apply_tx, decode_address_bytes, encode_address_bytes, execute_tx, steward_key, DecodeError, Tx,
    TxError,
};
use namada_ctx::types::{Address, InternalAddress};

#[test]
fn address_bytes() {
    let a = Address::Established(0x0102030405060708);
    assert_eq!(encode_address_bytes(&a), vec![0, 8, 7, 6, 5, 4, 3, 2, 1]);
    assert_eq!(decode_address_bytes(&vec![0, 8, 7, 6, 5, 4, 3, 2, 1]), Some(a));
    assert_eq!(decode_address_bytes(&vec![1, 255, 0, 0, 0, 0, 0, 0, 0]), Some(Address::Implicit(255)));
    assert_eq!(
        decode_address_bytes(&vec![2, 1]),
        Some(Address::Internal(InternalAddress::Pgf))
    );
    assert_eq!(decode_address_bytes(&vec![2, 5]), None);
    assert_eq!(decode_address_bytes(&vec![0, 1, 2]), None);
    assert_eq!(decode_address_bytes(&vec![]), None);
    let m = Address::Implicit(u64::MAX);
    assert_eq!(decode_address_bytes(&encode_address_bytes(&m)), Some(m));
}

#[test]
fn steward_key_layout() {
    let k = steward_key(&Address::Internal(InternalAddress::Governance));
    assert_eq!(k, b"pgf/stewards/\x02\x04".to_vec());
}

#[test]
fn resign_removes_steward() {
    let a = Address::Established(42);
    let mut ctx = Ctx::new(1, vec![]);
    ctx.write(&steward_key(&a), vec![1]).unwrap();
    ctx.commit();
    let tx = Tx::new(Some(encode_address_bytes(&a)));
    assert_eq!(execute_tx(&mut ctx, &tx), Ok(()));
    assert_eq!(ctx.has_key(&steward_key(&a)), Ok(false));
}

#[test]
fn missing_data_is_refused() {
    let mut ctx = Ctx::new(1, vec![]);
    assert_eq!(apply_tx(&mut ctx, &Tx::new(None)), Err(TxError::Decode(DecodeError::MissingData)));
}

#[test]
fn bad_address_is_refused_and_discarded() {
    let a = Address::Implicit(7);
    let mut ctx = Ctx::new(1, vec![]);
    ctx.write(&steward_key(&a), vec![1]).unwrap();
    ctx.commit();
    ctx.write(&b"scratch".to_vec(), vec![5]).unwrap();
    let tx = Tx::new(Some(vec![3, 0]));
    assert_eq!(execute_tx(&mut ctx, &tx), Err(TxError::Decode(DecodeError::InvalidAddress)));
    assert_eq!(ctx.read(&b"scratch".to_vec()), Ok(None));
    assert_eq!(ctx.read(&steward_key(&a)), Ok(Some(vec![1])));
    assert_eq!(tx.data(), Some(vec![3, 0]));
}
