//! Aggregation and consolidation of unspent outputs.

use cardano_connector::value::{AssetEntry, AssetName, PolicyAssets, PolicyId};
use cardano_connector::{GroupUtxoError, TransactionInput, TransactionOutput, Utxo, Value};
use cardano_connector::{group_utxos, sumup};

fn policy(tag: u8) -> PolicyId {
    PolicyId { bytes: vec![tag; 28] }
}

fn asset(name: &[u8], amount: u64) -> AssetEntry {
    AssetEntry { name: AssetName { bytes: name.to_vec() }, amount }
}

fn multi(coin: u64, entries: Vec<(u8, Vec<AssetEntry>)>) -> Value {
    Value::Multiasset(
        coin,
        entries
            .into_iter()
            .map(|(tag, assets)| PolicyAssets { policy: policy(tag), assets })
            .collect(),
    )
}

fn out(value: Value) -> TransactionOutput {
    TransactionOutput::PostAlonzo { address: vec![0x01, 0x02], value }
}

fn legacy_out(value: Value) -> TransactionOutput {
    TransactionOutput::Legacy { address: vec![0x01, 0x02], amount: value }
}

fn utxo(ix: u64, value: Value) -> Utxo {
    Utxo {
        input: TransactionInput { transaction_id: cardano_connector::utxo::Hash::new(vec![ix as u8; 32]), index: ix },
        output: out(value),
    }
}

#[test]
fn sumup_empty_is_zero_coin() {
    let outputs: Vec<TransactionOutput> = Vec::new();
    assert_eq!(sumup(&outputs), Ok(Value::Coin(0)));
}

#[test]
fn sumup_adds_coins() {
    let outputs = vec![out(Value::Coin(5)), out(Value::Coin(7))];
    assert_eq!(sumup(&outputs), Ok(Value::Coin(12)));
}

#[test]
fn sumup_adds_assets() {
    let outputs = vec![
        out(multi(0, vec![(0xaa, vec![asset(b"asset1", 3)])])),
        out(multi(0, vec![(0xaa, vec![asset(b"asset1", 4)])])),
    ];
    assert_eq!(sumup(&outputs), Ok(multi(0, vec![(0xaa, vec![asset(b"asset1", 7)])])));
}

#[test]
fn sumup_mixes_encodings() {
    let outputs = vec![
        legacy_out(multi(10, vec![(0xaa, vec![asset(b"a", 1)])])),
        out(multi(20, vec![(0xbb, vec![asset(b"b", 2)])])),
    ];
    let expected = multi(
        30,
        vec![(0xaa, vec![asset(b"a", 1)]), (0xbb, vec![asset(b"b", 2)])],
    );
    assert_eq!(sumup(&outputs), Ok(expected));
}

#[test]
fn sumup_prunes_zero_amounts() {
    // A zero amount from the wire is absent from the aggregate, and a
    // policy left empty by pruning is absent as well.
    let outputs = vec![out(multi(
        9,
        vec![
            (0xaa, vec![asset(b"gone", 0), asset(b"kept", 5)]),
            (0xbb, vec![asset(b"empty", 0)]),
        ],
    ))];
    assert_eq!(sumup(&outputs), Ok(multi(9, vec![(0xaa, vec![asset(b"kept", 5)])])));
}

#[test]
fn sumup_prunes_to_plain_coin() {
    let outputs = vec![out(multi(4, vec![(0xaa, vec![asset(b"gone", 0)])]))];
    assert_eq!(sumup(&outputs), Ok(Value::Coin(4)));
}

#[test]
fn sumup_is_order_independent() {
    let a = out(multi(1, vec![(0xaa, vec![asset(b"x", 3)])]));
    let b = out(multi(2, vec![(0xbb, vec![asset(b"y", 4)])]));
    let c = out(Value::Coin(10));
    let one = sumup(&vec![a.clone(), b.clone(), c.clone()]).unwrap();
    let two = sumup(&vec![c, b, a]).unwrap();
    assert_eq!(one, two);
}

#[test]
fn sumup_coin_overflow() {
    let outputs = vec![out(Value::Coin(u64::MAX)), out(Value::Coin(1))];
    assert_eq!(sumup(&outputs), Err(GroupUtxoError::Overflow));
}

#[test]
fn sumup_asset_overflow() {
    let outputs = vec![
        out(multi(0, vec![(0xaa, vec![asset(b"big", u64::MAX)])])),
        out(multi(0, vec![(0xaa, vec![asset(b"big", 1)])])),
    ];
    assert_eq!(sumup(&outputs), Err(GroupUtxoError::Overflow));
}

#[test]
fn group_utxos_deducts_fee() {
    let utxos = vec![
        utxo(0, multi(60, vec![(0xaa, vec![asset(b"tok", 5)])])),
        utxo(1, Value::Coin(40)),
    ];
    let to = cardano_connector::Address::new(vec![0x0a, 0x0b]);
    let (output, inputs) = group_utxos(&utxos, 40, &to).unwrap();
    match output {
        TransactionOutput::PostAlonzo { address, value } => {
            assert_eq!(address, vec![0x0a, 0x0b]);
            assert_eq!(value, multi(60, vec![(0xaa, vec![asset(b"tok", 5)])]));
        }
        TransactionOutput::Legacy { .. } => panic!("wrong output encoding"),
    }
    assert_eq!(inputs.len(), 2);
    assert_eq!(inputs[0].index, 0);
    assert_eq!(inputs[1].index, 1);
    assert_eq!(inputs[0].transaction_id.bytes, vec![0u8; 32]);
}

#[test]
fn group_utxos_insufficient_funds() {
    let utxos = vec![utxo(0, Value::Coin(60)), utxo(1, Value::Coin(40))];
    let to = cardano_connector::Address::new(vec![0x0a]);
    assert_eq!(
        group_utxos(&utxos, 150, &to),
        Err(GroupUtxoError::InsufficientFunds { fee: 150, available: 100 })
    );
}

#[test]
fn utxo_accessors() {
    let u = utxo(7, multi(33, vec![(0xcc, vec![asset(b"n", 1)])]));
    assert_eq!(u.index(), 7);
    assert_eq!(u.amount(), 33);
    assert_eq!(u.transaction_id().bytes, vec![7u8; 32]);
    assert_eq!(u.address(), "0102");
}
