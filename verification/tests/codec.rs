//! The binary reader, writer, and the value codec.

use cardano_connector::cbor::{Len, Reader};
use cardano_connector::value::{AssetEntry, AssetName, PolicyAssets, PolicyId};
use cardano_connector::{Value, decode_value, encode_value, sumup};

#[test]
fn read_uints_of_every_width() {
    let bytes = vec![
        0x17, // 23
        0x18, 0x2a, // 42
        0x19, 0x01, 0x00, // 256
        0x1a, 0x00, 0x01, 0x00, 0x00, // 65536
        0x1b, 0x00, 0x00, 0x00, 0x01, 0x00, 0x00, 0x00, 0x00, // 2^32
    ];
    let mut rd = Reader::new(&bytes);
    assert_eq!(rd.read_uint(), Ok(23));
    assert_eq!(rd.read_uint(), Ok(42));
    assert_eq!(rd.read_uint(), Ok(256));
    assert_eq!(rd.read_uint(), Ok(65536));
    assert_eq!(rd.read_uint(), Ok(0x1_0000_0000));
}

#[test]
fn read_negative_int() {
    let bytes = vec![0x21]; // -2
    let mut rd = Reader::new(&bytes);
    assert_eq!(rd.read_int(), Ok(-2));
}

#[test]
fn read_text_checks_utf8() {
    let good = vec![0x63, 0xe2, 0x82, 0xac]; // text(3): "€"
    let mut rd = Reader::new(&good);
    assert_eq!(rd.read_text(), Ok(vec![0xe2, 0x82, 0xac]));

    let bad = vec![0x62, 0xc0, 0x80]; // overlong encoding is rejected
    let mut rd = Reader::new(&bad);
    assert!(rd.read_text().is_err());
}

#[test]
fn read_headers() {
    let bytes = vec![0x84, 0xbf];
    let mut rd = Reader::new(&bytes);
    assert_eq!(rd.read_array_header(), Ok(Len::Def(4)));
    assert_eq!(rd.read_map_header(), Ok(Len::Indef));
}

#[test]
fn skip_nested_item() {
    // [1, [2, 3], {4: 5}] tag(0) 6, then 7
    let bytes = vec![0x83, 0x01, 0x82, 0x02, 0x03, 0xa1, 0x04, 0x05, 0xc0, 0x06, 0x07];
    let mut rd = Reader::new(&bytes);
    assert!(rd.skip_item().is_ok()); // the whole array
    assert!(rd.skip_item().is_ok()); // the tagged 6
    assert_eq!(rd.read_uint(), Ok(7));
}

fn sample_value() -> Value {
    Value::Multiasset(
        1_000_000,
        vec![
            PolicyAssets {
                policy: PolicyId { bytes: vec![0x11; 28] },
                assets: vec![
                    AssetEntry { name: AssetName { bytes: b"alpha".to_vec() }, amount: 3 },
                    AssetEntry { name: AssetName { bytes: b"beta".to_vec() }, amount: 300 },
                ],
            },
            PolicyAssets {
                policy: PolicyId { bytes: vec![0x22; 28] },
                assets: vec![AssetEntry {
                    name: AssetName { bytes: Vec::new() },
                    amount: u64::MAX,
                }],
            },
        ],
    )
}

#[test]
fn value_round_trip() {
    // Aggregate first, so the encoded value is canonical, then re-encode
    // and decode again.
    let outputs = vec![
        cardano_connector::TransactionOutput::PostAlonzo { address: vec![], value: sample_value() },
    ];
    let aggregated = sumup(&outputs).unwrap();
    let bytes = encode_value(&aggregated);
    let decoded = decode_value(&bytes).unwrap();
    assert_eq!(decoded, aggregated);
    // and the re-encoding is identical byte for byte
    assert_eq!(encode_value(&decoded), bytes);
}

#[test]
fn plain_coin_round_trip() {
    let v = Value::Coin(123_456_789);
    let bytes = encode_value(&v);
    assert_eq!(bytes, vec![0x1a, 0x07, 0x5b, 0xcd, 0x15]);
    assert_eq!(decode_value(&bytes), Ok(v));
}

#[test]
fn decode_rejects_garbage() {
    assert!(decode_value(&[0xff]).is_err());
    assert!(decode_value(&[]).is_err());
    assert!(decode_value(&[0x82, 0x00]).is_err()); // truncated array
}

#[test]
fn decode_utxo_map_encoding() {
    // [[txid(32), 5], {0: bytes(2) address, 1: 1000, 9: "note"}]
    let mut b = vec![0x82, 0x82, 0x58, 0x20];
    b.extend((0u8..32).map(|i| i));
    b.push(0x05);
    b.extend(vec![
        0xa3, // map(3)
        0x00, 0x42, 0x0a, 0x0b, // 0: address
        0x01, 0x19, 0x03, 0xe8, // 1: value Coin(1000)
        0x09, 0x64, 0x6e, 0x6f, 0x74, 0x65, // 9: text "note", discarded
    ]);
    let u = cardano_connector::decode_utxo(&b).unwrap();
    assert_eq!(u.transaction_id().bytes, (0u8..32).collect::<Vec<u8>>());
    assert_eq!(u.index(), 5);
    assert_eq!(u.amount(), 1000);
    assert_eq!(u.address(), "0a0b");
    assert!(matches!(
        u.output,
        cardano_connector::TransactionOutput::PostAlonzo { .. }
    ));
}

#[test]
fn decode_utxo_legacy_encoding() {
    // [[txid(32), 0], [bytes(1) address, 7]]
    let mut b = vec![0x82, 0x82, 0x58, 0x20];
    b.extend(std::iter::repeat(0xab).take(32));
    b.push(0x00);
    b.extend(vec![0x82, 0x41, 0x0c, 0x07]);
    let u = cardano_connector::decode_utxo(&b).unwrap();
    assert_eq!(u.index(), 0);
    assert_eq!(u.amount(), 7);
    assert!(matches!(
        u.output,
        cardano_connector::TransactionOutput::Legacy { .. }
    ));
}

#[test]
fn decode_utxo_rejects_short_hash() {
    // [[txid(2), 0], [bytes(1), 7]]
    let b = vec![0x82, 0x82, 0x42, 0x01, 0x02, 0x00, 0x82, 0x41, 0x0c, 0x07];
    assert!(cardano_connector::decode_utxo(&b).is_err());
}
