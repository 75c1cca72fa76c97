//! Hex conversion at the host boundary.

use cardano_connector::{Address, ConnectedWallet, Extension, Wallet};

#[test]
fn address_hex_round_trip() {
    let addr = Address::from_hex("01aB2f").unwrap();
    assert_eq!(addr.bytes, vec![0x01, 0xab, 0x2f]);
    assert_eq!(addr.to_hex(), "01ab2f");
    assert_eq!(addr.to_bytes(), vec![0x01, 0xab, 0x2f]);
}

#[test]
fn address_rejects_bad_hex() {
    assert!(Address::from_hex("0").is_err());
    assert!(Address::from_hex("zz").is_err());
}

#[test]
fn wallet_metadata() {
    let w = Wallet::new(
        "lace".to_string(),
        "0.1.0".to_string(),
        "data:;base64,".to_string(),
        vec![Extension { cip: 30 }],
    );
    assert_eq!(w.name(), "lace");
    assert_eq!(w.version(), "0.1.0");
    assert_eq!(w.icon(), "data:;base64,");
    assert_eq!(w.supported_extensions(), vec![Extension { cip: 30 }]);
    let c = ConnectedWallet::new(w);
    assert_eq!(c.name(), "lace");
    assert_eq!(c.supported_extensions(), vec![Extension { cip: 30 }]);
}
