//! Decoding of signed envelopes and signing-key structures.

use cardano_connector::{DecodeError, SignedData, decode_cose_sig1, extract_cose_key};

const COSE_KEY: &str = "a50101025839012abad624652d7b0fa0d00744a767b09dd0c9e8ef890966103802be7875d8bdc2a0facf8b85d2457c2417098703cf29067cea3eec03071f6e0327200621582074647c101ed98ade960ebad955f60961d1fcf77cb8a0bac9d6b778227685d1ae";
const COSE_SIG: &str = "845882a30127045839012abad624652d7b0fa0d00744a767b09dd0c9e8ef890966103802be7875d8bdc2a0facf8b85d2457c2417098703cf29067cea3eec03071f6e67616464726573735839012abad624652d7b0fa0d00744a767b09dd0c9e8ef890966103802be7875d8bdc2a0facf8b85d2457c2417098703cf29067cea3eec03071f6ea166686173686564f4446461746158402b45771561fdb6041326331a101a99d4bfe4f1a5c5b007f3d2f4f2e7f3f34d45aa5fedcd3f520e1799974c707996475693170531e2ad4a05ece3beb456f35a0f";

#[test]
fn signed_data_from_bytes() {
    let result = SignedData::from_bytes(COSE_KEY, COSE_SIG).unwrap();

    assert_eq!(result.key.len(), 32);
    assert_eq!(result.signature.len(), 64);

    let key: &[u8; 32] = result.key.as_slice().try_into().unwrap();
    let signature: &[u8; 64] = result.signature.as_slice().try_into().unwrap();
    assert!(cryptoxide::ed25519::verify(&result.signed_data, key, signature));
}

#[test]
fn from_bytes_rejects_bad_hex() {
    assert_eq!(
        SignedData::from_bytes(COSE_KEY, "84zz"),
        Err(DecodeError::MalformedHex)
    );
    assert_eq!(
        SignedData::from_bytes("a5010", COSE_SIG),
        Err(DecodeError::MalformedHex)
    );
}

/// An envelope whose protected header is an empty map: no address key.
fn envelope_without_address() -> Vec<u8> {
    let mut b = vec![
        0x84, // array(4)
        0x41, 0xa0, // protected: bytes(1) holding map(0)
        0xa0, // unprotected: map(0)
        0x44, 0x01, 0x02, 0x03, 0x04, // payload: bytes(4)
        0x58, 0x40, // signature: bytes(64)
    ];
    b.extend(std::iter::repeat(0x07).take(64));
    b
}

#[test]
fn envelope_missing_address() {
    let bytes = envelope_without_address();
    assert_eq!(decode_cose_sig1(&bytes), Err(DecodeError::MissingAddress));
}

/// An envelope with a well-formed protected header but a 63-byte
/// signature.
fn envelope_with_short_signature() -> Vec<u8> {
    let mut b = vec![
        0x84, // array(4)
        0x4c, // protected: bytes(12)
        0xa1, // ... map(1)
        0x67, 0x61, 0x64, 0x64, 0x72, 0x65, 0x73, 0x73, // ... text(7) "address"
        0x42, 0x0a, 0x0b, // ... bytes(2) address value
        0xa0, // unprotected: map(0)
        0x41, 0x05, // payload: bytes(1)
        0x58, 0x3f, // signature: bytes(63)
    ];
    b.extend(std::iter::repeat(0x07).take(63));
    b
}

#[test]
fn envelope_malformed_signature() {
    let bytes = envelope_with_short_signature();
    assert_eq!(decode_cose_sig1(&bytes), Err(DecodeError::MalformedSignature));
}

#[test]
fn envelope_wrong_array_length() {
    // array(3) instead of array(4)
    let bytes = vec![0x83, 0x41, 0xa0, 0xa0, 0x41, 0x05];
    assert_eq!(decode_cose_sig1(&bytes), Err(DecodeError::MalformedEnvelope));
}

#[test]
fn envelope_extracts_fields() {
    let mut b = vec![
        0x84, // array(4)
        0x4c, // protected: bytes(12)
        0xa1, 0x67, 0x61, 0x64, 0x64, 0x72, 0x65, 0x73, 0x73, 0x42, 0x0a, 0x0b,
        0xa1, 0x01, 0x02, // unprotected: map(1) {1: 2}, decoded and discarded
        0x42, 0x05, 0x06, // payload: bytes(2)
        0x58, 0x40,
    ];
    b.extend((0u8..64).map(|i| i));
    let sd = decode_cose_sig1(&b).unwrap();
    assert_eq!(sd.address, vec![0x0a, 0x0b]);
    assert_eq!(sd.signature, (0u8..64).collect::<Vec<u8>>());
    assert_eq!(sd.key, vec![0u8; 32]);
    // Sig_structure: array(4)[ "Signature1", protected, b"", payload ]
    let mut expected = vec![0x84, 0x6a];
    expected.extend(b"Signature1");
    expected.extend(vec![0x4c, 0xa1, 0x67, 0x61, 0x64, 0x64, 0x72, 0x65, 0x73, 0x73, 0x42, 0x0a, 0x0b]);
    expected.push(0x40);
    expected.extend(vec![0x42, 0x05, 0x06]);
    assert_eq!(sd.signed_data, expected);
}

#[test]
fn cose_key_missing() {
    // map(1) { 1: 2 } has no -2 entry
    let bytes = vec![0xa1, 0x01, 0x02];
    assert_eq!(extract_cose_key(&bytes), Err(DecodeError::MissingKey));
}

#[test]
fn cose_key_wrong_size() {
    // map(1) { -2: bytes(2) }
    let bytes = vec![0xa1, 0x21, 0x42, 0x01, 0x02];
    assert_eq!(extract_cose_key(&bytes), Err(DecodeError::MalformedKey));
}

#[test]
fn cose_key_found() {
    // map(2) { 1: 1, -2: bytes(32) }
    let mut bytes = vec![0xa2, 0x01, 0x01, 0x21, 0x58, 0x20];
    bytes.extend((0u8..32).map(|i| i));
    assert_eq!(extract_cose_key(&bytes), Ok((0u8..32).collect::<Vec<u8>>()));
}

#[test]
fn cose_key_indefinite_map() {
    // map(indefinite) { -2: bytes(32) } break
    let mut bytes = vec![0xbf, 0x21, 0x58, 0x20];
    bytes.extend(std::iter::repeat(0x11).take(32));
    bytes.push(0xff);
    assert_eq!(extract_cose_key(&bytes), Ok(vec![0x11u8; 32]));
}
