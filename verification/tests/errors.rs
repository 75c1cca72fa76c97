//! Error codes handed back by the host wallet, and their classification.

use cardano_connector::{APIError, APIErrorCode, DataSignErrorCode, DecodeError, NetworkId};

#[test]
fn api_error_code_json() {
    assert_eq!(APIErrorCode::from_code(-1), APIErrorCode::InvalidRequest);
    assert_eq!(APIErrorCode::from_code(-2), APIErrorCode::InternalError);
    assert_eq!(APIErrorCode::from_code(-3), APIErrorCode::Refused);
    assert_eq!(APIErrorCode::from_code(-4), APIErrorCode::AccountChange);
    assert_eq!(APIErrorCode::from_code(-42), APIErrorCode::Unknown(-42));
}

#[test]
fn api_error_json() {
    assert_eq!(
        APIError { code: APIErrorCode::from_code(-1), info: "Parameter malformed.".to_string() },
        APIError { code: APIErrorCode::InvalidRequest, info: "Parameter malformed.".to_string() }
    );
    assert_eq!(
        APIError { code: APIErrorCode::from_code(-2), info: "Internal Error.".to_string() },
        APIError { code: APIErrorCode::InternalError, info: "Internal Error.".to_string() }
    );
    assert_eq!(
        APIError { code: APIErrorCode::from_code(-3), info: "Access Denied.".to_string() },
        APIError { code: APIErrorCode::Refused, info: "Access Denied.".to_string() }
    );
    assert_eq!(
        APIError { code: APIErrorCode::from_code(-4), info: "Account has changed.".to_string() },
        APIError { code: APIErrorCode::AccountChange, info: "Account has changed.".to_string() }
    );
}

#[test]
fn sign_data_error_code_json() {
    assert_eq!(DataSignErrorCode::from_code(1), DataSignErrorCode::ProofGeneration);
    assert_eq!(DataSignErrorCode::from_code(2), DataSignErrorCode::AddressNotPK);
    assert_eq!(DataSignErrorCode::from_code(3), DataSignErrorCode::UserDeclined);
    assert_eq!(DataSignErrorCode::from_code(42), DataSignErrorCode::Unknown(42));
}

#[test]
fn network_id_classification() {
    assert_eq!(NetworkId::from_code(0), NetworkId::PreProduction);
    assert_eq!(NetworkId::from_code(1), NetworkId::Mainnet);
    assert_eq!(NetworkId::from_code(9), NetworkId::Unknown(9));
    assert_eq!(u8::from(NetworkId::Mainnet), 1);
    assert_eq!(u8::from(NetworkId::Preview), 0);
    assert_eq!(u8::from(NetworkId::Unknown(9)), 9);
}

#[test]
fn decode_error_to_api_error() {
    let e = DecodeError::MissingAddress.to_api_error();
    assert_eq!(e.code, APIErrorCode::Unknown(42));
    assert_eq!(e.info, "Invalid cbor, missing address");
    let e = DecodeError::MalformedHex.to_api_error();
    assert_eq!(e.code, APIErrorCode::InternalError);
}
