//! Reconciliation of multi-asset unspent outputs and decoding of
//! single-signer signed-data envelopes for a browser wallet connector.
//!
//! The verified core consists of a structural binary reader and writer for
//! the ledger's CBOR-style encodings, the multi-asset [`Value`] model and
//! its aggregator [`sumup`], the output consolidator [`group_utxos`], and
//! the signed-envelope decoder producing [`SignedData`].

pub mod cbor;
pub mod cose;
pub mod errors;
pub mod hexfmt;
pub mod utxo;
pub mod utxo_codec;
pub mod value;
pub mod value_codec;
pub mod wallet;

pub use cose::{SignedData, decode_cose_sig1, extract_address_from_protected_header, extract_cose_key};
pub use errors::{APIError, APIErrorCode, DataSignError, DataSignErrorCode, DecodeError, PaginateError};
pub use utxo::{Address, GroupUtxoError, TransactionInput, TransactionOutput, Utxo, group_utxos, sumup};
pub use value::Value;
pub use utxo_codec::decode_utxo;
pub use value_codec::{decode_value, encode_value};
pub use wallet::{ConnectedWallet, Extension, NetworkId, Paginate, Wallet};
