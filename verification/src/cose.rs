//! Decoding of the single-signer signed-data envelope and of the
//! signing-key structure, and reconstruction of the exact byte sequence
//! the signature was computed over.
//!
//! The envelope is a 4-element array `[protected_header, unprotected_map,
//! payload, signature]`.  The protected header re-decodes as a label map
//! holding the claimed address under the text key `"address"`; the
//! signing key re-decodes as a label map holding the curve x-coordinate
//! under the integer key `-2`.  Verification itself is delegated to an
//! external Ed25519 primitive; this module ends at producing a correctly
//! reconstructed [`SignedData`].

use crate::cbor::{
    Len, Reader, Writer, dec_rem, s_array_header, s_bytes, s_enc_bytes, s_enc_head, s_enc_text,
    s_head, s_map_header, s_skip,
};
use crate::errors::{DecodeError, Stage};
use crate::hexfmt::{hex_bytes, hex_decode, hex_ok};
use vstd::prelude::*;

verus! {

/// The UTF-8 bytes of the text key `"address"`.
pub open spec fn addr_label() -> Seq<u8> {
    seq![0x61u8, 0x64u8, 0x64u8, 0x72u8, 0x65u8, 0x73u8, 0x73u8]
}

/// The UTF-8 bytes of the context text `"Signature1"`.
pub open spec fn sig1_label() -> Seq<u8> {
    seq![0x53u8, 0x69u8, 0x67u8, 0x6eu8, 0x61u8, 0x74u8, 0x75u8, 0x72u8, 0x65u8, 0x31u8]
}

// ---------------------------------------------------------------------------
// Key extraction
// ---------------------------------------------------------------------------
/// Scan map entries from `i` for the integer key `-2`; on a match the
/// value must be a 32-byte string, which is returned.  `rem` counts the
/// entries still owed by a definite map; `None` scans to a break
/// sentinel.
pub open spec fn s_key_scan(b: Seq<u8>, i: int, rem: Option<u64>) -> Result<Seq<u8>, DecodeError>
    decreases b.len() - i,
{
    if rem == Some(0u64) {
        Err(DecodeError::MissingKey)
    } else if rem is None && i < b.len() && b[i] == 0xff {
        Err(DecodeError::MissingKey)
    } else {
        match s_head(b, i) {
            None => Err(DecodeError::MalformedEncoding { stage: Stage::Header, offset: i as usize }),
            Some((major, len, e)) => {
                if major == 1 && len == Len::Def(1u64) {
                    match s_bytes(b, e) {
                        Err(er) => Err(er),
                        Ok((v, _)) => if v.len() == 32 {
                            Ok(v)
                        } else {
                            Err(DecodeError::MalformedKey)
                        },
                    }
                } else {
                    match s_skip(b, i) {
                        None => Err(
                            DecodeError::MalformedEncoding { stage: Stage::Item, offset: i as usize },
                        ),
                        Some(j) => if i < j <= b.len() {
                            match s_skip(b, j) {
                                None => Err(
                                    DecodeError::MalformedEncoding {
                                        stage: Stage::Item,
                                        offset: j as usize,
                                    },
                                ),
                                Some(k2) => if j < k2 <= b.len() {
                                    s_key_scan(b, k2, dec_rem(rem))
                                } else {
                                    Err(
                                        DecodeError::MalformedEncoding {
                                            stage: Stage::Item,
                                            offset: j as usize,
                                        },
                                    )
                                },
                            }
                        } else {
                            Err(
                                DecodeError::MalformedEncoding {
                                    stage: Stage::Item,
                                    offset: i as usize,
                                },
                            )
                        },
                    }
                }
            },
        }
    }
}

/// Decode a signing-key structure: a label map whose entry under the
/// integer key `-2` holds the 32-byte curve x-coordinate.
pub open spec fn s_extract_key(b: Seq<u8>) -> Result<Seq<u8>, DecodeError> {
    match s_map_header(b, 0) {
        Err(e) => Err(e),
        Ok((len, e)) => match len {
            Len::Def(n) => s_key_scan(b, e, Some(n)),
            Len::Indef => s_key_scan(b, e, None),
        },
    }
}

/// Extract the 32-byte verification key from a signing-key structure.
/// Fails with [`DecodeError::MissingKey`] when the map holds no entry
/// under the integer key `-2`, and with [`DecodeError::MalformedKey`]
/// when that entry is not exactly 32 bytes.
pub fn extract_cose_key(bytes: &[u8]) -> (r: Result<Vec<u8>, DecodeError>)
    ensures
        r matches Ok(v) ==> s_extract_key(bytes@) == Ok::<Seq<u8>, DecodeError>(v@) && v@.len()
            == 32,
        r matches Err(e) ==> s_extract_key(bytes@) == Err::<Seq<u8>, DecodeError>(e),
{
    let mut rd = Reader::new(bytes);
    let hd = match rd.read_map_header() {
        Ok(h) => h,
        Err(e) => {
            return Err(e);
        },
    };
    let mut rem: Option<u64> = match hd {
        Len::Def(n) => Some(n),
        Len::Indef => None,
    };
    loop
        invariant
            rd.wf(),
            rd.buf@ == bytes@,
            s_key_scan(bytes@, rd.pos as int, rem) == s_extract_key(bytes@),
        decreases bytes@.len() - rd.pos,
    {
        match rem {
            Some(n) => {
                if n == 0 {
                    return Err(DecodeError::MissingKey);
                }
            },
            None => {
                if rd.peek_is_break() {
                    return Err(DecodeError::MissingKey);
                }
            },
        }
        let h = match rd.peek_head() {
            Some(h) => h,
            None => {
                return Err(
                    DecodeError::MalformedEncoding { stage: Stage::Header, offset: rd.pos },
                );
            },
        };
        if h.0 == 1 && h.1 == Len::Def(1u64) {
            match rd.read_head() {
                Ok(_) => {
                },
                Err(e) => {
                    proof {
                        assert(false);
                    }
                    return Err(e);
                },
            }
            let v = match rd.read_bytes() {
                Ok(v) => v,
                Err(e) => {
                    return Err(e);
                },
            };
            if v.len() == 32 {
                return Ok(v);
            } else {
                return Err(DecodeError::MalformedKey);
            }
        } else {
            match rd.skip_item() {
                Ok(_) => {
                },
                Err(e) => {
                    return Err(e);
                },
            }
            match rd.skip_item() {
                Ok(_) => {
                },
                Err(e) => {
                    return Err(e);
                },
            }
            rem = match rem {
                Some(n) => Some(n - 1),
                None => None,
            };
        }
    }
}

} // verus!

verus! {

// ---------------------------------------------------------------------------
// Address extraction
// ---------------------------------------------------------------------------
/// Scan map entries from `i` for the text key `"address"`; on a match the
/// following byte-string value is returned.
pub open spec fn s_addr_scan(b: Seq<u8>, i: int, rem: Option<u64>) -> Result<Seq<u8>, DecodeError>
    decreases b.len() - i,
{
    if rem == Some(0u64) {
        Err(DecodeError::MissingAddress)
    } else if rem is None && i < b.len() && b[i] == 0xff {
        Err(DecodeError::MissingAddress)
    } else {
        match s_head(b, i) {
            None => Err(DecodeError::MalformedEncoding { stage: Stage::Header, offset: i as usize }),
            Some((major, len, e)) => {
                if major == 3 && len == Len::Def(7u64) {
                    if e + 7 <= b.len() {
                        if b.subrange(e, e + 7) == addr_label() {
                            match s_bytes(b, e + 7) {
                                Err(er) => Err(er),
                                Ok((v, _)) => Ok(v),
                            }
                        } else {
                            match s_skip(b, e + 7) {
                                None => Err(
                                    DecodeError::MalformedEncoding {
                                        stage: Stage::Item,
                                        offset: (e + 7) as usize,
                                    },
                                ),
                                Some(j) => if e + 7 < j <= b.len() {
                                    s_addr_scan(b, j, dec_rem(rem))
                                } else {
                                    Err(
                                        DecodeError::MalformedEncoding {
                                            stage: Stage::Item,
                                            offset: (e + 7) as usize,
                                        },
                                    )
                                },
                            }
                        }
                    } else {
                        Err(
                            DecodeError::MalformedEncoding {
                                stage: Stage::Item,
                                offset: i as usize,
                            },
                        )
                    }
                } else {
                    match s_skip(b, i) {
                        None => Err(
                            DecodeError::MalformedEncoding { stage: Stage::Item, offset: i as usize },
                        ),
                        Some(j) => if i < j <= b.len() {
                            match s_skip(b, j) {
                                None => Err(
                                    DecodeError::MalformedEncoding {
                                        stage: Stage::Item,
                                        offset: j as usize,
                                    },
                                ),
                                Some(k2) => if j < k2 <= b.len() {
                                    s_addr_scan(b, k2, dec_rem(rem))
                                } else {
                                    Err(
                                        DecodeError::MalformedEncoding {
                                            stage: Stage::Item,
                                            offset: j as usize,
                                        },
                                    )
                                },
                            }
                        } else {
                            Err(
                                DecodeError::MalformedEncoding {
                                    stage: Stage::Item,
                                    offset: i as usize,
                                },
                            )
                        },
                    }
                }
            },
        }
    }
}

/// Decode a protected header: a label map whose entry under the text key
/// `"address"` holds the claimed address bytes.
pub open spec fn s_extract_address(b: Seq<u8>) -> Result<Seq<u8>, DecodeError> {
    match s_map_header(b, 0) {
        Err(e) => Err(e),
        Ok((len, e)) => match len {
            Len::Def(n) => s_addr_scan(b, e, Some(n)),
            Len::Indef => s_addr_scan(b, e, None),
        },
    }
}

/// Compare seven bytes with the `"address"` label.
fn is_addr_label(v: &Vec<u8>) -> (r: bool)
    ensures
        r == (v@ == addr_label()),
{
    if v.len() != 7 {
        proof {
            assert(v@ != addr_label());
        }
        return false;
    }
    let r = v[0] == 0x61 && v[1] == 0x64 && v[2] == 0x64 && v[3] == 0x72 && v[4] == 0x65 && v[5]
        == 0x73 && v[6] == 0x73;
    proof {
        if r {
            assert(v@ =~= addr_label());
        } else {
            assert(v@ != addr_label());
        }
    }
    r
}

/// Extract the claimed address from a protected header.  Fails with
/// [`DecodeError::MissingAddress`] when the map holds no `"address"`
/// text key.
pub fn extract_address_from_protected_header(bytes: &[u8]) -> (r: Result<Vec<u8>, DecodeError>)
    ensures
        r matches Ok(v) ==> s_extract_address(bytes@) == Ok::<Seq<u8>, DecodeError>(v@),
        r matches Err(e) ==> s_extract_address(bytes@) == Err::<Seq<u8>, DecodeError>(e),
{
    let mut rd = Reader::new(bytes);
    let hd = match rd.read_map_header() {
        Ok(h) => h,
        Err(e) => {
            return Err(e);
        },
    };
    let mut rem: Option<u64> = match hd {
        Len::Def(n) => Some(n),
        Len::Indef => None,
    };
    loop
        invariant
            rd.wf(),
            rd.buf@ == bytes@,
            s_addr_scan(bytes@, rd.pos as int, rem) == s_extract_address(bytes@),
        decreases bytes@.len() - rd.pos,
    {
        match rem {
            Some(n) => {
                if n == 0 {
                    return Err(DecodeError::MissingAddress);
                }
            },
            None => {
                if rd.peek_is_break() {
                    return Err(DecodeError::MissingAddress);
                }
            },
        }
        let start = rd.pos;
        let h = match rd.peek_head() {
            Some(h) => h,
            None => {
                return Err(
                    DecodeError::MalformedEncoding { stage: Stage::Header, offset: rd.pos },
                );
            },
        };
        if h.0 == 3 && h.1 == Len::Def(7u64) {
            match rd.read_head() {
                Ok(_) => {
                },
                Err(e) => {
                    proof {
                        assert(false);
                    }
                    return Err(e);
                },
            }
            let label = match rd.read_exact(7) {
                Ok(v) => v,
                Err(_) => {
                    return Err(
                        DecodeError::MalformedEncoding { stage: Stage::Item, offset: start },
                    );
                },
            };
            if is_addr_label(&label) {
                match rd.read_bytes() {
                    Ok(v) => {
                        return Ok(v);
                    },
                    Err(e) => {
                        return Err(e);
                    },
                }
            } else {
                match rd.skip_item() {
                    Ok(_) => {
                    },
                    Err(e) => {
                        return Err(e);
                    },
                }
                rem = match rem {
                    Some(n) => Some(n - 1),
                    None => None,
                };
            }
        } else {
            match rd.skip_item() {
                Ok(_) => {
                },
                Err(e) => {
                    return Err(e);
                },
            }
            match rd.skip_item() {
                Ok(_) => {
                },
                Err(e) => {
                    return Err(e);
                },
            }
            rem = match rem {
                Some(n) => Some(n - 1),
                None => None,
            };
        }
    }
}

} // verus!

verus! {

// ---------------------------------------------------------------------------
// Envelope decoding
// ---------------------------------------------------------------------------
/// Skip `rem` generic key/value pairs (or, with `None`, pairs up to a
/// break sentinel), returning the position just past them.
pub open spec fn s_skip_entries(b: Seq<u8>, i: int, rem: Option<u64>) -> Result<int, DecodeError>
    decreases b.len() - i,
{
    if rem == Some(0u64) {
        Ok(i)
    } else if rem is None && i < b.len() && b[i] == 0xff {
        Ok(i + 1)
    } else {
        match s_skip(b, i) {
            None => Err(DecodeError::MalformedEncoding { stage: Stage::Item, offset: i as usize }),
            Some(j) => if i < j <= b.len() {
                match s_skip(b, j) {
                    None => Err(
                        DecodeError::MalformedEncoding { stage: Stage::Item, offset: j as usize },
                    ),
                    Some(k2) => if j < k2 <= b.len() {
                        s_skip_entries(b, k2, dec_rem(rem))
                    } else {
                        Err(
                            DecodeError::MalformedEncoding {
                                stage: Stage::Item,
                                offset: j as usize,
                            },
                        )
                    },
                }
            } else {
                Err(DecodeError::MalformedEncoding { stage: Stage::Item, offset: i as usize })
            },
        }
    }
}

/// The canonical byte sequence the envelope's signature was computed
/// over: a 4-element array of the text `"Signature1"`, the raw protected
/// header as a byte string, an empty byte string standing for no external
/// authenticated data, and the payload as a byte string.
pub open spec fn s_sig_structure(ph: Seq<u8>, payload: Seq<u8>) -> Seq<u8> {
    s_enc_head(4, 4) + s_enc_text(sig1_label()) + s_enc_bytes(ph) + s_enc_bytes(Seq::<u8>::empty())
        + s_enc_bytes(payload)
}

/// Decode a signed envelope: `(protected_header, address, payload,
/// signature)`.
pub open spec fn s_decode_env(b: Seq<u8>) -> Result<
    (Seq<u8>, Seq<u8>, Seq<u8>, Seq<u8>),
    DecodeError,
> {
    match s_array_header(b, 0) {
        Err(e) => Err(e),
        Ok((alen, e0)) => {
            if alen != Len::Def(4u64) {
                Err(DecodeError::MalformedEnvelope)
            } else {
                match s_bytes(b, e0) {
                    Err(e) => Err(e),
                    Ok((ph, e1)) => match s_extract_address(ph) {
                        Err(e) => Err(e),
                        Ok(addr) => match s_map_header(b, e1) {
                            Err(e) => Err(e),
                            Ok((mlen, e2)) => {
                                match s_skip_entries(
                                    b,
                                    e2,
                                    match mlen {
                                        Len::Def(n) => Some(n),
                                        Len::Indef => None,
                                    },
                                ) {
                                    Err(e) => Err(e),
                                    Ok(e3) => match s_bytes(b, e3) {
                                        Err(e) => Err(e),
                                        Ok((payload, e4)) => match s_bytes(b, e4) {
                                            Err(e) => Err(e),
                                            Ok((sig, _)) => if sig.len() == 64 {
                                                Ok((ph, addr, payload, sig))
                                            } else {
                                                Err(DecodeError::MalformedSignature)
                                            },
                                        },
                                    },
                                }
                            },
                        },
                    },
                }
            }
        },
    }
}

/// Skip generic key/value pairs as [`s_skip_entries`] describes.
fn skip_entries(rd: &mut Reader, rem0: Option<u64>) -> (r: Result<(), DecodeError>)
    requires
        old(rd).wf(),
    ensures
        final(rd).buf@ == old(rd).buf@,
        final(rd).wf(),
        r matches Ok(_) ==> s_skip_entries(old(rd).buf@, old(rd).pos as int, rem0) == Ok::<
            int,
            DecodeError,
        >(final(rd).pos as int),
        r matches Err(e) ==> s_skip_entries(old(rd).buf@, old(rd).pos as int, rem0) == Err::<
            int,
            DecodeError,
        >(e),
{
    let ghost gb = rd.buf@;
    let ghost gp0 = rd.pos as int;
    let mut rem = rem0;
    loop
        invariant
            rd.wf(),
            rd.buf@ == gb,
            gb == old(rd).buf@,
            gp0 == old(rd).pos as int,
            s_skip_entries(gb, rd.pos as int, rem) == s_skip_entries(gb, gp0, rem0),
        decreases gb.len() - rd.pos, (match rem {
            Some(n) => n as int + 1,
            None => 0int,
        }),
    {
        match rem {
            Some(n) => {
                if n == 0 {
                    return Ok(());
                }
            },
            None => {
                if rd.peek_is_break() {
                    let nlen = rd.buf.len();
                    proof {
                        assert(rd.pos < nlen);
                        assert(s_skip_entries(gb, rd.pos as int, rem) == Ok::<int, DecodeError>(
                            rd.pos + 1,
                        ));
                    }
                    rd.pos = rd.pos + 1;
                    return Ok(());
                }
            },
        }
        let ghost p1 = rd.pos as int;
        let ghost rem_old = rem;
        match rd.skip_item() {
            Ok(_) => {
            },
            Err(e) => {
                proof {
                    assert(s_skip_entries(gb, p1, rem_old) == Err::<int, DecodeError>(e));
                }
                return Err(e);
            },
        }
        match rd.skip_item() {
            Ok(_) => {
            },
            Err(e) => {
                proof {
                    assert(s_skip_entries(gb, p1, rem_old) == Err::<int, DecodeError>(e));
                }
                return Err(e);
            },
        }
        proof {
            assert(s_skip_entries(gb, p1, rem_old) == s_skip_entries(
                gb,
                rd.pos as int,
                dec_rem(rem_old),
            ));
        }
        rem = match rem {
            Some(n) => Some(n - 1),
            None => None,
        };
    }
}

/// A decoded, reconstructed signed-data record ready for an external
/// Ed25519 verification: the 32-byte verification key, the 64-byte
/// signature, the exact byte sequence the signature covers, and the
/// address claimed by the protected header.
#[derive(Debug, Clone, PartialEq, Eq, Hash)]
pub struct SignedData {
    pub key: Vec<u8>,
    pub signature: Vec<u8>,
    pub signed_data: Vec<u8>,
    pub address: Vec<u8>,
}

/// Decode a signed envelope and rebuild the covered byte sequence.  The
/// verification key is not part of the envelope; it is returned zeroed,
/// for [`SignedData::from_bytes`] to fill in.  Fails with
/// [`DecodeError::MalformedEnvelope`] when the outer array does not
/// announce exactly 4 elements, with [`DecodeError::MissingAddress`] when
/// the protected header has no `"address"` text key, and with
/// [`DecodeError::MalformedSignature`] when the signature is not exactly
/// 64 bytes.
#[verifier::rlimit(60)]
pub fn decode_cose_sig1(bytes: &[u8]) -> (r: Result<SignedData, DecodeError>)
    ensures
        r matches Ok(sd) ==> (s_decode_env(bytes@) matches Ok(t) && sd.key@ == Seq::new(
            32,
            |i: int| 0u8,
        ) && sd.signature@ == t.3 && sd.address@ == t.1 && sd.signed_data@ == s_sig_structure(
            t.0,
            t.2,
        ) && t.3.len() == 64),
        r matches Err(e) ==> s_decode_env(bytes@) == Err::<
            (Seq<u8>, Seq<u8>, Seq<u8>, Seq<u8>),
            DecodeError,
        >(e),
{
    let mut rd = Reader::new(bytes);
    let alen = match rd.read_array_header() {
        Ok(l) => l,
        Err(e) => {
            return Err(e);
        },
    };
    if alen != Len::Def(4u64) {
        return Err(DecodeError::MalformedEnvelope);
    }
    let protected = match rd.read_bytes() {
        Ok(v) => v,
        Err(e) => {
            return Err(e);
        },
    };
    let address = match extract_address_from_protected_header(protected.as_slice()) {
        Ok(v) => v,
        Err(e) => {
            return Err(e);
        },
    };
    let mlen = match rd.read_map_header() {
        Ok(l) => l,
        Err(e) => {
            return Err(e);
        },
    };
    let rem: Option<u64> = match mlen {
        Len::Def(n) => Some(n),
        Len::Indef => None,
    };
    match skip_entries(&mut rd, rem) {
        Ok(_) => {
        },
        Err(e) => {
            return Err(e);
        },
    }
    let payload = match rd.read_bytes() {
        Ok(v) => v,
        Err(e) => {
            return Err(e);
        },
    };
    let signature = match rd.read_bytes() {
        Ok(v) => v,
        Err(e) => {
            return Err(e);
        },
    };
    if signature.len() != 64 {
        return Err(DecodeError::MalformedSignature);
    }
    let mut w = Writer::new();
    w.write_array_header(4);
    let mut label: Vec<u8> = Vec::new();
    label.push(0x53);
    label.push(0x69);
    label.push(0x67);
    label.push(0x6e);
    label.push(0x61);
    label.push(0x74);
    label.push(0x75);
    label.push(0x72);
    label.push(0x65);
    label.push(0x31);
    proof {
        assert(label@ =~= sig1_label());
    }
    w.write_text(&label);
    w.write_bytes(&protected);
    let empty: Vec<u8> = Vec::new();
    proof {
        assert(empty@ =~= Seq::<u8>::empty());
    }
    w.write_bytes(&empty);
    w.write_bytes(&payload);
    let signed_data = w.finish();
    let mut key: Vec<u8> = Vec::new();
    let mut z: usize = 0;
    while z < 32
        invariant
            z <= 32,
            key@ =~= Seq::new(z as nat, |i: int| 0u8),
        decreases 32 - z,
    {
        key.push(0);
        proof {
            assert(key@ =~= Seq::new((z + 1) as nat, |i: int| 0u8));
        }
        z = z + 1;
    }
    proof {
        assert(signed_data@ =~= s_sig_structure(protected@, payload@));
    }
    Ok(SignedData { key, signature, signed_data, address })
}

} // verus!

verus! {

/// Decode a hex-encoded signing key and a hex-encoded signed envelope
/// into the record handed to the verifier: `(key, signature, signed
/// bytes, address)`.
pub open spec fn s_from_bytes(k: Seq<char>, s: Seq<char>) -> Result<
    (Seq<u8>, Seq<u8>, Seq<u8>, Seq<u8>),
    DecodeError,
> {
    if !hex_ok(s) {
        Err(DecodeError::MalformedHex)
    } else if !hex_ok(k) {
        Err(DecodeError::MalformedHex)
    } else {
        match s_extract_key(hex_bytes(k)) {
            Err(e) => Err(e),
            Ok(key) => match s_decode_env(hex_bytes(s)) {
                Err(e) => Err(e),
                Ok(t) => Ok((key, t.3, s_sig_structure(t.0, t.2), t.1)),
            },
        }
    }
}

impl SignedData {
    /// Decode the hex-encoded signing key and signature envelope a wallet
    /// hands back, extract the verification key and the claimed address,
    /// and rebuild the exact byte sequence the signature covers.
    pub fn from_bytes(key_bytes: &str, signature_bytes: &str) -> (r: Result<Self, DecodeError>)
        ensures
            r matches Ok(sd) ==> (s_from_bytes(key_bytes@, signature_bytes@) matches Ok(t)
                && sd.key@ == t.0 && sd.signature@ == t.1 && sd.signed_data@ == t.2 && sd.address@
                == t.3 && sd.key@.len() == 32 && sd.signature@.len() == 64),
            r matches Err(e) ==> s_from_bytes(key_bytes@, signature_bytes@) == Err::<
                (Seq<u8>, Seq<u8>, Seq<u8>, Seq<u8>),
                DecodeError,
            >(e),
    {
        let signature = match hex_decode(signature_bytes) {
            Ok(v) => v,
            Err(e) => {
                return Err(e);
            },
        };
        let key_struct = match hex_decode(key_bytes) {
            Ok(v) => v,
            Err(e) => {
                return Err(e);
            },
        };
        let key = match extract_cose_key(key_struct.as_slice()) {
            Ok(v) => v,
            Err(e) => {
                return Err(e);
            },
        };
        let mut sd = match decode_cose_sig1(signature.as_slice()) {
            Ok(sd) => sd,
            Err(e) => {
                return Err(e);
            },
        };
        sd.key = key;
        Ok(sd)
    }
}

} // verus!
