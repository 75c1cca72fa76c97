//! Decoding of the unspent transaction outputs a wallet hands back: a
//! 2-element array of a transaction input and a transaction output, in
//! either the legacy array encoding or the current map encoding.

use crate::cbor::{Len, Reader, s_bytes, s_head, s_skip, s_uint};
use crate::errors::{DecodeError, Stage};
use crate::utxo::{TransactionInput, TransactionOutput, Utxo, out_address, out_value};
use crate::value::{AbstractValue, Value, value_model};
use crate::value_codec::{decode_value_at, s_dec_value};
use vstd::prelude::*;

verus! {

/// Decode a transaction input at `i`: a 2-element array of the 32-byte
/// transaction hash and the output index.
pub open spec fn s_dec_input(b: Seq<u8>, i: int) -> Option<((Seq<u8>, u64), int)> {
    match s_head(b, i) {
        Some((major, len, e)) => if major == 4 && len == Len::Def(2u64) {
            match s_bytes(b, e) {
                Err(_) => None,
                Ok((txid, j)) => if txid.len() == 32 && e < j <= b.len() {
                    match s_uint(b, j) {
                        Err(_) => None,
                        Ok((ix, k2)) => Some(((txid, ix), k2)),
                    }
                } else {
                    None
                },
            }
        } else {
            None
        },
        None => None,
    }
}

/// Scan the entries of a map-encoded output: the address under the
/// integer key 0, the value under the integer key 1, other entries
/// decoded and discarded.  `rem` counts the entries a definite map still
/// owes; `None` scans to a break sentinel.
pub open spec fn s_out_scan(
    b: Seq<u8>,
    i: int,
    rem: Option<u64>,
    addr: Option<Seq<u8>>,
    val: Option<AbstractValue>,
) -> Option<((Seq<u8>, AbstractValue), int)>
    decreases b.len() - i,
{
    if rem == Some(0u64) || (rem is None && i < b.len() && b[i] == 0xff) {
        let e = if rem == Some(0u64) {
            i
        } else {
            i + 1
        };
        match (addr, val) {
            (Some(a), Some(v)) => Some(((a, v), e)),
            _ => None,
        }
    } else {
        match s_uint(b, i) {
            Err(_) => None,
            Ok((key, j)) => if i < j <= b.len() {
                if key == 0 {
                    match s_bytes(b, j) {
                        Err(_) => None,
                        Ok((a, k2)) => if j < k2 <= b.len() {
                            s_out_scan(b, k2, crate::cbor::dec_rem(rem), Some(a), val)
                        } else {
                            None
                        },
                    }
                } else if key == 1 {
                    match s_dec_value(b, j) {
                        None => None,
                        Some((v, k2)) => if j < k2 <= b.len() {
                            s_out_scan(b, k2, crate::cbor::dec_rem(rem), addr, Some(v))
                        } else {
                            None
                        },
                    }
                } else {
                    match s_skip(b, j) {
                        None => None,
                        Some(k2) => if j < k2 <= b.len() {
                            s_out_scan(b, k2, crate::cbor::dec_rem(rem), addr, val)
                        } else {
                            None
                        },
                    }
                }
            } else {
                None
            },
        }
    }
}

/// Decode a transaction output at `i`: `(legacy, address, value)`.  A
/// 2- or 3-element array is the legacy encoding (address, value, and an
/// ignored datum hash); a map is the current encoding.
pub open spec fn s_dec_output(b: Seq<u8>, i: int) -> Option<((bool, Seq<u8>, AbstractValue), int)> {
    match s_head(b, i) {
        Some((major, len, e)) => if major == 4 && (len == Len::Def(2u64) || len == Len::Def(
            3u64,
        )) {
            match s_bytes(b, e) {
                Err(_) => None,
                Ok((addr, j)) => if e < j <= b.len() {
                    match s_dec_value(b, j) {
                        None => None,
                        Some((v, k2)) => if j < k2 <= b.len() {
                            if len == Len::Def(2u64) {
                                Some(((true, addr, v), k2))
                            } else {
                                match s_skip(b, k2) {
                                    None => None,
                                    Some(k3) => Some(((true, addr, v), k3)),
                                }
                            }
                        } else {
                            None
                        },
                    }
                } else {
                    None
                },
            }
        } else if major == 5 {
            match len {
                Len::Def(n) => match s_out_scan(b, e, Some(n), None, None) {
                    None => None,
                    Some(((a, v), k2)) => Some(((false, a, v), k2)),
                },
                Len::Indef => match s_out_scan(b, e, None, None, None) {
                    None => None,
                    Some(((a, v), k2)) => Some(((false, a, v), k2)),
                },
            }
        } else {
            None
        },
        None => None,
    }
}

/// Decode an unspent transaction output at `i`: a 2-element array of the
/// input reference and the output.
pub open spec fn s_dec_utxo(b: Seq<u8>, i: int) -> Option<
    ((Seq<u8>, u64), (bool, Seq<u8>, AbstractValue), int),
> {
    match s_head(b, i) {
        Some((major, len, e)) => if major == 4 && len == Len::Def(2u64) {
            match s_dec_input(b, e) {
                None => None,
                Some((input, j)) => if e <= j <= b.len() {
                    match s_dec_output(b, j) {
                        None => None,
                        Some((output, k2)) => Some((input, output, k2)),
                    }
                } else {
                    None
                },
            }
        } else {
            None
        },
        None => None,
    }
}

} // verus!

verus! {

/// The bytes of an optional address.
pub open spec fn opt_bytes(o: Option<Vec<u8>>) -> Option<Seq<u8>> {
    match o {
        Some(v) => Some(v@),
        None => None,
    }
}

/// The contents of an optional value.
pub open spec fn opt_model(o: Option<Value>) -> Option<AbstractValue> {
    match o {
        Some(v) => Some(value_model(v)),
        None => None,
    }
}

/// Decode a transaction output at the reader's position.
fn decode_output(rd: &mut Reader) -> (r: Result<TransactionOutput, DecodeError>)
    requires
        old(rd).wf(),
    ensures
        final(rd).buf@ == old(rd).buf@,
        final(rd).wf(),
        r matches Ok(o) ==> (s_dec_output(old(rd).buf@, old(rd).pos as int) matches Some(t) && (o
            is Legacy) == t.0.0 && out_address(o) == t.0.1 && value_model(out_value(o)) == t.0.2
            && final(rd).pos == t.1),
        r is Err ==> s_dec_output(old(rd).buf@, old(rd).pos as int) is None,
{
    let ghost gb = rd.buf@;
    let ghost gstart = rd.pos as int;
    let h = match rd.read_head() {
        Ok(h) => h,
        Err(e) => {
            return Err(e);
        },
    };
    proof {
        crate::cbor::lemma_head_bounds(gb, gstart);
    }
    if h.0 == 4 && (h.1 == Len::Def(2u64) || h.1 == Len::Def(3u64)) {
        let address = match rd.read_bytes() {
            Ok(v) => v,
            Err(e) => {
                return Err(e);
            },
        };
        let value = match decode_value_at(rd) {
            Ok(v) => v,
            Err(e) => {
                return Err(e);
            },
        };
        if h.1 == Len::Def(3u64) {
            match rd.skip_item() {
                Ok(_) => {
                },
                Err(e) => {
                    return Err(e);
                },
            }
        }
        Ok(TransactionOutput::Legacy { address, amount: value })
    } else if h.0 == 5 {
        let mut rem: Option<u64> = match h.1 {
            Len::Def(n) => Some(n),
            Len::Indef => None,
        };
        let ghost e0 = rd.pos as int;
        let ghost rem0 = rem;
        let mut addr: Option<Vec<u8>> = None;
        let mut val: Option<Value> = None;
        loop
            invariant
                rd.wf(),
                rd.buf@ == gb,
                gb == old(rd).buf@,
                gstart == old(rd).pos as int,
                s_out_scan(gb, rd.pos as int, rem, opt_bytes(addr), opt_model(val)) == s_out_scan(
                    gb,
                    e0,
                    rem0,
                    None,
                    None,
                ),
                s_dec_output(gb, gstart) == (match s_out_scan(gb, e0, rem0, None, None) {
                    None => None,
                    Some(((a, v), k2)) => Some(((false, a, v), k2)),
                }),
            decreases gb.len() - rd.pos,
        {
            let done: bool = match rem {
                Some(n) => n == 0,
                None => rd.peek_is_break(),
            };
            if done {
                match rem {
                    Some(_) => {
                    },
                    None => {
                        let nlen = rd.buf.len();
                        proof {
                            assert(rd.pos < nlen);
                        }
                        rd.pos = rd.pos + 1;
                    },
                }
                match (addr, val) {
                    (Some(a), Some(v)) => {
                        return Ok(TransactionOutput::PostAlonzo { address: a, value: v });
                    },
                    _ => {
                        return Err(
                            DecodeError::MalformedEncoding { stage: Stage::Item, offset: 0 },
                        );
                    },
                }
            }
            let ghost p1 = rd.pos as int;
            let ghost rem_old = rem;
            let ghost addr_old = opt_bytes(addr);
            let ghost val_old = opt_model(val);
            let key = match rd.read_uint() {
                Ok(k) => k,
                Err(e) => {
                    return Err(e);
                },
            };
            if key == 0 {
                let a = match rd.read_bytes() {
                    Ok(v) => v,
                    Err(e) => {
                        return Err(e);
                    },
                };
                addr = Some(a);
            } else if key == 1 {
                let v = match decode_value_at(rd) {
                    Ok(v) => v,
                    Err(e) => {
                        return Err(e);
                    },
                };
                val = Some(v);
            } else {
                match rd.skip_item() {
                    Ok(_) => {
                    },
                    Err(e) => {
                        return Err(e);
                    },
                }
            }
            proof {
                assert(s_out_scan(gb, p1, rem_old, addr_old, val_old) == s_out_scan(
                    gb,
                    rd.pos as int,
                    crate::cbor::dec_rem(rem_old),
                    opt_bytes(addr),
                    opt_model(val),
                ));
            }
            rem = match rem {
                Some(n) => Some(n - 1),
                None => None,
            };
        }
    } else {
        Err(DecodeError::MalformedEncoding { stage: Stage::Header, offset: 0 })
    }
}

/// Decode one unspent transaction output, as the wallet returns it: a
/// 2-element array of the input reference and the output, the output in
/// either historical encoding.  Trailing bytes are ignored.
pub fn decode_utxo(bytes: &[u8]) -> (r: Result<Utxo, DecodeError>)
    ensures
        r matches Ok(u) ==> (s_dec_utxo(bytes@, 0) matches Some(t)
            && u.input.transaction_id.bytes@ == t.0.0 && u.input.index == t.0.1 && (u.output
            is Legacy) == t.1.0 && out_address(u.output) == t.1.1 && value_model(
            out_value(u.output),
        ) == t.1.2 && crate::utxo::hash_wf(u.input.transaction_id)),
        r is Err ==> s_dec_utxo(bytes@, 0) is None,
{
    let mut rd = Reader::new(bytes);
    let outer = match rd.read_array_header() {
        Ok(l) => l,
        Err(e) => {
            return Err(e);
        },
    };
    if outer != Len::Def(2u64) {
        return Err(DecodeError::MalformedEncoding { stage: Stage::Header, offset: 0 });
    }
    let ghost e_in = rd.pos as int;
    let inner = match rd.read_array_header() {
        Ok(l) => l,
        Err(e) => {
            return Err(e);
        },
    };
    if inner != Len::Def(2u64) {
        return Err(DecodeError::MalformedEncoding { stage: Stage::Header, offset: 0 });
    }
    let txid = match rd.read_bytes() {
        Ok(v) => v,
        Err(e) => {
            return Err(e);
        },
    };
    if txid.len() != 32 {
        return Err(DecodeError::MalformedEncoding { stage: Stage::Bytes, offset: 0 });
    }
    let index = match rd.read_uint() {
        Ok(v) => v,
        Err(e) => {
            return Err(e);
        },
    };
    proof {
        assert(s_dec_input(bytes@, e_in) == Some(((txid@, index), rd.pos as int)));
    }
    let output = match decode_output(&mut rd) {
        Ok(o) => o,
        Err(e) => {
            return Err(e);
        },
    };
    Ok(Utxo { input: TransactionInput { transaction_id: crate::utxo::Hash::new(txid), index }, output })
}

} // verus!
