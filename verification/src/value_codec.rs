//! Encoding and decoding of [`Value`] in the ledger's binary form: a
//! plain coin is one unsigned integer; a multi-asset value is a 2-element
//! array of the coin and a map from policy identifiers to maps from asset
//! names to amounts.

use crate::cbor::{
    Len, Reader, Writer, be_bytes, lemma_be_bytes_len, lemma_be_val_of_be_bytes,
    lemma_pow256_values, s_bytes, s_enc_bytes, s_enc_head, s_head, s_uint,
};
use crate::errors::{DecodeError, Stage};
use crate::value::{
    AbstractValue, AssetEntry, AssetName, PolicyAssets, PolicyId, Value, assets_model, ma_model,
    value_model,
};
use vstd::prelude::*;

verus! {

// ---------------------------------------------------------------------------
// Spec encoding
// ---------------------------------------------------------------------------
/// The encoding of one asset entry: name as a byte string, then the
/// amount as an unsigned integer.
pub open spec fn s_enc_asset(e: (Seq<u8>, u64)) -> Seq<u8> {
    s_enc_bytes(e.0) + s_enc_head(0, e.1)
}

/// The concatenated encodings of an asset list.
pub open spec fn s_enc_assets(s: Seq<(Seq<u8>, u64)>) -> Seq<u8>
    decreases s.len(),
{
    if s.len() == 0 {
        Seq::empty()
    } else {
        s_enc_asset(s.first()) + s_enc_assets(s.drop_first())
    }
}

/// The encoding of one policy entry: the policy identifier as a byte
/// string, then the asset map.
pub open spec fn s_enc_policy(e: (Seq<u8>, Seq<(Seq<u8>, u64)>)) -> Seq<u8> {
    s_enc_bytes(e.0) + s_enc_head(5, e.1.len() as u64) + s_enc_assets(e.1)
}

/// The concatenated encodings of a policy list.
pub open spec fn s_enc_policies(s: Seq<(Seq<u8>, Seq<(Seq<u8>, u64)>)>) -> Seq<u8>
    decreases s.len(),
{
    if s.len() == 0 {
        Seq::empty()
    } else {
        s_enc_policy(s.first()) + s_enc_policies(s.drop_first())
    }
}

/// The encoding of a value.
pub open spec fn s_enc_value(m: AbstractValue) -> Seq<u8> {
    match m {
        AbstractValue::Coin(c) => s_enc_head(0, c),
        AbstractValue::Multiasset(c, ma) => s_enc_head(4, 2) + s_enc_head(0, c) + s_enc_head(
            5,
            ma.len() as u64,
        ) + s_enc_policies(ma),
    }
}

// ---------------------------------------------------------------------------
// Spec decoding
// ---------------------------------------------------------------------------
/// Decode `n` asset entries from `i`.
pub open spec fn s_dec_assets(b: Seq<u8>, i: int, n: int) -> Option<(Seq<(Seq<u8>, u64)>, int)>
    decreases b.len() - i, n,
{
    if n <= 0 {
        Some((Seq::empty(), i))
    } else {
        match s_bytes(b, i) {
            Err(_) => None,
            Ok((name, j)) => if i < j <= b.len() {
                match s_uint(b, j) {
                    Err(_) => None,
                    Ok((amt, k2)) => if j < k2 <= b.len() {
                        match s_dec_assets(b, k2, n - 1) {
                            None => None,
                            Some((rest, e)) => Some((seq![(name, amt)] + rest, e)),
                        }
                    } else {
                        None
                    },
                }
            } else {
                None
            },
        }
    }
}

/// Decode `n` policy entries from `i`.
pub open spec fn s_dec_policies(b: Seq<u8>, i: int, n: int) -> Option<
    (Seq<(Seq<u8>, Seq<(Seq<u8>, u64)>)>, int),
>
    decreases b.len() - i, n,
{
    if n <= 0 {
        Some((Seq::empty(), i))
    } else {
        match s_bytes(b, i) {
            Err(_) => None,
            Ok((policy, j)) => if i < j <= b.len() {
                match s_head(b, j) {
                    Some((major, len, e)) => if major == 5 && j < e <= b.len() {
                        match len {
                            Len::Def(m) => match s_dec_assets(b, e, m as int) {
                                None => None,
                                Some((assets, k2)) => if j < k2 <= b.len() {
                                    match s_dec_policies(b, k2, n - 1) {
                                        None => None,
                                        Some((rest, e3)) => Some(
                                            (seq![(policy, assets)] + rest, e3),
                                        ),
                                    }
                                } else {
                                    None
                                },
                            },
                            Len::Indef => None,
                        }
                    } else {
                        None
                    },
                    None => None,
                }
            } else {
                None
            },
        }
    }
}

/// Decode a value at `i`: a plain unsigned integer, or a 2-element array
/// of a coin and a policy map.
pub open spec fn s_dec_value(b: Seq<u8>, i: int) -> Option<(AbstractValue, int)> {
    match s_head(b, i) {
        None => None,
        Some((major, len, e)) => if major == 0 {
            match len {
                Len::Def(c) => Some((AbstractValue::Coin(c), e)),
                Len::Indef => None,
            }
        } else if major == 4 && len == Len::Def(2u64) {
            match s_uint(b, e) {
                Err(_) => None,
                Ok((c, e1)) => match s_head(b, e1) {
                    Some((major2, len2, e2)) => if major2 == 5 && e1 < e2 <= b.len() {
                        match len2 {
                            Len::Def(m) => match s_dec_policies(b, e2, m as int) {
                                None => None,
                                Some((ma, e3)) => Some((AbstractValue::Multiasset(c, ma), e3)),
                            },
                            Len::Indef => None,
                        }
                    } else {
                        None
                    },
                    None => None,
                },
            }
        } else {
            None
        },
    }
}

} // verus!

verus! {

// ---------------------------------------------------------------------------
// Round trip: decoding an encoding yields the value back
// ---------------------------------------------------------------------------
/// A successful asset decode never moves backwards.
pub proof fn lemma_dec_assets_pos(b: Seq<u8>, i: int, n: int)
    ensures
        s_dec_assets(b, i, n) matches Some(t) ==> i <= t.1,
    decreases b.len() - i, n,
{
    if n > 0 {
        match s_bytes(b, i) {
            Err(_) => {
            },
            Ok((name, j)) => {
                if i < j <= b.len() {
                    match s_uint(b, j) {
                        Err(_) => {
                        },
                        Ok((amt, k2)) => {
                            if j < k2 <= b.len() {
                                lemma_dec_assets_pos(b, k2, n - 1);
                            }
                        },
                    }
                }
            },
        }
    }
}

/// A slice of an embedded byte string equals the same slice of the
/// original.
pub proof fn lemma_subrange_embed(b: Seq<u8>, i: int, whole: Seq<u8>, lo: int, hi: int)
    requires
        0 <= i,
        i + whole.len() <= b.len(),
        b.subrange(i, i + whole.len() as int) == whole,
        0 <= lo <= hi <= whole.len(),
    ensures
        b.subrange(i + lo, i + hi) == whole.subrange(lo, hi),
{
    assert forall|k: int| 0 <= k < hi - lo implies #[trigger] b.subrange(i + lo, i + hi)[k]
        == whole.subrange(lo, hi)[k] by {
        assert(b.subrange(i, i + whole.len() as int)[lo + k] == whole[lo + k]);
    }
    assert(b.subrange(i + lo, i + hi) =~= whole.subrange(lo, hi));
}

/// Decoding the head encoding of `(major, n)` yields `(major, n)` back.
pub proof fn lemma_head_roundtrip(b: Seq<u8>, i: int, major: u8, n: u64)
    requires
        major <= 7,
        0 <= i,
        i + s_enc_head(major, n).len() <= b.len(),
        b.subrange(i, i + s_enc_head(major, n).len() as int) == s_enc_head(major, n),
    ensures
        s_head(b, i) == Some((major, Len::Def(n), i + s_enc_head(major, n).len() as int)),
{
    let enc = s_enc_head(major, n);
    assert forall|k: int| 0 <= k < enc.len() implies b[i + k] == enc[k] by {
        assert(b.subrange(i, i + enc.len() as int)[k] == enc[k]);
    }
    lemma_pow256_values();
    assert(b[i + 0] == enc[0]);
    assert(b[i] == enc[0]);
    if n < 24 {
        assert(enc.len() == 1);
        assert(b[i] == ((major as int) * 32 + (n as int)) as u8);
        assert(b[i] as int == (major as int) * 32 + (n as int));
        assert(b[i] / 32 == major as int && b[i] % 32 == n as int) by (nonlinear_arith)
            requires
                b[i] as int == (major as int) * 32 + (n as int),
                major <= 7,
                n < 24,
        ;
    } else if n < 256 {
        assert(enc.len() == 2);
        assert(b[i] as int == (major as int) * 32 + 24);
        assert(b[i + 1] == enc[1]);
        assert(b[i + 1] == n as u8);
        assert(b[i] / 32 == major as int && b[i] % 32 == 24) by (nonlinear_arith)
            requires
                b[i] as int == (major as int) * 32 + 24,
                major <= 7,
        ;
    } else if n < 65536 {
        lemma_be_bytes_len(n, 2);
        assert(enc.len() == 3);
        assert(b[i] as int == (major as int) * 32 + 25);
        assert(b[i] / 32 == major as int && b[i] % 32 == 25) by (nonlinear_arith)
            requires
                b[i] as int == (major as int) * 32 + 25,
                major <= 7,
        ;
        assert(b.subrange(i + 1, i + 3) =~= be_bytes(n, 2)) by {
            assert forall|k: int| 0 <= k < 2 implies #[trigger] b.subrange(i + 1, i + 3)[k]
                == be_bytes(n, 2)[k] by {
                assert(b[i + (1 + k)] == enc[1 + k]);
                assert(b[i + 1 + k] == enc[1 + k]);
                assert(enc[1 + k] == be_bytes(n, 2)[k]);
            }
        }
        lemma_be_val_of_be_bytes(b, i + 1, n, 2);
    } else if n < 0x1_0000_0000 {
        lemma_be_bytes_len(n, 4);
        assert(enc.len() == 5);
        assert(b[i] as int == (major as int) * 32 + 26);
        assert(b[i] / 32 == major as int && b[i] % 32 == 26) by (nonlinear_arith)
            requires
                b[i] as int == (major as int) * 32 + 26,
                major <= 7,
        ;
        assert(b.subrange(i + 1, i + 5) =~= be_bytes(n, 4)) by {
            assert forall|k: int| 0 <= k < 4 implies #[trigger] b.subrange(i + 1, i + 5)[k]
                == be_bytes(n, 4)[k] by {
                assert(b[i + (1 + k)] == enc[1 + k]);
                assert(b[i + 1 + k] == enc[1 + k]);
                assert(enc[1 + k] == be_bytes(n, 4)[k]);
            }
        }
        lemma_be_val_of_be_bytes(b, i + 1, n, 4);
    } else {
        lemma_be_bytes_len(n, 8);
        assert(enc.len() == 9);
        assert(b[i] as int == (major as int) * 32 + 27);
        assert(b[i] / 32 == major as int && b[i] % 32 == 27) by (nonlinear_arith)
            requires
                b[i] as int == (major as int) * 32 + 27,
                major <= 7,
        ;
        assert(b.subrange(i + 1, i + 9) =~= be_bytes(n, 8)) by {
            assert forall|k: int| 0 <= k < 8 implies #[trigger] b.subrange(i + 1, i + 9)[k]
                == be_bytes(n, 8)[k] by {
                assert(b[i + (1 + k)] == enc[1 + k]);
                assert(b[i + 1 + k] == enc[1 + k]);
                assert(enc[1 + k] == be_bytes(n, 8)[k]);
            }
        }
        lemma_be_val_of_be_bytes(b, i + 1, n, 8);
    }
}

/// Decoding an embedded unsigned-integer encoding yields the value back.
pub proof fn lemma_dec_enc_uint(b: Seq<u8>, i: int, n: u64)
    requires
        0 <= i,
        i + s_enc_head(0, n).len() <= b.len(),
        b.subrange(i, i + s_enc_head(0, n).len() as int) == s_enc_head(0, n),
    ensures
        s_uint(b, i) == Ok::<(u64, int), DecodeError>((n, i + s_enc_head(0, n).len() as int)),
{
    lemma_head_roundtrip(b, i, 0, n);
}

/// Decoding an embedded byte-string encoding yields the bytes back.
pub proof fn lemma_dec_enc_bytes(b: Seq<u8>, i: int, p: Seq<u8>)
    requires
        0 <= i,
        p.len() <= u64::MAX,
        i + s_enc_bytes(p).len() <= b.len(),
        b.subrange(i, i + s_enc_bytes(p).len() as int) == s_enc_bytes(p),
    ensures
        s_bytes(b, i) == Ok::<(Seq<u8>, int), DecodeError>(
            (p, i + s_enc_bytes(p).len() as int),
        ),
{
    let hd = s_enc_head(2, p.len() as u64);
    let hl = hd.len() as int;
    let enc = s_enc_bytes(p);
    lemma_subrange_embed(b, i, enc, 0, hl);
    assert(enc.subrange(0, hl) =~= hd);
    lemma_head_roundtrip(b, i, 2, p.len() as u64);
    lemma_subrange_embed(b, i, enc, hl, enc.len() as int);
    assert(enc.subrange(hl, enc.len() as int) =~= p);
}

/// Lengths small enough that every count and byte-string length in the
/// model is representable in an encoding argument.
pub open spec fn model_fits(m: AbstractValue) -> bool {
    match m {
        AbstractValue::Coin(_) => true,
        AbstractValue::Multiasset(_, ma) => {
            &&& ma.len() <= u64::MAX
            &&& forall|i: int|
                0 <= i < ma.len() ==> (#[trigger] ma[i]).0.len() <= u64::MAX && ma[i].1.len()
                    <= u64::MAX
            &&& forall|i: int, j: int|
                0 <= i < ma.len() && 0 <= j < ma[i].1.len() ==> (#[trigger] ma[i].1[j]).0.len()
                    <= u64::MAX
        },
    }
}

/// Decoding an embedded asset-list encoding yields the list back.
pub proof fn lemma_dec_enc_assets(b: Seq<u8>, i: int, s: Seq<(Seq<u8>, u64)>)
    requires
        0 <= i,
        forall|j: int| 0 <= j < s.len() ==> (#[trigger] s[j]).0.len() <= u64::MAX,
        i + s_enc_assets(s).len() <= b.len(),
        b.subrange(i, i + s_enc_assets(s).len() as int) == s_enc_assets(s),
    ensures
        s_dec_assets(b, i, s.len() as int) == Some(
            (s, i + s_enc_assets(s).len() as int),
        ),
    decreases s.len(),
{
    let enc = s_enc_assets(s);
    if s.len() == 0 {
        assert(s =~= Seq::<(Seq<u8>, u64)>::empty());
    } else {
        let e0 = s.first();
        let rest = s.drop_first();
        let enc_name = s_enc_bytes(e0.0);
        let enc_amt = s_enc_head(0, e0.1);
        let enc0 = s_enc_asset(e0);
        let enc_rest = s_enc_assets(rest);
        assert(enc == enc0 + enc_rest);
        assert(enc.len() == enc0.len() + enc_rest.len());
        assert(enc0 == enc_name + enc_amt);
        lemma_subrange_embed(b, i, enc, 0, enc_name.len() as int);
        assert(enc.subrange(0, enc_name.len() as int) =~= enc_name);
        lemma_dec_enc_bytes(b, i, e0.0);
        let j = i + enc_name.len() as int;
        lemma_subrange_embed(b, i, enc, enc_name.len() as int, enc0.len() as int);
        assert(enc.subrange(enc_name.len() as int, enc0.len() as int) =~= enc_amt);
        lemma_dec_enc_uint(b, j, e0.1);
        let k2 = j + enc_amt.len() as int;
        lemma_subrange_embed(b, i, enc, enc0.len() as int, enc.len() as int);
        assert(enc.subrange(enc0.len() as int, enc.len() as int) =~= enc_rest);
        assert forall|x: int| 0 <= x < rest.len() implies (#[trigger] rest[x]).0.len()
            <= u64::MAX by {
            assert(rest[x] == s[x + 1]);
        }
        lemma_dec_enc_assets(b, k2, rest);
        assert(seq![(e0.0, e0.1)] + rest =~= s);
        assert((e0.0, e0.1) == e0);
    }
}

/// Decoding an embedded policy-list encoding yields the list back.
#[verifier::rlimit(100)]
pub proof fn lemma_dec_enc_policies(b: Seq<u8>, i: int, s: Seq<(Seq<u8>, Seq<(Seq<u8>, u64)>)>)
    requires
        0 <= i,
        forall|j: int|
            0 <= j < s.len() ==> (#[trigger] s[j]).0.len() <= u64::MAX && s[j].1.len()
                <= u64::MAX,
        forall|j: int, k: int|
            0 <= j < s.len() && 0 <= k < s[j].1.len() ==> (#[trigger] s[j].1[k]).0.len()
                <= u64::MAX,
        i + s_enc_policies(s).len() <= b.len(),
        b.subrange(i, i + s_enc_policies(s).len() as int) == s_enc_policies(s),
    ensures
        s_dec_policies(b, i, s.len() as int) == Some(
            (s, i + s_enc_policies(s).len() as int),
        ),
    decreases s.len(),
{
    let enc = s_enc_policies(s);
    if s.len() == 0 {
        assert(s =~= Seq::<(Seq<u8>, Seq<(Seq<u8>, u64)>)>::empty());
    } else {
        let e0 = s.first();
        let rest = s.drop_first();
        let enc_pol = s_enc_bytes(e0.0);
        let enc_hdr = s_enc_head(5, e0.1.len() as u64);
        let enc_assets = s_enc_assets(e0.1);
        let enc0 = s_enc_policy(e0);
        let enc_rest = s_enc_policies(rest);
        assert(enc == enc0 + enc_rest);
        assert(enc.len() == enc0.len() + enc_rest.len());
        assert(enc0 == enc_pol + enc_hdr + enc_assets);
        assert(enc0.len() == enc_pol.len() + enc_hdr.len() + enc_assets.len());
        lemma_subrange_embed(b, i, enc, 0, enc_pol.len() as int);
        assert(enc.subrange(0, enc_pol.len() as int) =~= enc_pol);
        lemma_dec_enc_bytes(b, i, e0.0);
        let j = i + enc_pol.len() as int;
        lemma_subrange_embed(
            b,
            i,
            enc,
            enc_pol.len() as int,
            enc_pol.len() + enc_hdr.len() as int,
        );
        assert(enc.subrange(enc_pol.len() as int, enc_pol.len() + enc_hdr.len() as int)
            =~= enc_hdr);
        lemma_head_roundtrip(b, j, 5, e0.1.len() as u64);
        let e2 = j + enc_hdr.len() as int;
        lemma_subrange_embed(
            b,
            i,
            enc,
            enc_pol.len() + enc_hdr.len() as int,
            enc0.len() as int,
        );
        assert(enc.subrange(enc_pol.len() + enc_hdr.len() as int, enc0.len() as int)
            =~= enc_assets);
        assert forall|x: int| 0 <= x < e0.1.len() implies (#[trigger] e0.1[x]).0.len()
            <= u64::MAX by {
            assert(s[0].1[x].0.len() <= u64::MAX);
        }
        lemma_dec_enc_assets(b, e2, e0.1);
        let k2 = e2 + enc_assets.len() as int;
        lemma_subrange_embed(b, i, enc, enc0.len() as int, enc.len() as int);
        assert(enc.subrange(enc0.len() as int, enc.len() as int) =~= enc_rest);
        assert forall|x: int|
            0 <= x < rest.len() implies (#[trigger] rest[x]).0.len() <= u64::MAX && rest[x].1.len()
            <= u64::MAX by {
            assert(rest[x] == s[x + 1]);
        }
        assert forall|x: int, y: int|
            0 <= x < rest.len() && 0 <= y < rest[x].1.len() implies (
        #[trigger] rest[x].1[y]).0.len() <= u64::MAX by {
            assert(rest[x] == s[x + 1]);
            assert(s[x + 1].1[y].0.len() <= u64::MAX);
        }
        lemma_dec_enc_policies(b, k2, rest);
        assert(seq![(e0.0, e0.1)] + rest =~= s);
        assert((e0.0, e0.1) == e0);
    }
}

/// Round trip: decoding the encoding of a value yields that value back,
/// consuming exactly the encoding.
#[verifier::rlimit(100)]
pub proof fn lemma_value_roundtrip(m: AbstractValue)
    requires
        model_fits(m),
    ensures
        s_dec_value(s_enc_value(m), 0) == Some(
            (m, s_enc_value(m).len() as int),
        ),
{
    let b = s_enc_value(m);
    assert(b.subrange(0, b.len() as int) =~= b);
    match m {
        AbstractValue::Coin(c) => {
            lemma_head_roundtrip(b, 0, 0, c);
        },
        AbstractValue::Multiasset(c, ma) => {
            let h1 = s_enc_head(4, 2);
            let h2 = s_enc_head(0, c);
            let h3 = s_enc_head(5, ma.len() as u64);
            let encp = s_enc_policies(ma);
            assert(b == h1 + h2 + h3 + encp);
            assert(b.len() == h1.len() + h2.len() + h3.len() + encp.len());
            lemma_subrange_embed(b, 0, b, 0, h1.len() as int);
            assert(b.subrange(0, h1.len() as int) =~= h1);
            lemma_head_roundtrip(b, 0, 4, 2);
            lemma_subrange_embed(b, 0, b, h1.len() as int, h1.len() + h2.len() as int);
            assert(b.subrange(h1.len() as int, h1.len() + h2.len() as int) =~= h2);
            lemma_dec_enc_uint(b, h1.len() as int, c);
            lemma_subrange_embed(
                b,
                0,
                b,
                h1.len() + h2.len() as int,
                h1.len() + h2.len() + h3.len() as int,
            );
            assert(b.subrange(h1.len() + h2.len() as int, h1.len() + h2.len() + h3.len() as int)
                =~= h3);
            lemma_head_roundtrip(b, h1.len() + h2.len() as int, 5, ma.len() as u64);
            lemma_subrange_embed(
                b,
                0,
                b,
                h1.len() + h2.len() + h3.len() as int,
                b.len() as int,
            );
            assert(b.subrange(h1.len() + h2.len() + h3.len() as int, b.len() as int) =~= encp);
            lemma_dec_enc_policies(b, h1.len() + h2.len() + h3.len() as int, ma);
        },
    }
}

} // verus!

verus! {

// ---------------------------------------------------------------------------
// Executable encoder
// ---------------------------------------------------------------------------
pub proof fn lemma_enc_assets_push(s: Seq<(Seq<u8>, u64)>, x: (Seq<u8>, u64))
    ensures
        s_enc_assets(s.push(x)) == s_enc_assets(s) + s_enc_asset(x),
    decreases s.len(),
{
    if s.len() == 0 {
        assert(s.push(x).first() == x);
        assert(s.push(x).drop_first() =~= Seq::<(Seq<u8>, u64)>::empty());
        assert(s_enc_assets(s.push(x)) == s_enc_asset(x) + s_enc_assets(s.push(x).drop_first()));
        assert(s_enc_assets(s.push(x).drop_first()) == Seq::<u8>::empty());
        assert(s_enc_assets(s) == Seq::<u8>::empty());
        assert(s_enc_assets(s.push(x)) =~= s_enc_assets(s) + s_enc_asset(x));
    } else {
        assert(s.push(x).first() == s.first());
        assert(s.push(x).drop_first() =~= s.drop_first().push(x));
        lemma_enc_assets_push(s.drop_first(), x);
        assert(s_enc_assets(s.push(x)) == s_enc_asset(s.first()) + s_enc_assets(
            s.drop_first().push(x),
        ));
        assert(s_enc_assets(s.drop_first().push(x)) == s_enc_assets(s.drop_first())
            + s_enc_asset(x));
        assert(s_enc_assets(s) == s_enc_asset(s.first()) + s_enc_assets(s.drop_first()));
        assert(s_enc_assets(s.push(x)) =~= s_enc_assets(s) + s_enc_asset(x));
    }
}

pub proof fn lemma_enc_policies_push(
    s: Seq<(Seq<u8>, Seq<(Seq<u8>, u64)>)>,
    x: (Seq<u8>, Seq<(Seq<u8>, u64)>),
)
    ensures
        s_enc_policies(s.push(x)) == s_enc_policies(s) + s_enc_policy(x),
    decreases s.len(),
{
    if s.len() == 0 {
        assert(s.push(x).first() == x);
        assert(s.push(x).drop_first() =~= Seq::<(Seq<u8>, Seq<(Seq<u8>, u64)>)>::empty());
        assert(s_enc_policies(s.push(x)) == s_enc_policy(x) + s_enc_policies(
            s.push(x).drop_first(),
        ));
        assert(s_enc_policies(s.push(x).drop_first()) == Seq::<u8>::empty());
        assert(s_enc_policies(s) == Seq::<u8>::empty());
        assert(s_enc_policies(s.push(x)) =~= s_enc_policies(s) + s_enc_policy(x));
    } else {
        assert(s.push(x).first() == s.first());
        assert(s.push(x).drop_first() =~= s.drop_first().push(x));
        lemma_enc_policies_push(s.drop_first(), x);
        assert(s_enc_policies(s.push(x)) == s_enc_policy(s.first()) + s_enc_policies(
            s.drop_first().push(x),
        ));
        assert(s_enc_policies(s.drop_first().push(x)) == s_enc_policies(s.drop_first())
            + s_enc_policy(x));
        assert(s_enc_policies(s) == s_enc_policy(s.first()) + s_enc_policies(s.drop_first()));
        assert(s_enc_policies(s.push(x)) =~= s_enc_policies(s) + s_enc_policy(x));
    }
}

/// Encode a value in the ledger's binary form.
pub fn encode_value(v: &Value) -> (r: Vec<u8>)
    ensures
        r@ == s_enc_value(value_model(*v)),
{
    let mut w = Writer::new();
    match v {
        Value::Coin(c) => {
            w.write_uint(*c);
            proof {
                assert(w.out@ =~= s_enc_value(value_model(*v)));
            }
        },
        Value::Multiasset(c, ma) => {
            let ghost mm = ma_model(ma@);
            w.write_array_header(2);
            w.write_uint(*c);
            w.write_map_header(ma.len() as u64);
            let ghost prefix = w.out@;
            proof {
                assert(prefix =~= s_enc_head(4, 2) + s_enc_head(0, *c) + s_enc_head(
                    5,
                    mm.len() as u64,
                ));
            }
            let mut i: usize = 0;
            while i < ma.len()
                invariant
                    i <= ma@.len(),
                    mm == ma_model(ma@),
                    w.out@ == prefix + s_enc_policies(mm.take(i as int)),
                decreases ma@.len() - i,
            {
                let pa = &ma[i];
                let ghost before_policy = w.out@;
                w.write_bytes(&pa.policy.bytes);
                w.write_map_header(pa.assets.len() as u64);
                let ghost inner_prefix = w.out@;
                let ghost am = assets_model(pa.assets@);
                let mut j: usize = 0;
                while j < pa.assets.len()
                    invariant
                        j <= pa.assets@.len(),
                        am == assets_model(pa.assets@),
                        w.out@ == inner_prefix + s_enc_assets(am.take(j as int)),
                    decreases pa.assets@.len() - j,
                {
                    let e = &pa.assets[j];
                    let ghost before_entry = w.out@;
                    w.write_bytes(&e.name.bytes);
                    w.write_uint(e.amount);
                    proof {
                        assert(am.take(j + 1) =~= am.take(j as int).push(am[j as int]));
                        lemma_enc_assets_push(am.take(j as int), am[j as int]);
                        assert(am[j as int] == (e.name.bytes@, e.amount));
                        assert(s_enc_asset(am[j as int]) =~= s_enc_bytes(e.name.bytes@)
                            + s_enc_head(0, e.amount));
                        assert(w.out@ =~= inner_prefix + s_enc_assets(am.take(j + 1)));
                    }
                    j = j + 1;
                }
                proof {
                    assert(am.take(am.len() as int) =~= am);
                    assert(mm.take(i + 1) =~= mm.take(i as int).push(mm[i as int]));
                    lemma_enc_policies_push(mm.take(i as int), mm[i as int]);
                    assert(mm[i as int] == (pa.policy.bytes@, am));
                    assert(am.len() == pa.assets@.len());
                    assert(s_enc_policy(mm[i as int]) =~= s_enc_bytes(pa.policy.bytes@)
                        + s_enc_head(5, am.len() as u64) + s_enc_assets(am));
                    assert(w.out@ =~= prefix + s_enc_policies(mm.take(i + 1)));
                }
                i = i + 1;
            }
            proof {
                assert(mm.take(mm.len() as int) =~= mm);
                assert(w.out@ =~= s_enc_value(value_model(*v)));
            }
        },
    }
    w.finish()
}

} // verus!

verus! {

// ---------------------------------------------------------------------------
// Executable decoder
// ---------------------------------------------------------------------------
/// Decode `n` asset entries at the reader's position.
fn decode_assets(rd: &mut Reader, n: u64) -> (r: Result<Vec<AssetEntry>, DecodeError>)
    requires
        old(rd).wf(),
    ensures
        final(rd).buf@ == old(rd).buf@,
        final(rd).wf(),
        r matches Ok(v) ==> (s_dec_assets(old(rd).buf@, old(rd).pos as int, n as int)
            matches Some(t) && assets_model(v@) == t.0 && final(rd).pos == t.1),
        r matches Ok(v) ==> old(rd).pos <= final(rd).pos,
        r is Err ==> s_dec_assets(old(rd).buf@, old(rd).pos as int, n as int) is None,
{
    let ghost gb = rd.buf@;
    let ghost gp0 = rd.pos as int;
    let mut out: Vec<AssetEntry> = Vec::new();
    let mut k: u64 = 0;
    proof {
        assert(assets_model(out@) =~= Seq::<(Seq<u8>, u64)>::empty());
    }
    while k < n
        invariant
            k <= n,
            rd.wf(),
            rd.buf@ == gb,
            gb == old(rd).buf@,
            gp0 == old(rd).pos as int,
            gp0 <= rd.pos as int,
            (match s_dec_assets(gb, rd.pos as int, (n - k) as int) {
                Some(t) => s_dec_assets(gb, gp0, n as int) == Some(
                    (assets_model(out@) + t.0, t.1),
                ),
                None => s_dec_assets(gb, gp0, n as int) is None,
            }),
        decreases n - k,
    {
        let ghost p1 = rd.pos as int;
        let ghost out0 = out@;
        let name = match rd.read_bytes() {
            Ok(v) => v,
            Err(_) => {
                proof {
                    assert(s_dec_assets(gb, p1, (n - k) as int) is None);
                }
                return Err(
                    DecodeError::MalformedEncoding { stage: Stage::Bytes, offset: 0 },
                );
            },
        };
        let amount = match rd.read_uint() {
            Ok(v) => v,
            Err(_) => {
                proof {
                    assert(s_dec_assets(gb, p1, (n - k) as int) is None);
                }
                return Err(
                    DecodeError::MalformedEncoding { stage: Stage::Integer, offset: 0 },
                );
            },
        };
        let entry = AssetEntry { name: AssetName { bytes: name }, amount };
        let ghost entry_snap = entry;
        out.push(entry);
        proof {
            let rest_n = (n - k) as int;
            assert(s_dec_assets(gb, p1, rest_n) matches Some(t) ==> s_dec_assets(
                gb,
                p1,
                rest_n,
            ) == Some(
                (seq![(entry_snap.name.bytes@, entry_snap.amount)] + t.0, t.1),
            ) ==> true);
            assert(out@ =~= out0.push(entry_snap));
            assert(assets_model(out@) =~= assets_model(out0).push(
                (entry_snap.name.bytes@, entry_snap.amount),
            ));
            match s_dec_assets(gb, rd.pos as int, rest_n - 1) {
                Some(t2) => {
                    assert(s_dec_assets(gb, p1, rest_n) == Some(
                        (
                            seq![(entry_snap.name.bytes@, entry_snap.amount)] + t2.0,
                            t2.1,
                        ),
                    ));
                    assert(assets_model(out0) + (seq![
                        (entry_snap.name.bytes@, entry_snap.amount),
                    ] + t2.0) =~= assets_model(out@) + t2.0);
                },
                None => {
                    assert(s_dec_assets(gb, p1, rest_n) is None);
                },
            }
        }
        k = k + 1;
    }
    proof {
        assert(s_dec_assets(gb, rd.pos as int, 0) == Some(
            (Seq::<(Seq<u8>, u64)>::empty(), rd.pos as int),
        ));
        assert(assets_model(out@) + Seq::<(Seq<u8>, u64)>::empty() =~= assets_model(out@));
    }
    Ok(out)
}

/// Decode `n` policy entries at the reader's position.
fn decode_policies(rd: &mut Reader, n: u64) -> (r: Result<Vec<PolicyAssets>, DecodeError>)
    requires
        old(rd).wf(),
    ensures
        final(rd).buf@ == old(rd).buf@,
        final(rd).wf(),
        r matches Ok(v) ==> (s_dec_policies(old(rd).buf@, old(rd).pos as int, n as int)
            matches Some(t) && ma_model(v@) == t.0 && final(rd).pos == t.1),
        r matches Ok(v) ==> old(rd).pos <= final(rd).pos,
        r is Err ==> s_dec_policies(old(rd).buf@, old(rd).pos as int, n as int) is None,
{
    let ghost gb = rd.buf@;
    let ghost gp0 = rd.pos as int;
    let mut out: Vec<PolicyAssets> = Vec::new();
    let mut k: u64 = 0;
    proof {
        assert(ma_model(out@) =~= Seq::<(Seq<u8>, Seq<(Seq<u8>, u64)>)>::empty());
    }
    while k < n
        invariant
            k <= n,
            rd.wf(),
            rd.buf@ == gb,
            gb == old(rd).buf@,
            gp0 == old(rd).pos as int,
            gp0 <= rd.pos as int,
            (match s_dec_policies(gb, rd.pos as int, (n - k) as int) {
                Some(t) => s_dec_policies(gb, gp0, n as int) == Some(
                    (ma_model(out@) + t.0, t.1),
                ),
                None => s_dec_policies(gb, gp0, n as int) is None,
            }),
        decreases n - k,
    {
        let ghost p1 = rd.pos as int;
        let ghost out0 = out@;
        let ghost rest_n0: int = (n - k) as int;
        let policy = match rd.read_bytes() {
            Ok(v) => v,
            Err(_) => {
                proof {
                    assert(s_dec_policies(gb, p1, (n - k) as int) is None);
                }
                return Err(
                    DecodeError::MalformedEncoding { stage: Stage::Bytes, offset: 0 },
                );
            },
        };
        let ghost j1 = rd.pos as int;
        let mlen = match rd.read_map_header() {
            Ok(l) => l,
            Err(_) => {
                proof {
                    assert(s_dec_policies(gb, p1, (n - k) as int) is None);
                }
                return Err(
                    DecodeError::MalformedEncoding { stage: Stage::Header, offset: 0 },
                );
            },
        };
        let ghost j2 = rd.pos as int;
        let m = match mlen {
            Len::Def(m) => m,
            Len::Indef => {
                proof {
                    assert(s_dec_policies(gb, p1, (n - k) as int) is None);
                }
                return Err(
                    DecodeError::MalformedEncoding { stage: Stage::Header, offset: 0 },
                );
            },
        };
        proof {
            crate::cbor::lemma_head_bounds(gb, j1);
            assert(s_head(gb, j1) == Some((5u8, Len::Def(m), j2)));
            assert(p1 < j1 < j2 <= gb.len());
        }
        let assets = match decode_assets(rd, m) {
            Ok(v) => v,
            Err(e) => {
                proof {
                    assert(s_dec_policies(gb, p1, (n - k) as int) is None);
                }
                return Err(e);
            },
        };
        let ghost j3 = rd.pos as int;
        let pa = PolicyAssets { policy: PolicyId { bytes: policy }, assets };
        let ghost pa_snap = pa;
        out.push(pa);
        proof {
            let rest_n = (n - k) as int;
            assert(s_bytes(gb, p1) == Ok::<(Seq<u8>, int), DecodeError>(
                (pa_snap.policy.bytes@, j1),
            ));
            assert(s_dec_assets(gb, j2, m as int) == Some(
                (assets_model(pa_snap.assets@), j3),
            ));
            lemma_dec_assets_pos(gb, j2, m as int);
            assert(j1 < j3 <= gb.len());
            assert(out@ =~= out0.push(pa_snap));
            assert(ma_model(out@) =~= ma_model(out0).push(
                (pa_snap.policy.bytes@, assets_model(pa_snap.assets@)),
            ));
            match s_dec_policies(gb, rd.pos as int, rest_n - 1) {
                Some(t2) => {
                    assert(s_dec_policies(gb, p1, rest_n) == Some(
                        (
                            seq![(pa_snap.policy.bytes@, assets_model(pa_snap.assets@))]
                                + t2.0,
                            t2.1,
                        ),
                    ));
                    assert(ma_model(out0) + (seq![
                        (pa_snap.policy.bytes@, assets_model(pa_snap.assets@)),
                    ] + t2.0) =~= ma_model(out@) + t2.0);
                },
                None => {
                    assert(s_dec_policies(gb, p1, rest_n) is None);
                },
            }
        }
        k = k + 1;
    }
    proof {
        assert(s_dec_policies(gb, rd.pos as int, 0) == Some(
            (Seq::<(Seq<u8>, Seq<(Seq<u8>, u64)>)>::empty(), rd.pos as int),
        ));
        assert(ma_model(out@) + Seq::<(Seq<u8>, Seq<(Seq<u8>, u64)>)>::empty() =~= ma_model(
            out@,
        ));
    }
    Ok(out)
}

/// Decode a value at the reader's position.
pub fn decode_value_at(rd: &mut Reader) -> (r: Result<Value, DecodeError>)
    requires
        old(rd).wf(),
    ensures
        final(rd).buf@ == old(rd).buf@,
        final(rd).wf(),
        r matches Ok(v) ==> (s_dec_value(old(rd).buf@, old(rd).pos as int) matches Some(t)
            && value_model(v) == t.0 && final(rd).pos == t.1),
        r matches Ok(v) ==> old(rd).pos < final(rd).pos,
        r is Err ==> s_dec_value(old(rd).buf@, old(rd).pos as int) is None,
{
    let ghost gstart = rd.pos as int;
    let h = match rd.read_head() {
        Ok(h) => h,
        Err(e) => {
            return Err(e);
        },
    };
    proof {
        crate::cbor::lemma_head_bounds(rd.buf@, gstart);
    }
    if h.0 == 0 {
        match h.1 {
            Len::Def(c) => Ok(Value::Coin(c)),
            Len::Indef => Err(
                DecodeError::MalformedEncoding { stage: Stage::Header, offset: 0 },
            ),
        }
    } else if h.0 == 4 && h.1 == Len::Def(2u64) {
        let c = match rd.read_uint() {
            Ok(v) => v,
            Err(e) => {
                return Err(e);
            },
        };
        let mlen = match rd.read_map_header() {
            Ok(l) => l,
            Err(e) => {
                return Err(e);
            },
        };
        let m = match mlen {
            Len::Def(m) => m,
            Len::Indef => {
                return Err(
                    DecodeError::MalformedEncoding { stage: Stage::Header, offset: 0 },
                );
            },
        };
        let ma = match decode_policies(rd, m) {
            Ok(v) => v,
            Err(e) => {
                return Err(e);
            },
        };
        Ok(Value::Multiasset(c, ma))
    } else {
        Err(DecodeError::MalformedEncoding { stage: Stage::Header, offset: 0 })
    }
}

} // verus!

verus! {

/// The model of a vector-backed value always has representable lengths.
pub proof fn lemma_value_model_fits(v: Value)
    ensures
        model_fits(value_model(v)),
{
    broadcast use vstd::std_specs::vec::axiom_spec_len;

    match v {
        Value::Coin(_) => {
        },
        Value::Multiasset(_, ma) => {
            let mm = ma_model(ma@);
            assert(vstd::std_specs::vec::spec_vec_len(&ma) == ma@.len());
            assert forall|i: int|
                0 <= i < mm.len() implies (#[trigger] mm[i]).0.len() <= u64::MAX && mm[i].1.len()
                <= u64::MAX by {
                assert(vstd::std_specs::vec::spec_vec_len(&ma@[i].policy.bytes)
                    == ma@[i].policy.bytes@.len());
                assert(vstd::std_specs::vec::spec_vec_len(&ma@[i].assets)
                    == ma@[i].assets@.len());
            }
            assert forall|i: int, j: int|
                0 <= i < mm.len() && 0 <= j < mm[i].1.len() implies (
            #[trigger] mm[i].1[j]).0.len() <= u64::MAX by {
                assert(vstd::std_specs::vec::spec_vec_len(&ma@[i].assets@[j].name.bytes)
                    == ma@[i].assets@[j].name.bytes@.len());
            }
        },
    }
}

/// Round trip at the value level: the encoding of any vector-backed
/// value decodes back to a value with the same contents, consuming the
/// whole encoding.
pub proof fn lemma_value_encode_decode(v: Value)
    ensures
        s_dec_value(s_enc_value(value_model(v)), 0) == Some(
            (value_model(v), s_enc_value(value_model(v)).len() as int),
        ),
{
    lemma_value_model_fits(v);
    lemma_value_roundtrip(value_model(v));
}

} // verus!

verus! {

/// Decode a value in the ledger's binary form.  Trailing bytes past the
/// value are ignored.
pub fn decode_value(bytes: &[u8]) -> (r: Result<Value, DecodeError>)
    ensures
        r matches Ok(v) ==> (s_dec_value(bytes@, 0) matches Some(t) && value_model(v) == t.0),
        r is Err ==> s_dec_value(bytes@, 0) is None,
{
    let mut rd = Reader::new(bytes);
    decode_value_at(&mut rd)
}

} // verus!
