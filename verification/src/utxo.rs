//! Unspent transaction outputs, their aggregation, and consolidation of
//! many outputs into one.

use crate::errors::DecodeError;
use crate::hexfmt::{hex_decode, hex_encode, hex_bytes, hex_ok, hex_of};
use crate::value::{
    Value, PolicyAssets, acc_wf, add_value, amt_in_policies, bounded_value, copy_bytes,
    finalize_value, lemma_amt_policies_bounded, value_amt, value_coin, wf_value,
};
use vstd::prelude::*;

verus! {

/// A 32-byte hash identifying a transaction.
#[derive(Debug, Clone, PartialEq, Eq, Hash)]
pub struct Hash {
    pub bytes: Vec<u8>,
}

/// A 32-byte hash holds exactly 32 bytes.
pub open spec fn hash_wf(h: Hash) -> bool {
    h.bytes@.len() == 32
}

impl Hash {
    /// Wrap 32 bytes as a transaction hash.
    pub fn new(bytes: Vec<u8>) -> (r: Self)
        requires
            bytes@.len() == 32,
        ensures
            r.bytes@ == bytes@,
            hash_wf(r),
    {
        Hash { bytes }
    }

    /// The hex string of this hash.
    pub fn to_hex(&self) -> (r: String)
        ensures
            r@ == hex_of(self.bytes@),
    {
        hex_encode(&self.bytes)
    }
}

/// An opaque address, carried as raw bytes.
#[derive(Debug, Clone, PartialEq, Eq, Hash)]
pub struct Address {
    pub bytes: Vec<u8>,
}

impl Address {
    /// Wrap raw address bytes.
    pub fn new(bytes: Vec<u8>) -> (r: Self)
        ensures
            r.bytes@ == bytes@,
    {
        Address { bytes }
    }

    /// Decode an address from its hex encoding.
    pub fn from_hex(s: &str) -> (r: Result<Self, DecodeError>)
        ensures
            r matches Ok(addr) ==> hex_ok(s@) && addr.bytes@ == hex_bytes(s@),
            r matches Err(e) ==> !hex_ok(s@) && e == DecodeError::MalformedHex,
    {
        match hex_decode(s) {
            Ok(bytes) => Ok(Address { bytes }),
            Err(e) => Err(e),
        }
    }

    /// The hex string of this address.
    pub fn to_hex(&self) -> (r: String)
        ensures
            r@ == hex_of(self.bytes@),
    {
        hex_encode(&self.bytes)
    }

    /// The raw address bytes.
    pub fn to_bytes(&self) -> (r: Vec<u8>)
        ensures
            r@ == self.bytes@,
    {
        copy_bytes(&self.bytes)
    }
}

/// A reference to a spendable output: the transaction that created it and
/// the index of the output within that transaction.
#[derive(Debug, Clone, PartialEq, Eq, Hash)]
pub struct TransactionInput {
    pub transaction_id: Hash,
    pub index: u64,
}

/// A transaction output in either historical encoding.  Both variants
/// expose the same projection: an address and a value.
#[derive(Debug, Clone, PartialEq, Eq, Hash)]
pub enum TransactionOutput {
    Legacy { address: Vec<u8>, amount: Value },
    PostAlonzo { address: Vec<u8>, value: Value },
}

/// The value an output carries, whichever encoding it came in.
pub open spec fn out_value(o: TransactionOutput) -> Value {
    match o {
        TransactionOutput::Legacy { amount, .. } => amount,
        TransactionOutput::PostAlonzo { value, .. } => value,
    }
}

/// The address an output pays to, whichever encoding it came in.
pub open spec fn out_address(o: TransactionOutput) -> Seq<u8> {
    match o {
        TransactionOutput::Legacy { address, .. } => address@,
        TransactionOutput::PostAlonzo { address, .. } => address@,
    }
}

impl TransactionOutput {
    /// The value this output carries.
    pub fn value(&self) -> (r: &Value)
        ensures
            *r == out_value(*self),
    {
        match self {
            TransactionOutput::Legacy { amount, .. } => amount,
            TransactionOutput::PostAlonzo { value, .. } => value,
        }
    }

    /// The raw bytes of the address this output pays to.
    pub fn address_bytes(&self) -> (r: &Vec<u8>)
        ensures
            r@ == out_address(*self),
    {
        match self {
            TransactionOutput::Legacy { address, .. } => address,
            TransactionOutput::PostAlonzo { address, .. } => address,
        }
    }
}

/// An unspent transaction output as handed over by the wallet.
#[derive(Debug, Clone, PartialEq, Eq, Hash)]
pub struct Utxo {
    pub input: TransactionInput,
    pub output: TransactionOutput,
}

impl Utxo {
    /// The hash of the transaction that created this output.
    pub fn transaction_id(&self) -> (r: &Hash)
        ensures
            *r == self.input.transaction_id,
    {
        &self.input.transaction_id
    }

    /// The index of this output within its transaction.
    pub fn index(&self) -> (r: u64)
        ensures
            r == self.input.index,
    {
        self.input.index
    }

    /// The coin quantity this output carries.
    pub fn amount(&self) -> (r: u64)
        ensures
            r == value_coin(out_value(self.output)),
    {
        self.output.value().coin()
    }

    /// The hex string of the address this output pays to.
    pub fn address(&self) -> (r: String)
        ensures
            r@ == hex_of(out_address(self.output)),
    {
        hex_encode(self.output.address_bytes())
    }
}

/// What can go wrong when aggregating and consolidating outputs.
#[derive(Debug, Clone, Copy, PartialEq, Eq, Structural)]
pub enum GroupUtxoError {
    /// Some running total would exceed the largest representable amount.
    Overflow,
    /// The aggregated coin cannot pay the fee.
    InsufficientFunds { fee: u64, available: u64 },
}

// ---------------------------------------------------------------------------
// Totals over a list of outputs
// ---------------------------------------------------------------------------
/// The summed coin of a list of outputs.
pub open spec fn total_coin(s: Seq<TransactionOutput>) -> int
    decreases s.len(),
{
    if s.len() == 0 {
        0
    } else {
        total_coin(s.drop_last()) + value_coin(out_value(s.last()))
    }
}

/// The summed amount under `(p, a)` of a list of outputs.
pub open spec fn total_amt(s: Seq<TransactionOutput>, p: Seq<u8>, a: Seq<u8>) -> int
    decreases s.len(),
{
    if s.len() == 0 {
        0
    } else {
        total_amt(s.drop_last(), p, a) + value_amt(out_value(s.last()), p, a)
    }
}

/// Every total of the list is representable in an amount.
pub open spec fn sum_fits(s: Seq<TransactionOutput>) -> bool {
    &&& total_coin(s) <= u64::MAX
    &&& forall|p: Seq<u8>, a: Seq<u8>| #[trigger] total_amt(s, p, a) <= u64::MAX
}

/// `v` is the canonical aggregate of the outputs `s`: well formed, with
/// exactly the summed coin and exactly the summed amount under every key.
pub open spec fn is_aggregate(s: Seq<TransactionOutput>, v: Value) -> bool {
    &&& wf_value(v)
    &&& value_coin(v) as int == total_coin(s)
    &&& forall|p: Seq<u8>, a: Seq<u8>| #[trigger] value_amt(v, p, a) == total_amt(s, p, a)
}

pub proof fn lemma_total_coin_take_step(s: Seq<TransactionOutput>, i: int)
    requires
        0 <= i < s.len(),
    ensures
        total_coin(s.take(i + 1)) == total_coin(s.take(i)) + value_coin(out_value(s[i])),
{
    assert(s.take(i + 1).drop_last() =~= s.take(i));
    assert(s.take(i + 1).last() == s[i]);
}

pub proof fn lemma_total_coin_take_bound(s: Seq<TransactionOutput>, i: int)
    requires
        0 <= i <= s.len(),
    ensures
        total_coin(s) >= total_coin(s.take(i)),
    decreases s.len() - i,
{
    if i == s.len() {
        assert(s.take(i) =~= s);
    } else {
        lemma_total_coin_take_step(s, i);
        lemma_total_coin_take_bound(s, i + 1);
    }
}

pub proof fn lemma_total_amt_take_step(s: Seq<TransactionOutput>, i: int, p: Seq<u8>, a: Seq<u8>)
    requires
        0 <= i < s.len(),
    ensures
        total_amt(s.take(i + 1), p, a) == total_amt(s.take(i), p, a) + value_amt(
            out_value(s[i]),
            p,
            a,
        ),
{
    assert(s.take(i + 1).drop_last() =~= s.take(i));
    assert(s.take(i + 1).last() == s[i]);
}

pub proof fn lemma_total_amt_take_bound(s: Seq<TransactionOutput>, i: int, p: Seq<u8>, a: Seq<u8>)
    requires
        0 <= i <= s.len(),
    ensures
        total_amt(s, p, a) >= total_amt(s.take(i), p, a),
    decreases s.len() - i,
{
    if i == s.len() {
        assert(s.take(i) =~= s);
    } else {
        lemma_total_amt_take_step(s, i, p, a);
        crate::value::lemma_value_amt_nonneg(out_value(s[i]), p, a);
        lemma_total_amt_take_bound(s, i + 1, p, a);
    }
}

// ---------------------------------------------------------------------------
// Aggregation
// ---------------------------------------------------------------------------
/// Sum a list of outputs into one canonical value: coins added, every
/// asset amount added under its `(policy, name)` key, zero totals pruned.
/// Fails with [`GroupUtxoError::Overflow`] exactly when some total would
/// exceed the largest representable amount.
pub fn sumup(outputs: &Vec<TransactionOutput>) -> (r: Result<Value, GroupUtxoError>)
    requires
        forall|i: int|
            0 <= i < outputs@.len() ==> bounded_value(out_value(#[trigger] outputs@[i])),
    ensures
        r matches Ok(v) ==> sum_fits(outputs@) && is_aggregate(outputs@, v),
        r matches Err(e) ==> e == GroupUtxoError::Overflow && !sum_fits(outputs@),
{
    let mut coin: u64 = 0;
    let mut acc: Vec<PolicyAssets> = Vec::new();
    let mut i: usize = 0;
    proof {
        assert(outputs@.take(0) =~= Seq::<TransactionOutput>::empty());
    }
    while i < outputs.len()
        invariant
            i <= outputs@.len(),
            forall|x: int|
                0 <= x < outputs@.len() ==> bounded_value(out_value(#[trigger] outputs@[x])),
            acc_wf(acc@),
            coin as int == total_coin(outputs@.take(i as int)),
            forall|p: Seq<u8>, a: Seq<u8>| #[trigger] amt_in_policies(acc@, p, a) == total_amt(
                outputs@.take(i as int),
                p,
                a,
            ),
        decreases outputs@.len() - i,
    {
        let out = &outputs[i];
        let v = out.value();
        let ghost acc_before = acc@;
        match add_value(coin, &mut acc, v) {
            Some(c2) => {
                proof {
                    lemma_total_coin_take_step(outputs@, i as int);
                    assert forall|p: Seq<u8>, a: Seq<u8>| #[trigger] amt_in_policies(acc@, p, a)
                        == total_amt(outputs@.take(i + 1), p, a) by {
                        lemma_total_amt_take_step(outputs@, i as int, p, a);
                        assert(amt_in_policies(acc_before, p, a) == total_amt(
                            outputs@.take(i as int),
                            p,
                            a,
                        ));
                    }
                }
                coin = c2;
            },
            None => {
                proof {
                    lemma_total_coin_take_step(outputs@, i as int);
                    lemma_total_coin_take_bound(outputs@, i as int + 1);
                    if coin + value_coin(out_value(outputs@[i as int])) > u64::MAX {
                        assert(total_coin(outputs@) > u64::MAX);
                    } else {
                        let (p, a) = choose|p: Seq<u8>, a: Seq<u8>|
                            #[trigger] amt_in_policies(acc_before, p, a) + value_amt(*v, p, a)
                                > u64::MAX;
                        lemma_total_amt_take_step(outputs@, i as int, p, a);
                        lemma_total_amt_take_bound(outputs@, i as int + 1, p, a);
                        assert(amt_in_policies(acc_before, p, a) == total_amt(
                            outputs@.take(i as int),
                            p,
                            a,
                        ));
                        assert(total_amt(outputs@, p, a) > u64::MAX);
                    }
                }
                return Err(GroupUtxoError::Overflow);
            },
        }
        i = i + 1;
    }
    proof {
        assert(outputs@.take(outputs@.len() as int) =~= outputs@);
    }
    let val = finalize_value(coin, &acc);
    proof {
        assert forall|p: Seq<u8>, a: Seq<u8>| #[trigger] total_amt(outputs@, p, a)
            <= u64::MAX by {
            lemma_amt_policies_bounded(acc@, p, a);
            assert(amt_in_policies(acc@, p, a) == total_amt(outputs@, p, a));
        }
        assert forall|p: Seq<u8>, a: Seq<u8>| #[trigger] value_amt(val, p, a) == total_amt(
            outputs@,
            p,
            a,
        ) by {
            assert(value_amt(val, p, a) == amt_in_policies(acc@, p, a));
            assert(amt_in_policies(acc@, p, a) == total_amt(outputs@, p, a));
        }
    }
    Ok(val)
}

/// The outputs carried by a list of unspent transaction outputs.
pub open spec fn outputs_of(s: Seq<Utxo>) -> Seq<TransactionOutput> {
    s.map_values(|u: Utxo| u.output)
}

/// The consolidated output pays `addr`, carries the aggregate of `outs`
/// with the fee already deducted from the coin, and keeps every asset
/// amount unchanged.
pub open spec fn consolidated_output(
    outs: Seq<TransactionOutput>,
    fee: u64,
    addr: Seq<u8>,
    out: TransactionOutput,
) -> bool {
    match out {
        TransactionOutput::PostAlonzo { address, value } => {
            &&& address@ == addr
            &&& wf_value(value)
            &&& value_coin(value) as int == total_coin(outs) - fee
            &&& forall|p: Seq<u8>, a: Seq<u8>| #[trigger] value_amt(value, p, a) == total_amt(
                outs,
                p,
                a,
            )
        },
        TransactionOutput::Legacy { .. } => false,
    }
}

/// Group a non-empty list of unspent outputs into one output paying `to`,
/// deducting `fee` from the aggregated coin, and return it together with
/// the consumed input references.  Fails with
/// [`GroupUtxoError::InsufficientFunds`] exactly when the aggregated coin
/// cannot pay the fee, and with [`GroupUtxoError::Overflow`] exactly when
/// a running total would exceed the largest representable amount.
pub fn group_utxos(utxos: &Vec<Utxo>, fee: u64, to: &Address) -> (r: Result<
    (TransactionOutput, Vec<TransactionInput>),
    GroupUtxoError,
>)
    requires
        utxos@.len() > 0,
        forall|i: int|
            0 <= i < utxos@.len() ==> bounded_value(out_value((#[trigger] utxos@[i]).output)),
    ensures
        r matches Ok(pair) ==> {
            &&& sum_fits(outputs_of(utxos@))
            &&& fee as int <= total_coin(outputs_of(utxos@))
            &&& consolidated_output(outputs_of(utxos@), fee, to.bytes@, pair.0)
            &&& pair.1@.len() == utxos@.len()
            &&& forall|x: int|
                0 <= x < utxos@.len() ==> (#[trigger] pair.1@[x]).transaction_id.bytes@
                    == utxos@[x].input.transaction_id.bytes@ && pair.1@[x].index
                    == utxos@[x].input.index
        },
        r matches Err(e) ==> match e {
            GroupUtxoError::Overflow => !sum_fits(outputs_of(utxos@)),
            GroupUtxoError::InsufficientFunds { fee: f, available } => {
                &&& f == fee
                &&& sum_fits(outputs_of(utxos@))
                &&& available as int == total_coin(outputs_of(utxos@))
                &&& fee > available
            },
        },
{
    let ghost outs = outputs_of(utxos@);
    let mut coin: u64 = 0;
    let mut acc: Vec<PolicyAssets> = Vec::new();
    let mut inputs: Vec<TransactionInput> = Vec::new();
    let mut i: usize = 0;
    proof {
        assert(outs.take(0) =~= Seq::<TransactionOutput>::empty());
        assert(outs.len() == utxos@.len());
    }
    while i < utxos.len()
        invariant
            i <= utxos@.len(),
            outs == outputs_of(utxos@),
            outs.len() == utxos@.len(),
            forall|x: int|
                0 <= x < utxos@.len() ==> bounded_value(out_value((#[trigger] utxos@[x]).output)),
            acc_wf(acc@),
            coin as int == total_coin(outs.take(i as int)),
            forall|p: Seq<u8>, a: Seq<u8>| #[trigger] amt_in_policies(acc@, p, a) == total_amt(
                outs.take(i as int),
                p,
                a,
            ),
            inputs@.len() == i,
            forall|x: int|
                0 <= x < i ==> (#[trigger] inputs@[x]).transaction_id.bytes@
                    == utxos@[x].input.transaction_id.bytes@ && inputs@[x].index
                    == utxos@[x].input.index,
        decreases utxos@.len() - i,
    {
        let u = &utxos[i];
        let v = u.output.value();
        proof {
            assert(outs[i as int] == utxos@[i as int].output);
            assert(*v == out_value(outs[i as int]));
        }
        let ghost acc_before = acc@;
        match add_value(coin, &mut acc, v) {
            Some(c2) => {
                proof {
                    lemma_total_coin_take_step(outs, i as int);
                    assert forall|p: Seq<u8>, a: Seq<u8>| #[trigger] amt_in_policies(acc@, p, a)
                        == total_amt(outs.take(i + 1), p, a) by {
                        lemma_total_amt_take_step(outs, i as int, p, a);
                        assert(amt_in_policies(acc_before, p, a) == total_amt(
                            outs.take(i as int),
                            p,
                            a,
                        ));
                    }
                }
                coin = c2;
            },
            None => {
                proof {
                    lemma_total_coin_take_step(outs, i as int);
                    lemma_total_coin_take_bound(outs, i as int + 1);
                    if coin + value_coin(out_value(outs[i as int])) > u64::MAX {
                        assert(total_coin(outs) > u64::MAX);
                    } else {
                        let (p, a) = choose|p: Seq<u8>, a: Seq<u8>|
                            #[trigger] amt_in_policies(acc_before, p, a) + value_amt(*v, p, a)
                                > u64::MAX;
                        lemma_total_amt_take_step(outs, i as int, p, a);
                        lemma_total_amt_take_bound(outs, i as int + 1, p, a);
                        assert(amt_in_policies(acc_before, p, a) == total_amt(
                            outs.take(i as int),
                            p,
                            a,
                        ));
                        assert(total_amt(outs, p, a) > u64::MAX);
                    }
                }
                return Err(GroupUtxoError::Overflow);
            },
        }
        let id_bytes = copy_bytes(&u.input.transaction_id.bytes);
        inputs.push(TransactionInput { transaction_id: Hash { bytes: id_bytes }, index: u.input.index });
        i = i + 1;
    }
    proof {
        assert(outs.take(outs.len() as int) =~= outs);
        assert forall|p: Seq<u8>, a: Seq<u8>| #[trigger] total_amt(outs, p, a) <= u64::MAX by {
            lemma_amt_policies_bounded(acc@, p, a);
            assert(amt_in_policies(acc@, p, a) == total_amt(outs, p, a));
        }
    }
    if fee > coin {
        return Err(GroupUtxoError::InsufficientFunds { fee, available: coin });
    }
    let rem = coin - fee;
    let val = finalize_value(rem, &acc);
    proof {
        assert forall|p: Seq<u8>, a: Seq<u8>| #[trigger] value_amt(val, p, a) == total_amt(
            outs,
            p,
            a,
        ) by {
            assert(value_amt(val, p, a) == amt_in_policies(acc@, p, a));
            assert(amt_in_policies(acc@, p, a) == total_amt(outs, p, a));
        }
    }
    let out = TransactionOutput::PostAlonzo { address: to.to_bytes(), value: val };
    Ok((out, inputs))
}

} // verus!

verus! {

// ---------------------------------------------------------------------------
// Order independence
// ---------------------------------------------------------------------------
pub proof fn lemma_total_coin_fold(s: Seq<TransactionOutput>)
    ensures
        total_coin(s) == s.fold_left(
            0int,
            |acc: int, o: TransactionOutput| acc + value_coin(out_value(o)),
        ),
    decreases s.len(),
{
    if s.len() > 0 {
        lemma_total_coin_fold(s.drop_last());
    }
}

pub proof fn lemma_total_amt_fold(s: Seq<TransactionOutput>, p: Seq<u8>, a: Seq<u8>)
    ensures
        total_amt(s, p, a) == s.fold_left(
            0int,
            |acc: int, o: TransactionOutput| acc + value_amt(out_value(o), p, a),
        ),
    decreases s.len(),
{
    if s.len() > 0 {
        lemma_total_amt_fold(s.drop_last(), p, a);
    }
}

/// Summation is commutative: the totals of a list of outputs do not
/// depend on the order of the list.
pub proof fn lemma_totals_permutation(s1: Seq<TransactionOutput>, s2: Seq<TransactionOutput>)
    requires
        s1.to_multiset() == s2.to_multiset(),
    ensures
        total_coin(s1) == total_coin(s2),
        forall|p: Seq<u8>, a: Seq<u8>| #[trigger] total_amt(s1, p, a) == total_amt(s2, p, a),
{
    let cf = |acc: int, o: TransactionOutput| acc + value_coin(out_value(o));
    assert(vstd::seq_lib::commutative_foldl(cf));
    lemma_total_coin_fold(s1);
    lemma_total_coin_fold(s2);
    vstd::seq_lib::lemma_fold_left_permutation(s1, s2, cf, 0int);
    assert forall|p: Seq<u8>, a: Seq<u8>| #[trigger] total_amt(s1, p, a) == total_amt(
        s2,
        p,
        a,
    ) by {
        let af = |acc: int, o: TransactionOutput| acc + value_amt(out_value(o), p, a);
        assert(vstd::seq_lib::commutative_foldl(af));
        lemma_total_amt_fold(s1, p, a);
        lemma_total_amt_fold(s2, p, a);
        vstd::seq_lib::lemma_fold_left_permutation(s1, s2, af, 0int);
    }
}

/// Aggregation is order-independent: aggregates of two output lists that
/// are permutations of each other hold the same quantities, and being
/// canonical they have the same contents.
pub proof fn lemma_aggregate_order_independent(
    s1: Seq<TransactionOutput>,
    s2: Seq<TransactionOutput>,
    v1: Value,
    v2: Value,
)
    requires
        s1.to_multiset() == s2.to_multiset(),
        is_aggregate(s1, v1),
        is_aggregate(s2, v2),
    ensures
        crate::value::value_model(v1) == crate::value::value_model(v2),
{
    lemma_totals_permutation(s1, s2);
    assert forall|p: Seq<u8>, a: Seq<u8>| #[trigger] value_amt(v1, p, a) == value_amt(
        v2,
        p,
        a,
    ) by {
        assert(value_amt(v1, p, a) == total_amt(s1, p, a));
        assert(value_amt(v2, p, a) == total_amt(s2, p, a));
        assert(total_amt(s1, p, a) == total_amt(s2, p, a));
    }
    crate::value::lemma_canonical_value_determined(v1, v2);
}

} // verus!

verus! {

/// Aggregating an empty output list yields a plain zero coin: any
/// aggregate of no outputs has the contents of `Coin(0)`.
pub proof fn lemma_empty_aggregate(v: Value)
    requires
        is_aggregate(Seq::<TransactionOutput>::empty(), v),
    ensures
        crate::value::value_model(v) == crate::value::value_model(Value::Coin(0)),
{
    assert(total_coin(Seq::<TransactionOutput>::empty()) == 0);
    assert forall|p: Seq<u8>, a: Seq<u8>| #[trigger] value_amt(v, p, a) == value_amt(
        Value::Coin(0),
        p,
        a,
    ) by {
        assert(value_amt(v, p, a) == total_amt(Seq::<TransactionOutput>::empty(), p, a));
    }
    crate::value::lemma_canonical_value_determined(v, Value::Coin(0));
}

} // verus!

verus! {

/// An asset whose aggregated amount is exactly zero is absent from the
/// aggregate's mapping: no entry of the result carries its key.
pub proof fn lemma_aggregate_prunes_asset(
    s: Seq<TransactionOutput>,
    v: Value,
    p: Seq<u8>,
    a: Seq<u8>,
)
    requires
        is_aggregate(s, v),
        total_amt(s, p, a) == 0,
    ensures
        match v {
            Value::Coin(_) => true,
            Value::Multiasset(_, ma) => forall|i: int, j: int|
                0 <= i < ma@.len() && 0 <= j < (#[trigger] ma@[i]).assets@.len() ==> !(
                ma@[i].policy.bytes@ == p && (#[trigger] ma@[i].assets@[j]).name.bytes@ == a),
        },
{
    match v {
        Value::Coin(_) => {
        },
        Value::Multiasset(_, ma) => {
            assert forall|i: int, j: int|
                0 <= i < ma@.len() && 0 <= j < (#[trigger] ma@[i]).assets@.len() implies !(
            ma@[i].policy.bytes@ == p && (#[trigger] ma@[i].assets@[j]).name.bytes@ == a) by {
                if ma@[i].policy.bytes@ == p && ma@[i].assets@[j].name.bytes@ == a {
                    crate::value::lemma_amt_policies_present(ma@, i, a);
                    crate::value::lemma_amt_assets_present(ma@[i].assets@, j);
                    assert(value_amt(v, p, a) == ma@[i].assets@[j].amount);
                    assert(ma@[i].assets@[j].amount > 0);
                    assert(value_amt(v, p, a) == total_amt(s, p, a));
                    assert(false);
                }
            }
        },
    }
}

/// A policy all of whose aggregated amounts are zero is itself absent
/// from the aggregate's mapping.
pub proof fn lemma_aggregate_prunes_policy(s: Seq<TransactionOutput>, v: Value, p: Seq<u8>)
    requires
        is_aggregate(s, v),
        forall|a: Seq<u8>| #[trigger] total_amt(s, p, a) == 0,
    ensures
        match v {
            Value::Coin(_) => true,
            Value::Multiasset(_, ma) => forall|i: int|
                0 <= i < ma@.len() ==> (#[trigger] ma@[i]).policy.bytes@ != p,
        },
{
    match v {
        Value::Coin(_) => {
        },
        Value::Multiasset(_, ma) => {
            assert forall|i: int| 0 <= i < ma@.len() implies (#[trigger] ma@[i]).policy.bytes@
                != p by {
                if ma@[i].policy.bytes@ == p {
                    let a0 = ma@[i].assets@[0].name.bytes@;
                    crate::value::lemma_amt_policies_present(ma@, i, a0);
                    crate::value::lemma_amt_assets_present(ma@[i].assets@, 0);
                    assert(value_amt(v, p, a0) == ma@[i].assets@[0].amount);
                    assert(ma@[i].assets@[0].amount > 0);
                    assert(value_amt(v, p, a0) == total_amt(s, p, a0));
                    assert(false);
                }
            }
        },
    }
}

} // verus!
