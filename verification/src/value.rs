//! The multi-asset monetary value model.
//!
//! A [`Value`] is either a plain coin amount or a coin amount together with
//! a mapping from policy identifiers to asset names to strictly positive
//! amounts.  The canonical representation keeps both mapping levels sorted
//! by byte-wise lexicographic order with no duplicate keys, so that a value
//! is determined by the quantities it holds (see
//! [`lemma_canonical_value_determined`]).

use vstd::prelude::*;

verus! {

/// A 28-byte identifier of the minting policy of a custom asset.
#[derive(Debug, Clone, PartialEq, Eq, Hash)]
pub struct PolicyId {
    pub bytes: Vec<u8>,
}

/// An opaque asset name of at most 32 bytes.
#[derive(Debug, Clone, PartialEq, Eq, Hash)]
pub struct AssetName {
    pub bytes: Vec<u8>,
}

/// One asset entry: a name and its amount.
#[derive(Debug, Clone, PartialEq, Eq, Hash)]
pub struct AssetEntry {
    pub name: AssetName,
    pub amount: u64,
}

/// All assets under one policy.
#[derive(Debug, Clone, PartialEq, Eq, Hash)]
pub struct PolicyAssets {
    pub policy: PolicyId,
    pub assets: Vec<AssetEntry>,
}

/// A monetary value: a base coin quantity, possibly with custom assets.
#[derive(Debug, Clone, PartialEq, Eq, Hash)]
pub enum Value {
    Coin(u64),
    Multiasset(u64, Vec<PolicyAssets>),
}

// ---------------------------------------------------------------------------
// Lexicographic order on byte strings
// ---------------------------------------------------------------------------
/// Byte-wise lexicographic order on byte strings.
pub open spec fn lex_lt(a: Seq<u8>, b: Seq<u8>) -> bool
    decreases b.len(),
{
    if b.len() == 0 {
        false
    } else if a.len() == 0 {
        true
    } else if a[0] < b[0] {
        true
    } else if a[0] > b[0] {
        false
    } else {
        lex_lt(a.drop_first(), b.drop_first())
    }
}

pub proof fn lemma_lex_irrefl(a: Seq<u8>)
    ensures
        !lex_lt(a, a),
    decreases a.len(),
{
    if a.len() > 0 {
        lemma_lex_irrefl(a.drop_first());
    }
}

/// Two byte strings neither of which precedes the other are equal.
pub proof fn lemma_lex_connected(a: Seq<u8>, b: Seq<u8>)
    requires
        !lex_lt(a, b),
        !lex_lt(b, a),
    ensures
        a == b,
    decreases a.len(),
{
    if b.len() == 0 {
        assert(a.len() == 0);
        assert(a =~= b);
    } else {
        assert(a.len() > 0);
        assert(a[0] == b[0]);
        lemma_lex_connected(a.drop_first(), b.drop_first());
        assert(a.len() == b.len());
        assert forall|i: int| 0 <= i < a.len() implies a[i] == b[i] by {
            if i > 0 {
                assert(a[i] == a.drop_first()[i - 1]);
                assert(b[i] == b.drop_first()[i - 1]);
            }
        }
        assert(a =~= b);
    }
}

pub proof fn lemma_lex_trans(a: Seq<u8>, b: Seq<u8>, c: Seq<u8>)
    requires
        lex_lt(a, b),
        lex_lt(b, c),
    ensures
        lex_lt(a, c),
    decreases c.len(),
{
    if a.len() > 0 {
        assert(b.len() > 0 && c.len() > 0);
        if a[0] == b[0] && b[0] == c[0] {
            lemma_lex_trans(a.drop_first(), b.drop_first(), c.drop_first());
        }
    }
}

/// Dropping an equal prefix does not change the order.
pub proof fn lemma_lex_skip(a: Seq<u8>, b: Seq<u8>, i: int)
    requires
        0 <= i <= a.len(),
        i <= b.len(),
        forall|k: int| 0 <= k < i ==> a[k] == b[k],
    ensures
        lex_lt(a, b) == lex_lt(a.skip(i), b.skip(i)),
    decreases i,
{
    if i == 0 {
        assert(a.skip(0) =~= a);
        assert(b.skip(0) =~= b);
    } else {
        assert(a[0] == b[0]);
        lemma_lex_skip(a.drop_first(), b.drop_first(), i - 1);
        assert(a.drop_first().skip(i - 1) =~= a.skip(i));
        assert(b.drop_first().skip(i - 1) =~= b.skip(i));
    }
}

/// Three-way comparison of two byte strings in lexicographic order:
/// `-1`, `0` or `1` as `a` precedes, equals or follows `b`.
pub fn lex_cmp(a: &Vec<u8>, b: &Vec<u8>) -> (r: i8)
    ensures
        r == -1 || r == 0 || r == 1,
        (r == -1) <==> lex_lt(a@, b@),
        (r == 0) <==> (a@ == b@),
        (r == 1) <==> lex_lt(b@, a@),
{
    let n = if a.len() < b.len() {
        a.len()
    } else {
        b.len()
    };
    let mut i: usize = 0;
    while i < n
        invariant
            0 <= i <= n,
            n <= a@.len(),
            n <= b@.len(),
            n == if a@.len() < b@.len() {
                a@.len() as int
            } else {
                b@.len() as int
            },
            forall|k: int| 0 <= k < i ==> a@[k] == b@[k],
        decreases n - i,
    {
        let x = a[i];
        let y = b[i];
        if x < y {
            proof {
                lemma_lex_skip(a@, b@, i as int);
                lemma_lex_skip(b@, a@, i as int);
                assert(a@.skip(i as int)[0] == x);
                assert(b@.skip(i as int)[0] == y);
                assert(a@[i as int] != b@[i as int]);
                assert(a@ != b@);
            }
            return -1;
        }
        if x > y {
            proof {
                lemma_lex_skip(a@, b@, i as int);
                lemma_lex_skip(b@, a@, i as int);
                assert(a@.skip(i as int)[0] == x);
                assert(b@.skip(i as int)[0] == y);
                assert(a@[i as int] != b@[i as int]);
                assert(a@ != b@);
            }
            return 1;
        }
        i = i + 1;
    }
    proof {
        lemma_lex_skip(a@, b@, n as int);
        lemma_lex_skip(b@, a@, n as int);
    }
    if a.len() == b.len() {
        proof {
            assert(a@ =~= b@);
            lemma_lex_irrefl(a@);
        }
        0
    } else if a.len() < b.len() {
        proof {
            assert(a@.skip(n as int).len() == 0);
            assert(b@.skip(n as int).len() > 0);
            assert(a@.len() != b@.len());
            assert(a@ != b@);
        }
        -1
    } else {
        proof {
            assert(b@.skip(n as int).len() == 0);
            assert(a@.skip(n as int).len() > 0);
            assert(a@.len() != b@.len());
            assert(a@ != b@);
        }
        1
    }
}

/// Copy a byte vector element by element.
pub fn copy_bytes(v: &Vec<u8>) -> (r: Vec<u8>)
    ensures
        r@ == v@,
{
    let mut r: Vec<u8> = Vec::new();
    let mut i: usize = 0;
    while i < v.len()
        invariant
            0 <= i <= v@.len(),
            r@ == v@.take(i as int),
        decreases v@.len() - i,
    {
        r.push(v[i]);
        proof {
            assert(v@.take(i + 1) =~= v@.take(i as int).push(v@[i as int]));
        }
        i = i + 1;
    }
    proof {
        assert(v@.take(v@.len() as int) =~= v@);
    }
    r
}

// ---------------------------------------------------------------------------
// Quantities held by a value
// ---------------------------------------------------------------------------
/// Total amount held under asset name `a` in an asset list, summing
/// duplicate names so the quantity is well defined on arbitrary input.
pub open spec fn amt_in_assets(s: Seq<AssetEntry>, a: Seq<u8>) -> int
    decreases s.len(),
{
    if s.len() == 0 {
        0
    } else {
        amt_in_assets(s.drop_last(), a) + if s.last().name.bytes@ == a {
            s.last().amount as int
        } else {
            0
        }
    }
}

/// Total amount held under `(p, a)` in a policy list.
pub open spec fn amt_in_policies(s: Seq<PolicyAssets>, p: Seq<u8>, a: Seq<u8>) -> int
    decreases s.len(),
{
    if s.len() == 0 {
        0
    } else {
        amt_in_policies(s.drop_last(), p, a) + if s.last().policy.bytes@ == p {
            amt_in_assets(s.last().assets@, a)
        } else {
            0
        }
    }
}

/// The base coin quantity of a value.
pub open spec fn value_coin(v: Value) -> u64 {
    match v {
        Value::Coin(c) => c,
        Value::Multiasset(c, _) => c,
    }
}

/// The amount a value holds under `(p, a)`; zero for a plain coin.
pub open spec fn value_amt(v: Value, p: Seq<u8>, a: Seq<u8>) -> int {
    match v {
        Value::Coin(_) => 0,
        Value::Multiasset(_, ma) => amt_in_policies(ma@, p, a),
    }
}

// ---------------------------------------------------------------------------
// Well-formedness
// ---------------------------------------------------------------------------
/// Asset names are at most 32 bytes.
pub open spec fn assets_bounded(s: Seq<AssetEntry>) -> bool {
    forall|i: int| 0 <= i < s.len() ==> (#[trigger] s[i]).name.bytes@.len() <= 32
}

/// Asset names strictly ascend, so no name repeats.
pub open spec fn assets_sorted(s: Seq<AssetEntry>) -> bool {
    forall|i: int, j: int|
        0 <= i < j < s.len() ==> lex_lt((#[trigger] s[i]).name.bytes@, (#[trigger] s[j]).name.bytes@)
}

/// All amounts are strictly positive.
pub open spec fn assets_positive(s: Seq<AssetEntry>) -> bool {
    forall|i: int| 0 <= i < s.len() ==> (#[trigger] s[i]).amount > 0
}

/// Policy identifiers strictly ascend, so no policy repeats.
pub open spec fn policies_sorted(s: Seq<PolicyAssets>) -> bool {
    forall|i: int, j: int|
        0 <= i < j < s.len() ==> lex_lt(
            (#[trigger] s[i]).policy.bytes@,
            (#[trigger] s[j]).policy.bytes@,
        )
}

/// Every policy entry is structurally sound: a 28-byte policy identifier
/// holding a non-empty, sorted, bounded asset list.
pub open spec fn policies_entry_ok(s: Seq<PolicyAssets>) -> bool {
    forall|i: int|
        0 <= i < s.len() ==> {
            &&& (#[trigger] s[i]).policy.bytes@.len() == 28
            &&& s[i].assets@.len() > 0
            &&& assets_sorted(s[i].assets@)
            &&& assets_bounded(s[i].assets@)
        }
}

/// The shape maintained by the aggregation accumulator: both levels sorted
/// and bounded, but amounts may still be zero.
pub open spec fn acc_wf(s: Seq<PolicyAssets>) -> bool {
    policies_sorted(s) && policies_entry_ok(s)
}

/// All amounts under all policies are strictly positive.
pub open spec fn policies_positive(s: Seq<PolicyAssets>) -> bool {
    forall|i: int| 0 <= i < s.len() ==> assets_positive((#[trigger] s[i]).assets@)
}

/// Canonical well-formed value: a multi-asset variant is non-empty, both
/// levels are sorted and bounded, and every amount is strictly positive.
pub open spec fn wf_value(v: Value) -> bool {
    match v {
        Value::Coin(_) => true,
        Value::Multiasset(_, ma) => ma@.len() > 0 && acc_wf(ma@) && policies_positive(ma@),
    }
}

/// Structural bounds the aggregator needs of its inputs: identifier
/// lengths are respected.  Amounts may be zero and keys may repeat.
pub open spec fn bounded_ma(s: Seq<PolicyAssets>) -> bool {
    &&& forall|i: int| 0 <= i < s.len() ==> (#[trigger] s[i]).policy.bytes@.len() == 28
    &&& forall|i: int| 0 <= i < s.len() ==> assets_bounded((#[trigger] s[i]).assets@)
}

pub open spec fn bounded_value(v: Value) -> bool {
    match v {
        Value::Coin(_) => true,
        Value::Multiasset(_, ma) => bounded_ma(ma@),
    }
}

impl Value {
    /// The base coin quantity.
    pub fn coin(&self) -> (r: u64)
        ensures
            r == value_coin(*self),
    {
        match self {
            Value::Coin(c) => *c,
            Value::Multiasset(c, _) => *c,
        }
    }
}

// ---------------------------------------------------------------------------
// How the quantities change under list edits
// ---------------------------------------------------------------------------
pub proof fn lemma_amt_assets_nonneg(s: Seq<AssetEntry>, a: Seq<u8>)
    ensures
        amt_in_assets(s, a) >= 0,
    decreases s.len(),
{
    if s.len() > 0 {
        lemma_amt_assets_nonneg(s.drop_last(), a);
    }
}

pub proof fn lemma_amt_policies_nonneg(s: Seq<PolicyAssets>, p: Seq<u8>, a: Seq<u8>)
    ensures
        amt_in_policies(s, p, a) >= 0,
    decreases s.len(),
{
    if s.len() > 0 {
        lemma_amt_policies_nonneg(s.drop_last(), p, a);
        lemma_amt_assets_nonneg(s.last().assets@, a);
    }
}

pub proof fn lemma_amt_assets_insert(s: Seq<AssetEntry>, k: int, x: AssetEntry, a: Seq<u8>)
    requires
        0 <= k <= s.len(),
    ensures
        amt_in_assets(s.insert(k, x), a) == amt_in_assets(s, a) + if x.name.bytes@ == a {
            x.amount as int
        } else {
            0
        },
    decreases s.len(),
{
    let t = s.insert(k, x);
    if k == s.len() {
        assert(t.drop_last() =~= s);
        assert(t.last() == x);
    } else {
        assert(t.drop_last() =~= s.drop_last().insert(k, x));
        assert(t.last() == s.last());
        lemma_amt_assets_insert(s.drop_last(), k, x, a);
    }
}

pub proof fn lemma_amt_assets_update(s: Seq<AssetEntry>, k: int, x: AssetEntry, a: Seq<u8>)
    requires
        0 <= k < s.len(),
        x.name.bytes@ == s[k].name.bytes@,
    ensures
        amt_in_assets(s.update(k, x), a) == amt_in_assets(s, a) + if s[k].name.bytes@ == a {
            x.amount - s[k].amount
        } else {
            0
        },
    decreases s.len(),
{
    let t = s.update(k, x);
    if k == s.len() - 1 {
        assert(t.drop_last() =~= s.drop_last());
        assert(t.last() == x);
    } else {
        assert(t.drop_last() =~= s.drop_last().update(k, x));
        assert(t.last() == s.last());
        lemma_amt_assets_update(s.drop_last(), k, x, a);
    }
}

pub proof fn lemma_amt_policies_insert(s: Seq<PolicyAssets>, k: int, x: PolicyAssets, p: Seq<u8>, a: Seq<u8>)
    requires
        0 <= k <= s.len(),
    ensures
        amt_in_policies(s.insert(k, x), p, a) == amt_in_policies(s, p, a) + if x.policy.bytes@
            == p {
            amt_in_assets(x.assets@, a)
        } else {
            0
        },
    decreases s.len(),
{
    let t = s.insert(k, x);
    if k == s.len() {
        assert(t.drop_last() =~= s);
        assert(t.last() == x);
    } else {
        assert(t.drop_last() =~= s.drop_last().insert(k, x));
        assert(t.last() == s.last());
        lemma_amt_policies_insert(s.drop_last(), k, x, p, a);
    }
}

pub proof fn lemma_amt_policies_update(s: Seq<PolicyAssets>, k: int, x: PolicyAssets, p: Seq<u8>, a: Seq<u8>)
    requires
        0 <= k < s.len(),
        x.policy.bytes@ == s[k].policy.bytes@,
    ensures
        amt_in_policies(s.update(k, x), p, a) == amt_in_policies(s, p, a) + if s[k].policy.bytes@
            == p {
            amt_in_assets(x.assets@, a) - amt_in_assets(s[k].assets@, a)
        } else {
            0
        },
    decreases s.len(),
{
    let t = s.update(k, x);
    if k == s.len() - 1 {
        assert(t.drop_last() =~= s.drop_last());
        assert(t.last() == x);
    } else {
        assert(t.drop_last() =~= s.drop_last().update(k, x));
        assert(t.last() == s.last());
        lemma_amt_policies_update(s.drop_last(), k, x, p, a);
    }
}

pub proof fn lemma_amt_assets_take_step(s: Seq<AssetEntry>, j: int, a: Seq<u8>)
    requires
        0 <= j < s.len(),
    ensures
        amt_in_assets(s.take(j + 1), a) == amt_in_assets(s.take(j), a) + if s[j].name.bytes@
            == a {
            s[j].amount as int
        } else {
            0
        },
{
    assert(s.take(j + 1).drop_last() =~= s.take(j));
    assert(s.take(j + 1).last() == s[j]);
}

pub proof fn lemma_amt_policies_take_step(s: Seq<PolicyAssets>, j: int, p: Seq<u8>, a: Seq<u8>)
    requires
        0 <= j < s.len(),
    ensures
        amt_in_policies(s.take(j + 1), p, a) == amt_in_policies(s.take(j), p, a) + if s[j].policy.bytes@
            == p {
            amt_in_assets(s[j].assets@, a)
        } else {
            0
        },
{
    assert(s.take(j + 1).drop_last() =~= s.take(j));
    assert(s.take(j + 1).last() == s[j]);
}

/// A prefix of an asset list holds at most the full list's amount.
pub proof fn lemma_amt_assets_take_bound(s: Seq<AssetEntry>, j: int, a: Seq<u8>)
    requires
        0 <= j <= s.len(),
    ensures
        amt_in_assets(s, a) >= amt_in_assets(s.take(j), a),
    decreases s.len() - j,
{
    if j == s.len() {
        assert(s.take(j) =~= s);
    } else {
        lemma_amt_assets_take_step(s, j, a);
        lemma_amt_assets_take_bound(s, j + 1, a);
    }
}

/// A prefix of a policy list holds at most the full list's amount.
pub proof fn lemma_amt_policies_take_bound(s: Seq<PolicyAssets>, j: int, p: Seq<u8>, a: Seq<u8>)
    requires
        0 <= j <= s.len(),
    ensures
        amt_in_policies(s, p, a) >= amt_in_policies(s.take(j), p, a),
    decreases s.len() - j,
{
    if j == s.len() {
        assert(s.take(j) =~= s);
    } else {
        lemma_amt_policies_take_step(s, j, p, a);
        lemma_amt_assets_nonneg(s[j].assets@, a);
        lemma_amt_policies_take_bound(s, j + 1, p, a);
    }
}

} // verus!

verus! {

// ---------------------------------------------------------------------------
// Sorted insertion
// ---------------------------------------------------------------------------
pub proof fn lemma_assets_sorted_insert(s: Seq<AssetEntry>, k: int, x: AssetEntry)
    requires
        0 <= k <= s.len(),
        assets_sorted(s),
        forall|i: int| 0 <= i < k ==> lex_lt((#[trigger] s[i]).name.bytes@, x.name.bytes@),
        forall|i: int| k <= i < s.len() ==> lex_lt(x.name.bytes@, (#[trigger] s[i]).name.bytes@),
    ensures
        assets_sorted(s.insert(k, x)),
{
    let t = s.insert(k, x);
    assert forall|i: int, j: int| 0 <= i < j < t.len() implies lex_lt(
        (#[trigger] t[i]).name.bytes@,
        (#[trigger] t[j]).name.bytes@,
    ) by {
        if i < k {
            assert(t[i] == s[i]);
        } else if i == k {
            assert(t[i] == x);
        } else {
            assert(t[i] == s[i - 1]);
        }
        if j < k {
            assert(t[j] == s[j]);
        } else if j == k {
            assert(t[j] == x);
        } else {
            assert(t[j] == s[j - 1]);
        }
    }
}

pub proof fn lemma_policies_sorted_insert(s: Seq<PolicyAssets>, k: int, x: PolicyAssets)
    requires
        0 <= k <= s.len(),
        policies_sorted(s),
        forall|i: int| 0 <= i < k ==> lex_lt((#[trigger] s[i]).policy.bytes@, x.policy.bytes@),
        forall|i: int| k <= i < s.len() ==> lex_lt(x.policy.bytes@, (#[trigger] s[i]).policy.bytes@),
    ensures
        policies_sorted(s.insert(k, x)),
{
    let t = s.insert(k, x);
    assert forall|i: int, j: int| 0 <= i < j < t.len() implies lex_lt(
        (#[trigger] t[i]).policy.bytes@,
        (#[trigger] t[j]).policy.bytes@,
    ) by {
        if i < k {
            assert(t[i] == s[i]);
        } else if i == k {
            assert(t[i] == x);
        } else {
            assert(t[i] == s[i - 1]);
        }
        if j < k {
            assert(t[j] == s[j]);
        } else if j == k {
            assert(t[j] == x);
        } else {
            assert(t[j] == s[j - 1]);
        }
    }
}

// ---------------------------------------------------------------------------
// Accumulator operations
// ---------------------------------------------------------------------------
/// Locate `policy` in a sorted policy list: the index where it sits, or
/// where it has to be inserted to keep the list sorted.
fn find_policy(acc: &Vec<PolicyAssets>, policy: &PolicyId) -> (r: (usize, bool))
    requires
        policies_sorted(acc@),
    ensures
        r.0 <= acc@.len(),
        r.1 ==> r.0 < acc@.len() && acc@[r.0 as int].policy.bytes@ == policy.bytes@,
        forall|k: int| 0 <= k < r.0 ==> lex_lt((#[trigger] acc@[k]).policy.bytes@, policy.bytes@),
        !r.1 ==> forall|k: int|
            r.0 <= k < acc@.len() ==> lex_lt(policy.bytes@, (#[trigger] acc@[k]).policy.bytes@),
{
    let mut i: usize = 0;
    while i < acc.len()
        invariant
            i <= acc@.len(),
            policies_sorted(acc@),
            forall|k: int| 0 <= k < i ==> lex_lt((#[trigger] acc@[k]).policy.bytes@, policy.bytes@),
        decreases acc@.len() - i,
    {
        let c = lex_cmp(&acc[i].policy.bytes, &policy.bytes);
        if c == 0 {
            return (i, true);
        }
        if c == 1 {
            proof {
                assert forall|k: int| i <= k < acc@.len() implies lex_lt(
                    policy.bytes@,
                    (#[trigger] acc@[k]).policy.bytes@,
                ) by {
                    if k > i {
                        lemma_lex_trans(
                            policy.bytes@,
                            acc@[i as int].policy.bytes@,
                            acc@[k].policy.bytes@,
                        );
                    }
                }
            }
            return (i, false);
        }
        i = i + 1;
    }
    (i, false)
}

/// Locate `name` in a sorted asset list: the index where it sits, or
/// where it has to be inserted to keep the list sorted.
fn find_asset(assets: &Vec<AssetEntry>, name: &AssetName) -> (r: (usize, bool))
    requires
        assets_sorted(assets@),
    ensures
        r.0 <= assets@.len(),
        r.1 ==> r.0 < assets@.len() && assets@[r.0 as int].name.bytes@ == name.bytes@,
        forall|k: int| 0 <= k < r.0 ==> lex_lt((#[trigger] assets@[k]).name.bytes@, name.bytes@),
        !r.1 ==> forall|k: int|
            r.0 <= k < assets@.len() ==> lex_lt(name.bytes@, (#[trigger] assets@[k]).name.bytes@),
{
    let mut i: usize = 0;
    while i < assets.len()
        invariant
            i <= assets@.len(),
            assets_sorted(assets@),
            forall|k: int| 0 <= k < i ==> lex_lt((#[trigger] assets@[k]).name.bytes@, name.bytes@),
        decreases assets@.len() - i,
    {
        let c = lex_cmp(&assets[i].name.bytes, &name.bytes);
        if c == 0 {
            return (i, true);
        }
        if c == 1 {
            proof {
                assert forall|k: int| i <= k < assets@.len() implies lex_lt(
                    name.bytes@,
                    (#[trigger] assets@[k]).name.bytes@,
                ) by {
                    if k > i {
                        lemma_lex_trans(
                            name.bytes@,
                            assets@[i as int].name.bytes@,
                            assets@[k].name.bytes@,
                        );
                    }
                }
            }
            return (i, false);
        }
        i = i + 1;
    }
    (i, false)
}

} // verus!

verus! {

/// Add `amount` of asset `(policy, name)` into the aggregation
/// accumulator, keeping both levels sorted.  Returns `false` and leaves
/// the accumulator unchanged if the running total for that asset would
/// exceed the largest representable amount.
pub fn add_asset(
    acc: &mut Vec<PolicyAssets>,
    policy: &PolicyId,
    name: &AssetName,
    amount: u64,
) -> (ok: bool)
    requires
        acc_wf(old(acc)@),
        policy.bytes@.len() == 28,
        name.bytes@.len() <= 32,
    ensures
        acc_wf(final(acc)@),
        ok ==> forall|p: Seq<u8>, a: Seq<u8>|
            #[trigger] amt_in_policies(final(acc)@, p, a) == amt_in_policies(old(acc)@, p, a)
                + if p == policy.bytes@ && a == name.bytes@ {
                amount as int
            } else {
                0
            },
        !ok ==> final(acc)@ == old(acc)@ && amt_in_policies(
            old(acc)@,
            policy.bytes@,
            name.bytes@,
        ) + amount > u64::MAX,
{
    let ghost acc0 = acc@;
    let (i, found) = find_policy(acc, policy);
    if found {
        let ghost assets0 = acc@[i as int].assets@;
        let (j, afound) = find_asset(&acc[i].assets, name);
        if afound {
            let old_amt = acc[i].assets[j].amount;
            match old_amt.checked_add(amount) {
                Some(bumped) => {
                    let mut pa = acc.remove(i);
                    let e = pa.assets.remove(j);
                    let updated = AssetEntry { name: e.name, amount: bumped };
                    pa.assets.insert(j, updated);
                    proof {
                        assert(pa.assets@ =~= assets0.update(
                            j as int,
                            AssetEntry { name: assets0[j as int].name, amount: bumped },
                        ));
                    }
                    let ghost pa_snap = pa;
                    acc.insert(i, pa);
                    proof {
                        assert(acc@ =~= acc0.update(i as int, pa_snap));
                        assert forall|p: Seq<u8>, a: Seq<u8>|
                            #[trigger] amt_in_policies(acc@, p, a) == amt_in_policies(acc0, p, a)
                                + if p == policy.bytes@ && a == name.bytes@ {
                                amount as int
                            } else {
                                0
                            } by {
                            lemma_amt_assets_update(
                                assets0,
                                j as int,
                                AssetEntry { name: assets0[j as int].name, amount: bumped },
                                a,
                            );
                            lemma_amt_policies_update(acc0, i as int, pa_snap, p, a);
                        }
                        assert forall|x: int, y: int| 0 <= x < y < acc@.len() implies lex_lt(
                            (#[trigger] acc@[x]).policy.bytes@,
                            (#[trigger] acc@[y]).policy.bytes@,
                        ) by {
                            assert(acc@[x].policy.bytes@ == acc0[x].policy.bytes@);
                            assert(acc@[y].policy.bytes@ == acc0[y].policy.bytes@);
                        }
                        assert forall|k: int| 0 <= k < acc@.len() implies {
                            &&& (#[trigger] acc@[k]).policy.bytes@.len() == 28
                            &&& acc@[k].assets@.len() > 0
                            &&& assets_sorted(acc@[k].assets@)
                            &&& assets_bounded(acc@[k].assets@)
                        } by {
                            if k == i as int {
                                assert forall|x: int, y: int|
                                    0 <= x < y < acc@[k].assets@.len() implies lex_lt(
                                    (#[trigger] acc@[k].assets@[x]).name.bytes@,
                                    (#[trigger] acc@[k].assets@[y]).name.bytes@,
                                ) by {
                                    assert(acc@[k].assets@[x].name.bytes@
                                        == assets0[x].name.bytes@);
                                    assert(acc@[k].assets@[y].name.bytes@
                                        == assets0[y].name.bytes@);
                                }
                                assert forall|x: int| 0 <= x < acc@[k].assets@.len() implies (
                                #[trigger] acc@[k].assets@[x]).name.bytes@.len() <= 32 by {
                                    assert(acc@[k].assets@[x].name.bytes@
                                        == assets0[x].name.bytes@);
                                }
                            }
                        }
                    }
                    true
                },
                None => {
                    proof {
                        lemma_amt_assets_take_step(assets0, j as int, name.bytes@);
                        lemma_amt_assets_take_bound(assets0, j as int + 1, name.bytes@);
                        lemma_amt_assets_nonneg(assets0.take(j as int), name.bytes@);
                        assert(amt_in_assets(assets0, name.bytes@) >= old_amt);
                        lemma_amt_policies_take_step(acc0, i as int, policy.bytes@, name.bytes@);
                        lemma_amt_policies_take_bound(
                            acc0,
                            i as int + 1,
                            policy.bytes@,
                            name.bytes@,
                        );
                        lemma_amt_policies_nonneg(
                            acc0.take(i as int),
                            policy.bytes@,
                            name.bytes@,
                        );
                        assert(amt_in_policies(acc0, policy.bytes@, name.bytes@) >= old_amt);
                    }
                    false
                },
            }
        } else {
            let entry = AssetEntry {
                name: AssetName { bytes: copy_bytes(&name.bytes) },
                amount,
            };
            let ghost entry_snap = entry;
            let mut pa = acc.remove(i);
            pa.assets.insert(j, entry);
            proof {
                assert(pa.assets@ =~= assets0.insert(j as int, entry_snap));
            }
            let ghost pa_snap = pa;
            acc.insert(i, pa);
            proof {
                assert(acc@ =~= acc0.update(i as int, pa_snap));
                assert forall|p: Seq<u8>, a: Seq<u8>|
                    #[trigger] amt_in_policies(acc@, p, a) == amt_in_policies(acc0, p, a) + if p
                        == policy.bytes@ && a == name.bytes@ {
                        amount as int
                    } else {
                        0
                    } by {
                    lemma_amt_assets_insert(assets0, j as int, entry_snap, a);
                    lemma_amt_policies_update(acc0, i as int, pa_snap, p, a);
                }
                lemma_assets_sorted_insert(assets0, j as int, entry_snap);
                assert forall|x: int, y: int| 0 <= x < y < acc@.len() implies lex_lt(
                    (#[trigger] acc@[x]).policy.bytes@,
                    (#[trigger] acc@[y]).policy.bytes@,
                ) by {
                    assert(acc@[x].policy.bytes@ == acc0[x].policy.bytes@);
                    assert(acc@[y].policy.bytes@ == acc0[y].policy.bytes@);
                }
                assert forall|k: int| 0 <= k < acc@.len() implies {
                    &&& (#[trigger] acc@[k]).policy.bytes@.len() == 28
                    &&& acc@[k].assets@.len() > 0
                    &&& assets_sorted(acc@[k].assets@)
                    &&& assets_bounded(acc@[k].assets@)
                } by {
                    if k == i as int {
                        assert(acc@[k].assets@ == assets0.insert(j as int, entry_snap));
                        assert forall|x: int| 0 <= x < acc@[k].assets@.len() implies (
                        #[trigger] acc@[k].assets@[x]).name.bytes@.len() <= 32 by {
                            if x < j as int {
                                assert(acc@[k].assets@[x] == assets0[x]);
                            } else if x == j as int {
                                assert(acc@[k].assets@[x] == entry_snap);
                            } else {
                                assert(acc@[k].assets@[x] == assets0[x - 1]);
                            }
                        }
                    }
                }
            }
            true
        }
    } else {
        let entry = AssetEntry {
            name: AssetName { bytes: copy_bytes(&name.bytes) },
            amount,
        };
        let ghost entry_snap = entry;
        let mut assets: Vec<AssetEntry> = Vec::new();
        assets.push(entry);
        let pa = PolicyAssets { policy: PolicyId { bytes: copy_bytes(&policy.bytes) }, assets };
        let ghost pa_snap = pa;
        acc.insert(i, pa);
        proof {
            assert(acc@ =~= acc0.insert(i as int, pa_snap));
            assert(pa_snap.assets@.len() == 1);
            assert forall|p: Seq<u8>, a: Seq<u8>|
                #[trigger] amt_in_policies(acc@, p, a) == amt_in_policies(acc0, p, a) + if p
                    == policy.bytes@ && a == name.bytes@ {
                    amount as int
                } else {
                    0
                } by {
                lemma_amt_policies_insert(acc0, i as int, pa_snap, p, a);
                assert(pa_snap.assets@ =~= Seq::<AssetEntry>::empty().push(entry_snap));
                assert(pa_snap.assets@.drop_last() =~= Seq::<AssetEntry>::empty());
                assert(pa_snap.assets@.last() == entry_snap);
                assert(entry_snap.name.bytes@ == name.bytes@);
                assert(amt_in_assets(Seq::<AssetEntry>::empty(), a) == 0);
                assert(amt_in_assets(pa_snap.assets@, a) == if name.bytes@ == a {
                    amount as int
                } else {
                    0
                });
            }
            lemma_policies_sorted_insert(acc0, i as int, pa_snap);
            assert forall|k: int| 0 <= k < acc@.len() implies {
                &&& (#[trigger] acc@[k]).policy.bytes@.len() == 28
                &&& acc@[k].assets@.len() > 0
                &&& assets_sorted(acc@[k].assets@)
                &&& assets_bounded(acc@[k].assets@)
            } by {
                if k < i as int {
                    assert(acc@[k] == acc0[k]);
                } else if k == i as int {
                    assert(acc@[k] == pa_snap);
                } else {
                    assert(acc@[k] == acc0[k - 1]);
                }
            }
        }
        true
    }
}

} // verus!

verus! {

/// Build the canonical value from an accumulated coin and asset totals,
/// pruning every asset whose total is exactly zero and every policy whose
/// asset list becomes empty; with no policies left, the result is a plain
/// coin.
pub fn finalize_value(coin: u64, acc: &Vec<PolicyAssets>) -> (r: Value)
    requires
        acc_wf(acc@),
    ensures
        wf_value(r),
        value_coin(r) == coin,
        forall|p: Seq<u8>, a: Seq<u8>| #[trigger] value_amt(r, p, a) == amt_in_policies(
            acc@,
            p,
            a,
        ),
{
    let mut out: Vec<PolicyAssets> = Vec::new();
    let mut i: usize = 0;
    while i < acc.len()
        invariant
            i <= acc@.len(),
            acc_wf(acc@),
            acc_wf(out@),
            policies_positive(out@),
            forall|k: int, m: int|
                0 <= k < out@.len() && i <= m < acc@.len() ==> lex_lt(
                    (#[trigger] out@[k]).policy.bytes@,
                    (#[trigger] acc@[m]).policy.bytes@,
                ),
            forall|p: Seq<u8>, a: Seq<u8>| #[trigger] amt_in_policies(out@, p, a)
                == amt_in_policies(acc@.take(i as int), p, a),
        decreases acc@.len() - i,
    {
        let ghost out0 = out@;
        let src = &acc[i].assets;
        let mut kept: Vec<AssetEntry> = Vec::new();
        let mut j: usize = 0;
        while j < src.len()
            invariant
                j <= src@.len(),
                src@ == acc@[i as int].assets@,
                i < acc@.len(),
                acc_wf(acc@),
                assets_sorted(kept@),
                assets_bounded(kept@),
                assets_positive(kept@),
                forall|k: int, m: int|
                    0 <= k < kept@.len() && j <= m < src@.len() ==> lex_lt(
                        (#[trigger] kept@[k]).name.bytes@,
                        (#[trigger] src@[m]).name.bytes@,
                    ),
                forall|a: Seq<u8>| #[trigger] amt_in_assets(kept@, a) == amt_in_assets(
                    src@.take(j as int),
                    a,
                ),
            decreases src@.len() - j,
        {
            let amt = src[j].amount;
            if amt > 0 {
                let ghost kept0 = kept@;
                let e = AssetEntry {
                    name: AssetName { bytes: copy_bytes(&src[j].name.bytes) },
                    amount: amt,
                };
                let ghost e_snap = e;
                kept.push(e);
                proof {
                    assert(kept@ =~= kept0.push(e_snap));
                    assert(kept@.drop_last() =~= kept0);
                    assert forall|a: Seq<u8>| #[trigger] amt_in_assets(kept@, a)
                        == amt_in_assets(src@.take(j + 1), a) by {
                        lemma_amt_assets_take_step(src@, j as int, a);
                        assert(amt_in_assets(kept0, a) == amt_in_assets(src@.take(j as int), a));
                        assert(kept@.last() == e_snap);
                        assert(e_snap.name.bytes@ == src@[j as int].name.bytes@);
                        assert(amt_in_assets(kept@, a) == amt_in_assets(kept0, a)
                            + if e_snap.name.bytes@ == a {
                            amt as int
                        } else {
                            0
                        });
                    }
                    assert forall|x: int, y: int| 0 <= x < y < kept@.len() implies lex_lt(
                        (#[trigger] kept@[x]).name.bytes@,
                        (#[trigger] kept@[y]).name.bytes@,
                    ) by {
                        if y < kept@.len() - 1 {
                            assert(kept@[x] == kept0[x] && kept@[y] == kept0[y]);
                        } else {
                            assert(kept@[y] == e_snap);
                            if x < kept@.len() - 1 {
                                assert(kept@[x] == kept0[x]);
                            }
                        }
                    }
                }
            } else {
                proof {
                    assert forall|a: Seq<u8>| #[trigger] amt_in_assets(kept@, a)
                        == amt_in_assets(src@.take(j + 1), a) by {
                        lemma_amt_assets_take_step(src@, j as int, a);
                    }
                }
            }
            j = j + 1;
        }
        proof {
            assert(src@.take(src@.len() as int) =~= src@);
        }
        if kept.len() > 0 {
            let pa = PolicyAssets { policy: PolicyId { bytes: copy_bytes(&acc[i].policy.bytes) }, assets: kept };
            let ghost pa_snap = pa;
            out.push(pa);
            proof {
                assert(out@ =~= out0.push(pa_snap));
                assert(out@.drop_last() =~= out0);
                assert forall|p: Seq<u8>, a: Seq<u8>| #[trigger] amt_in_policies(out@, p, a)
                    == amt_in_policies(acc@.take(i + 1), p, a) by {
                    lemma_amt_policies_take_step(acc@, i as int, p, a);
                    assert(amt_in_policies(out0, p, a) == amt_in_policies(
                        acc@.take(i as int),
                        p,
                        a,
                    ));
                    assert(out@.last() == pa_snap);
                    assert(pa_snap.policy.bytes@ == acc@[i as int].policy.bytes@);
                    assert(amt_in_assets(pa_snap.assets@, a) == amt_in_assets(
                        acc@[i as int].assets@,
                        a,
                    ));
                    assert(amt_in_policies(out@, p, a) == amt_in_policies(out0, p, a)
                        + if pa_snap.policy.bytes@ == p {
                        amt_in_assets(pa_snap.assets@, a)
                    } else {
                        0
                    });
                }
                assert forall|x: int, y: int| 0 <= x < y < out@.len() implies lex_lt(
                    (#[trigger] out@[x]).policy.bytes@,
                    (#[trigger] out@[y]).policy.bytes@,
                ) by {
                    if y < out@.len() - 1 {
                        assert(out@[x] == out0[x] && out@[y] == out0[y]);
                    } else {
                        assert(out@[y] == pa_snap);
                        if x < out@.len() - 1 {
                            assert(out@[x] == out0[x]);
                        }
                    }
                }
            }
        } else {
            proof {
                assert(kept@ =~= Seq::<AssetEntry>::empty());
                assert forall|p: Seq<u8>, a: Seq<u8>| #[trigger] amt_in_policies(out@, p, a)
                    == amt_in_policies(acc@.take(i + 1), p, a) by {
                    lemma_amt_policies_take_step(acc@, i as int, p, a);
                    assert(amt_in_assets(acc@[i as int].assets@, a) == amt_in_assets(kept@, a));
                }
            }
        }
        i = i + 1;
    }
    proof {
        assert(acc@.take(acc@.len() as int) =~= acc@);
    }
    if out.len() == 0 {
        proof {
            assert(out@ =~= Seq::<PolicyAssets>::empty());
            assert forall|p: Seq<u8>, a: Seq<u8>| #[trigger] amt_in_policies(acc@, p, a)
                == 0 by {
                assert(amt_in_policies(out@, p, a) == amt_in_policies(acc@, p, a));
            }
        }
        Value::Coin(coin)
    } else {
        proof {
            assert forall|p: Seq<u8>, a: Seq<u8>| #[trigger] value_amt(
                Value::Multiasset(coin, out),
                p,
                a,
            ) == amt_in_policies(acc@, p, a) by {
                assert(amt_in_policies(out@, p, a) == amt_in_policies(acc@, p, a));
            }
        }
        Value::Multiasset(coin, out)
    }
}

} // verus!

verus! {

// ---------------------------------------------------------------------------
// A sorted accumulator holds each quantity in at most one entry
// ---------------------------------------------------------------------------
pub proof fn lemma_amt_assets_absent(s: Seq<AssetEntry>, a: Seq<u8>)
    requires
        forall|k: int| 0 <= k < s.len() ==> (#[trigger] s[k]).name.bytes@ != a,
    ensures
        amt_in_assets(s, a) == 0,
    decreases s.len(),
{
    if s.len() > 0 {
        lemma_amt_assets_absent(s.drop_last(), a);
    }
}

pub proof fn lemma_amt_policies_absent(s: Seq<PolicyAssets>, p: Seq<u8>, a: Seq<u8>)
    requires
        forall|k: int| 0 <= k < s.len() ==> (#[trigger] s[k]).policy.bytes@ != p,
    ensures
        amt_in_policies(s, p, a) == 0,
    decreases s.len(),
{
    if s.len() > 0 {
        lemma_amt_policies_absent(s.drop_last(), p, a);
    }
}

/// In a sorted asset list the total under any name is a single entry's
/// amount, so it is representable.
pub proof fn lemma_amt_assets_bounded(s: Seq<AssetEntry>, a: Seq<u8>)
    requires
        assets_sorted(s),
    ensures
        amt_in_assets(s, a) <= u64::MAX,
    decreases s.len(),
{
    if s.len() > 0 {
        if s.last().name.bytes@ == a {
            assert forall|k: int| 0 <= k < s.drop_last().len() implies (
            #[trigger] s.drop_last()[k]).name.bytes@ != a by {
                assert(lex_lt(s[k].name.bytes@, s.last().name.bytes@));
                lemma_lex_irrefl(a);
            }
            lemma_amt_assets_absent(s.drop_last(), a);
        } else {
            lemma_amt_assets_bounded(s.drop_last(), a);
        }
    }
}

/// In a sorted accumulator the total under any key is a single entry's
/// amount, so it is representable.
pub proof fn lemma_amt_policies_bounded(s: Seq<PolicyAssets>, p: Seq<u8>, a: Seq<u8>)
    requires
        acc_wf(s),
    ensures
        amt_in_policies(s, p, a) <= u64::MAX,
    decreases s.len(),
{
    if s.len() > 0 {
        if s.last().policy.bytes@ == p {
            assert forall|k: int| 0 <= k < s.drop_last().len() implies (
            #[trigger] s.drop_last()[k]).policy.bytes@ != p by {
                assert(lex_lt(s[k].policy.bytes@, s.last().policy.bytes@));
                lemma_lex_irrefl(p);
            }
            lemma_amt_policies_absent(s.drop_last(), p, a);
            lemma_amt_assets_bounded(s.last().assets@, a);
        } else {
            assert(acc_wf(s.drop_last()));
            lemma_amt_policies_bounded(s.drop_last(), p, a);
        }
    }
}

/// Add the whole contents of one value into the accumulator: the coin into
/// the running coin total, every asset entry into the asset accumulator.
/// `None` means some running total would exceed the largest representable
/// amount.
pub fn add_value(coin: u64, acc: &mut Vec<PolicyAssets>, v: &Value) -> (r: Option<u64>)
    requires
        acc_wf(old(acc)@),
        bounded_value(*v),
    ensures
        acc_wf(final(acc)@),
        r matches Some(c2) ==> c2 as int == coin + value_coin(*v) && forall|p: Seq<u8>, a: Seq<u8>|
            #[trigger] amt_in_policies(final(acc)@, p, a) == amt_in_policies(old(acc)@, p, a)
                + value_amt(*v, p, a),
        r is None ==> coin + value_coin(*v) > u64::MAX || exists|p: Seq<u8>, a: Seq<u8>|
            #[trigger] amt_in_policies(old(acc)@, p, a) + value_amt(*v, p, a) > u64::MAX,
{
    let ghost acc0 = acc@;
    let c2 = match coin.checked_add(v.coin()) {
        Some(c2) => c2,
        None => {
            return None;
        },
    };
    match v {
        Value::Coin(_) => Some(c2),
        Value::Multiasset(_, ma) => {
            let mut k: usize = 0;
            while k < ma.len()
                invariant
                    k <= ma@.len(),
                    acc0 == old(acc)@,
                    acc_wf(acc@),
                    bounded_ma(ma@),
                    *v == Value::Multiasset(value_coin(*v), *ma),
                    forall|p: Seq<u8>, a: Seq<u8>| #[trigger] amt_in_policies(acc@, p, a)
                        == amt_in_policies(acc0, p, a) + amt_in_policies(ma@.take(k as int), p, a),
                decreases ma@.len() - k,
            {
                let pa = &ma[k];
                let mut l: usize = 0;
                while l < pa.assets.len()
                    invariant
                        l <= pa.assets@.len(),
                        acc0 == old(acc)@,
                        k < ma@.len(),
                        pa == ma@[k as int],
                        acc_wf(acc@),
                        bounded_ma(ma@),
                        *v == Value::Multiasset(value_coin(*v), *ma),
                        forall|p: Seq<u8>, a: Seq<u8>| #[trigger] amt_in_policies(acc@, p, a)
                            == amt_in_policies(acc0, p, a) + amt_in_policies(
                            ma@.take(k as int),
                            p,
                            a,
                        ) + if ma@[k as int].policy.bytes@ == p {
                            amt_in_assets(ma@[k as int].assets@.take(l as int), a)
                        } else {
                            0
                        },
                    decreases pa.assets@.len() - l,
                {
                    let entry = &pa.assets[l];
                    let ghost before = acc@;
                    proof {
                        assert(ma@[k as int].policy.bytes@.len() == 28);
                        assert(assets_bounded(ma@[k as int].assets@));
                        assert(ma@[k as int].assets@[l as int].name.bytes@.len() <= 32);
                        assert(pa.policy.bytes@ == ma@[k as int].policy.bytes@);
                        assert(entry.name.bytes@ == ma@[k as int].assets@[l as int].name.bytes@);
                    }
                    let ok = add_asset(acc, &pa.policy, &entry.name, entry.amount);
                    if !ok {
                        proof {
                            let gp = ma@[k as int].policy.bytes@;
                            let ga = ma@[k as int].assets@[l as int].name.bytes@;
                            lemma_amt_assets_take_step(ma@[k as int].assets@, l as int, ga);
                            lemma_amt_assets_take_bound(ma@[k as int].assets@, l as int + 1, ga);
                            lemma_amt_policies_take_step(ma@, k as int, gp, ga);
                            lemma_amt_policies_take_bound(ma@, k as int + 1, gp, ga);
                            lemma_amt_policies_nonneg(ma@.take(k as int), gp, ga);
                            lemma_amt_assets_nonneg(ma@[k as int].assets@.take(l as int), ga);
                            assert(amt_in_policies(before, gp, ga) == amt_in_policies(
                                acc0,
                                gp,
                                ga,
                            ) + amt_in_policies(ma@.take(k as int), gp, ga) + amt_in_assets(
                                ma@[k as int].assets@.take(l as int),
                                ga,
                            ));
                            assert(amt_in_policies(before, gp, ga) + entry.amount > u64::MAX);
                            assert(amt_in_assets(ma@[k as int].assets@, ga) >= amt_in_assets(
                                ma@[k as int].assets@.take(l as int),
                                ga,
                            ) + entry.amount);
                            assert(amt_in_policies(ma@, gp, ga) >= amt_in_policies(
                                ma@.take(k as int),
                                gp,
                                ga,
                            ) + amt_in_assets(ma@[k as int].assets@.take(l as int), ga)
                                + entry.amount);
                            assert(value_amt(*v, gp, ga) == amt_in_policies(ma@, gp, ga));
                            assert(amt_in_policies(acc0, gp, ga) + value_amt(*v, gp, ga)
                                >= amt_in_policies(before, gp, ga) + entry.amount);
                            assert(amt_in_policies(acc0, gp, ga) + value_amt(*v, gp, ga)
                                > u64::MAX);
                            assert(exists|p: Seq<u8>, a: Seq<u8>|
                                #[trigger] amt_in_policies(acc0, p, a) + value_amt(*v, p, a)
                                    > u64::MAX);
                        }
                        return None;
                    }
                    proof {
                        let gp = ma@[k as int].policy.bytes@;
                        let ga = ma@[k as int].assets@[l as int].name.bytes@;
                        assert forall|p: Seq<u8>, a: Seq<u8>| #[trigger] amt_in_policies(
                            acc@,
                            p,
                            a,
                        ) == amt_in_policies(acc0, p, a) + amt_in_policies(ma@.take(k as int), p, a)
                            + if ma@[k as int].policy.bytes@ == p {
                            amt_in_assets(ma@[k as int].assets@.take(l + 1), a)
                        } else {
                            0
                        } by {
                            lemma_amt_assets_take_step(ma@[k as int].assets@, l as int, a);
                            assert(amt_in_policies(before, p, a) == amt_in_policies(acc0, p, a)
                                + amt_in_policies(ma@.take(k as int), p, a) + if ma@[k as int].policy.bytes@
                                == p {
                                amt_in_assets(ma@[k as int].assets@.take(l as int), a)
                            } else {
                                0
                            });
                        }
                    }
                    l = l + 1;
                }
                proof {
                    assert(ma@[k as int].assets@.take(pa.assets@.len() as int) =~= ma@[k as int].assets@);
                    assert forall|p: Seq<u8>, a: Seq<u8>| #[trigger] amt_in_policies(acc@, p, a)
                        == amt_in_policies(acc0, p, a) + amt_in_policies(
                        ma@.take(k + 1),
                        p,
                        a,
                    ) by {
                        lemma_amt_policies_take_step(ma@, k as int, p, a);
                        assert(amt_in_policies(acc@, p, a) == amt_in_policies(acc0, p, a)
                            + amt_in_policies(ma@.take(k as int), p, a) + if ma@[k as int].policy.bytes@
                            == p {
                            amt_in_assets(ma@[k as int].assets@, a)
                        } else {
                            0
                        });
                    }
                }
                k = k + 1;
            }
            proof {
                assert(ma@.take(ma@.len() as int) =~= ma@);
            }
            Some(c2)
        },
    }
}

} // verus!

verus! {

pub proof fn lemma_value_amt_nonneg(v: Value, p: Seq<u8>, a: Seq<u8>)
    ensures
        value_amt(v, p, a) >= 0,
{
    match v {
        Value::Coin(_) => {
        },
        Value::Multiasset(_, ma) => {
            lemma_amt_policies_nonneg(ma@, p, a);
        },
    }
}

} // verus!

verus! {

// ---------------------------------------------------------------------------
// A canonical value is determined by the quantities it holds
// ---------------------------------------------------------------------------
/// The abstract contents of an asset list.
pub open spec fn assets_model(s: Seq<AssetEntry>) -> Seq<(Seq<u8>, u64)> {
    s.map_values(|e: AssetEntry| (e.name.bytes@, e.amount))
}

/// The abstract contents of a policy list.
pub open spec fn ma_model(s: Seq<PolicyAssets>) -> Seq<(Seq<u8>, Seq<(Seq<u8>, u64)>)> {
    s.map_values(|p: PolicyAssets| (p.policy.bytes@, assets_model(p.assets@)))
}

/// The abstract contents of a value: what it means, independently of how
/// its vectors are laid out.
pub enum AbstractValue {
    Coin(u64),
    Multiasset(u64, Seq<(Seq<u8>, Seq<(Seq<u8>, u64)>)>),
}

/// The abstract contents of a [`Value`].
pub open spec fn value_model(v: Value) -> AbstractValue {
    match v {
        Value::Coin(c) => AbstractValue::Coin(c),
        Value::Multiasset(c, ma) => AbstractValue::Multiasset(c, ma_model(ma@)),
    }
}

/// In a sorted asset list, the total under an entry's name is exactly
/// that entry's amount.
pub proof fn lemma_amt_assets_present(s: Seq<AssetEntry>, j: int)
    requires
        assets_sorted(s),
        0 <= j < s.len(),
    ensures
        amt_in_assets(s, s[j].name.bytes@) == s[j].amount,
    decreases s.len(),
{
    let a = s[j].name.bytes@;
    if j == s.len() - 1 {
        assert forall|k: int| 0 <= k < s.drop_last().len() implies (
        #[trigger] s.drop_last()[k]).name.bytes@ != a by {
            assert(lex_lt(s[k].name.bytes@, s.last().name.bytes@));
            lemma_lex_irrefl(a);
        }
        lemma_amt_assets_absent(s.drop_last(), a);
    } else {
        assert(lex_lt(s[j].name.bytes@, s.last().name.bytes@));
        lemma_lex_irrefl(a);
        assert(s.last().name.bytes@ != a);
        assert(s.drop_last()[j] == s[j]);
        lemma_amt_assets_present(s.drop_last(), j);
    }
}

/// In a sorted policy list, the total under an entry's policy is exactly
/// that entry's asset total.
pub proof fn lemma_amt_policies_present(s: Seq<PolicyAssets>, i: int, a: Seq<u8>)
    requires
        policies_sorted(s),
        0 <= i < s.len(),
    ensures
        amt_in_policies(s, s[i].policy.bytes@, a) == amt_in_assets(s[i].assets@, a),
    decreases s.len(),
{
    let p = s[i].policy.bytes@;
    if i == s.len() - 1 {
        assert forall|k: int| 0 <= k < s.drop_last().len() implies (
        #[trigger] s.drop_last()[k]).policy.bytes@ != p by {
            assert(lex_lt(s[k].policy.bytes@, s.last().policy.bytes@));
            lemma_lex_irrefl(p);
        }
        lemma_amt_policies_absent(s.drop_last(), p, a);
    } else {
        assert(lex_lt(s[i].policy.bytes@, s.last().policy.bytes@));
        lemma_lex_irrefl(p);
        assert(s.last().policy.bytes@ != p);
        assert(s.drop_last()[i] == s[i]);
        lemma_amt_policies_present(s.drop_last(), i, a);
    }
}

/// Two sorted, positive asset lists holding the same amount under every
/// name have the same contents.
pub proof fn lemma_canonical_assets_determined(t1: Seq<AssetEntry>, t2: Seq<AssetEntry>)
    requires
        assets_sorted(t1),
        assets_sorted(t2),
        assets_positive(t1),
        assets_positive(t2),
        forall|a: Seq<u8>| #[trigger] amt_in_assets(t1, a) == amt_in_assets(t2, a),
    ensures
        assets_model(t1) == assets_model(t2),
    decreases t1.len() + t2.len(),
{
    if t1.len() == 0 && t2.len() == 0 {
        assert(assets_model(t1) =~= assets_model(t2));
    } else if t1.len() == 0 {
        lemma_amt_assets_present(t2, t2.len() - 1);
        lemma_amt_assets_absent(t1, t2.last().name.bytes@);
        assert(false);
    } else if t2.len() == 0 {
        lemma_amt_assets_present(t1, t1.len() - 1);
        lemma_amt_assets_absent(t2, t1.last().name.bytes@);
        assert(false);
    } else {
        let n1 = t1.last().name.bytes@;
        let n2 = t2.last().name.bytes@;
        if lex_lt(n1, n2) {
            assert forall|k: int| 0 <= k < t1.len() implies (#[trigger] t1[k]).name.bytes@
                != n2 by {
                lemma_lex_irrefl(n2);
                if k < t1.len() - 1 {
                    lemma_lex_trans(t1[k].name.bytes@, n1, n2);
                }
            }
            lemma_amt_assets_absent(t1, n2);
            lemma_amt_assets_present(t2, t2.len() - 1);
            assert(false);
        }
        if lex_lt(n2, n1) {
            assert forall|k: int| 0 <= k < t2.len() implies (#[trigger] t2[k]).name.bytes@
                != n1 by {
                lemma_lex_irrefl(n1);
                if k < t2.len() - 1 {
                    lemma_lex_trans(t2[k].name.bytes@, n2, n1);
                }
            }
            lemma_amt_assets_absent(t2, n1);
            lemma_amt_assets_present(t1, t1.len() - 1);
            assert(false);
        }
        lemma_lex_connected(n1, n2);
        lemma_amt_assets_present(t1, t1.len() - 1);
        lemma_amt_assets_present(t2, t2.len() - 1);
        assert(t1.last().amount == t2.last().amount);
        assert forall|a: Seq<u8>| #[trigger] amt_in_assets(t1.drop_last(), a) == amt_in_assets(
            t2.drop_last(),
            a,
        ) by {
            assert(amt_in_assets(t1, a) == amt_in_assets(t2, a));
        }
        lemma_canonical_assets_determined(t1.drop_last(), t2.drop_last());
        assert(assets_model(t1) =~= assets_model(t1.drop_last()).push(
            (n1, t1.last().amount),
        ));
        assert(assets_model(t2) =~= assets_model(t2.drop_last()).push(
            (n2, t2.last().amount),
        ));
    }
}

/// Two canonical policy lists holding the same amount under every key
/// have the same contents.
pub proof fn lemma_canonical_ma_determined(s1: Seq<PolicyAssets>, s2: Seq<PolicyAssets>)
    requires
        acc_wf(s1),
        acc_wf(s2),
        policies_positive(s1),
        policies_positive(s2),
        forall|p: Seq<u8>, a: Seq<u8>| #[trigger] amt_in_policies(s1, p, a) == amt_in_policies(
            s2,
            p,
            a,
        ),
        forall|i: int| 0 <= i < s1.len() ==> (#[trigger] s1[i]).assets@.len() > 0,
        forall|i: int| 0 <= i < s2.len() ==> (#[trigger] s2[i]).assets@.len() > 0,
    ensures
        ma_model(s1) == ma_model(s2),
    decreases s1.len() + s2.len(),
{
    if s1.len() == 0 && s2.len() == 0 {
        assert(ma_model(s1) =~= ma_model(s2));
    } else if s1.len() == 0 {
        let last = s2.last();
        lemma_amt_policies_present(s2, s2.len() - 1, last.assets@[0].name.bytes@);
        lemma_amt_assets_present(last.assets@, 0);
        lemma_amt_policies_absent(s1, last.policy.bytes@, last.assets@[0].name.bytes@);
        assert(false);
    } else if s2.len() == 0 {
        let last = s1.last();
        lemma_amt_policies_present(s1, s1.len() - 1, last.assets@[0].name.bytes@);
        lemma_amt_assets_present(last.assets@, 0);
        lemma_amt_policies_absent(s2, last.policy.bytes@, last.assets@[0].name.bytes@);
        assert(false);
    } else {
        let p1 = s1.last().policy.bytes@;
        let p2 = s2.last().policy.bytes@;
        if lex_lt(p1, p2) {
            assert forall|k: int| 0 <= k < s1.len() implies (#[trigger] s1[k]).policy.bytes@
                != p2 by {
                lemma_lex_irrefl(p2);
                if k < s1.len() - 1 {
                    lemma_lex_trans(s1[k].policy.bytes@, p1, p2);
                }
            }
            let a0 = s2.last().assets@[0].name.bytes@;
            lemma_amt_policies_absent(s1, p2, a0);
            lemma_amt_policies_present(s2, s2.len() - 1, a0);
            lemma_amt_assets_present(s2.last().assets@, 0);
            assert(false);
        }
        if lex_lt(p2, p1) {
            assert forall|k: int| 0 <= k < s2.len() implies (#[trigger] s2[k]).policy.bytes@
                != p1 by {
                lemma_lex_irrefl(p1);
                if k < s2.len() - 1 {
                    lemma_lex_trans(s2[k].policy.bytes@, p2, p1);
                }
            }
            let a0 = s1.last().assets@[0].name.bytes@;
            lemma_amt_policies_absent(s2, p1, a0);
            lemma_amt_policies_present(s1, s1.len() - 1, a0);
            lemma_amt_assets_present(s1.last().assets@, 0);
            assert(false);
        }
        lemma_lex_connected(p1, p2);
        assert forall|a: Seq<u8>| #[trigger] amt_in_assets(s1.last().assets@, a) == amt_in_assets(
            s2.last().assets@,
            a,
        ) by {
            lemma_amt_policies_present(s1, s1.len() - 1, a);
            lemma_amt_policies_present(s2, s2.len() - 1, a);
            assert(amt_in_policies(s1, p1, a) == amt_in_policies(s2, p1, a));
        }
        lemma_canonical_assets_determined(s1.last().assets@, s2.last().assets@);
        assert forall|p: Seq<u8>, a: Seq<u8>| #[trigger] amt_in_policies(s1.drop_last(), p, a)
            == amt_in_policies(s2.drop_last(), p, a) by {
            if p == p1 {
                assert forall|k: int| 0 <= k < s1.drop_last().len() implies (
                #[trigger] s1.drop_last()[k]).policy.bytes@ != p by {
                    assert(lex_lt(s1[k].policy.bytes@, p1));
                    lemma_lex_irrefl(p1);
                }
                assert forall|k: int| 0 <= k < s2.drop_last().len() implies (
                #[trigger] s2.drop_last()[k]).policy.bytes@ != p by {
                    assert(lex_lt(s2[k].policy.bytes@, p2));
                    lemma_lex_irrefl(p2);
                }
                lemma_amt_policies_absent(s1.drop_last(), p, a);
                lemma_amt_policies_absent(s2.drop_last(), p, a);
            } else {
                assert(amt_in_policies(s1, p, a) == amt_in_policies(s2, p, a));
            }
        }
        lemma_canonical_ma_determined(s1.drop_last(), s2.drop_last());
        assert(ma_model(s1) =~= ma_model(s1.drop_last()).push(
            (p1, assets_model(s1.last().assets@)),
        ));
        assert(ma_model(s2) =~= ma_model(s2.drop_last()).push(
            (p2, assets_model(s2.last().assets@)),
        ));
    }
}

/// A canonical value is determined by its base coin and by the amount it
/// holds under every `(policy, asset name)` key: two well-formed values
/// holding the same quantities have the same contents.
pub proof fn lemma_canonical_value_determined(v1: Value, v2: Value)
    requires
        wf_value(v1),
        wf_value(v2),
        value_coin(v1) == value_coin(v2),
        forall|p: Seq<u8>, a: Seq<u8>| #[trigger] value_amt(v1, p, a) == value_amt(v2, p, a),
    ensures
        value_model(v1) == value_model(v2),
{
    match v1 {
        Value::Coin(c1) => {
            match v2 {
                Value::Coin(c2) => {
                },
                Value::Multiasset(c2, ma2) => {
                    let last = ma2@.last();
                    let a0 = last.assets@[0].name.bytes@;
                    lemma_amt_policies_present(ma2@, ma2@.len() - 1, a0);
                    lemma_amt_assets_present(last.assets@, 0);
                    assert(value_amt(v2, last.policy.bytes@, a0) > 0);
                    assert(value_amt(v1, last.policy.bytes@, a0) == 0);
                    assert(false);
                },
            }
        },
        Value::Multiasset(c1, ma1) => {
            match v2 {
                Value::Coin(c2) => {
                    let last = ma1@.last();
                    let a0 = last.assets@[0].name.bytes@;
                    lemma_amt_policies_present(ma1@, ma1@.len() - 1, a0);
                    lemma_amt_assets_present(last.assets@, 0);
                    assert(value_amt(v1, last.policy.bytes@, a0) > 0);
                    assert(value_amt(v2, last.policy.bytes@, a0) == 0);
                    assert(false);
                },
                Value::Multiasset(c2, ma2) => {
                    assert forall|p: Seq<u8>, a: Seq<u8>| #[trigger] amt_in_policies(ma1@, p, a)
                        == amt_in_policies(ma2@, p, a) by {
                        assert(value_amt(v1, p, a) == value_amt(v2, p, a));
                    }
                    lemma_canonical_ma_determined(ma1@, ma2@);
                },
            }
        },
    }
}

} // verus!

verus! {

/// Check the structural bounds the aggregator requires of an input
/// value: policy identifiers of 28 bytes and asset names of at most 32.
pub fn value_is_bounded(v: &Value) -> (r: bool)
    ensures
        r == bounded_value(*v),
{
    match v {
        Value::Coin(_) => true,
        Value::Multiasset(_, ma) => {
            let mut i: usize = 0;
            while i < ma.len()
                invariant
                    i <= ma@.len(),
                    *v == Value::Multiasset(value_coin(*v), *ma),
                    forall|k: int|
                        0 <= k < i ==> (#[trigger] ma@[k]).policy.bytes@.len() == 28
                            && assets_bounded(ma@[k].assets@),
                decreases ma@.len() - i,
            {
                let pa = &ma[i];
                if pa.policy.bytes.len() != 28 {
                    proof {
                        assert(ma@[i as int].policy.bytes@.len() != 28);
                        assert(!bounded_ma(ma@));
                    }
                    return false;
                }
                let mut j: usize = 0;
                while j < pa.assets.len()
                    invariant
                        j <= pa.assets@.len(),
                        *v == Value::Multiasset(value_coin(*v), *ma),
                        pa == ma@[i as int],
                        i < ma@.len(),
                        forall|k: int|
                            0 <= k < j ==> (#[trigger] pa.assets@[k]).name.bytes@.len() <= 32,
                    decreases pa.assets@.len() - j,
                {
                    if pa.assets[j].name.bytes.len() > 32 {
                        proof {
                            assert(ma@[i as int].assets@[j as int].name.bytes@.len() > 32);
                            assert(!assets_bounded(ma@[i as int].assets@));
                            assert(!bounded_ma(ma@));
                        }
                        return false;
                    }
                    j = j + 1;
                }
                i = i + 1;
            }
            proof {
                assert(bounded_ma(ma@));
            }
            true
        },
    }
}

} // verus!
