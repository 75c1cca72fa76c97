//! Structural binary reader and writer for the ledger's CBOR-style
//! encodings.
//!
//! Every item starts with a head byte holding a major type (top three
//! bits) and an additional-info field (low five bits) that either holds a
//! small argument directly, announces a 1-, 2-, 4- or 8-byte big-endian
//! argument, or marks an indefinite length.  The spec functions in this
//! module define the grammar; the [`Reader`] and [`Writer`] are verified
//! against them.

use crate::errors::{DecodeError, Stage};
use vstd::prelude::*;
use vstd::slice::{slice_index_get, slice_subrange, slice_to_vec};

verus! {

/// Length argument of an array or map header: a known count or an
/// indefinite length terminated by a break sentinel.
#[derive(Debug, Clone, Copy, PartialEq, Eq, Structural)]
pub enum Len {
    Def(u64),
    Indef,
}

// ---------------------------------------------------------------------------
// Big-endian arguments
// ---------------------------------------------------------------------------
/// The value of the `w` bytes starting at `i`, big-endian.
pub open spec fn be_val(b: Seq<u8>, i: int, w: int) -> int
    decreases w,
{
    if w <= 0 {
        0
    } else {
        be_val(b, i, w - 1) * 256 + b[i + w - 1]
    }
}

pub open spec fn pow256(w: int) -> int
    decreases w,
{
    if w <= 0 {
        1
    } else {
        256 * pow256(w - 1)
    }
}

pub proof fn lemma_pow256_values()
    ensures
        pow256(1) == 0x100,
        pow256(2) == 0x1_0000,
        pow256(4) == 0x1_0000_0000,
        pow256(8) == 0x1_0000_0000_0000_0000,
{
    assert(pow256(0) == 1);
    assert(pow256(1) == 0x100);
    assert(pow256(2) == 0x1_0000);
    assert(pow256(3) == 0x100_0000);
    assert(pow256(4) == 0x1_0000_0000);
    assert(pow256(5) == 0x100_0000_0000);
    assert(pow256(6) == 0x1_0000_0000_0000);
    assert(pow256(7) == 0x100_0000_0000_0000);
    assert(pow256(8) == 0x1_0000_0000_0000_0000);
}

pub proof fn lemma_be_val_bound(b: Seq<u8>, i: int, w: int)
    requires
        0 <= i,
        0 <= w,
        i + w <= b.len(),
    ensures
        0 <= be_val(b, i, w) < pow256(w),
    decreases w,
{
    if w > 0 {
        lemma_be_val_bound(b, i, w - 1);
        assert(b[i + w - 1] < 256);
        assert(be_val(b, i, w - 1) * 256 <= (pow256(w - 1) - 1) * 256) by (nonlinear_arith)
            requires
                be_val(b, i, w - 1) <= pow256(w - 1) - 1,
        ;
    }
}

/// The big-endian bytes of `n`, `w` bytes wide.
pub open spec fn be_bytes(n: u64, w: int) -> Seq<u8>
    decreases w,
{
    if w <= 0 {
        Seq::empty()
    } else {
        be_bytes(n / 256, w - 1).push((n % 256) as u8)
    }
}

pub proof fn lemma_be_bytes_len(n: u64, w: int)
    requires
        0 <= w,
    ensures
        be_bytes(n, w).len() == w,
    decreases w,
{
    if w > 0 {
        lemma_be_bytes_len(n / 256, w - 1);
    }
}

/// Reading back the big-endian bytes of `n` yields `n`.
pub proof fn lemma_be_val_of_be_bytes(b: Seq<u8>, i: int, n: u64, w: int)
    requires
        0 <= i,
        0 <= w,
        i + w <= b.len(),
        n < pow256(w),
        b.subrange(i, i + w) == be_bytes(n, w),
    ensures
        be_val(b, i, w) == n,
    decreases w,
{
    lemma_be_bytes_len(n, w);
    if w > 0 {
        lemma_be_bytes_len(n / 256, w - 1);
        assert(b.subrange(i, i + w - 1) =~= be_bytes(n / 256, w - 1)) by {
            assert forall|k: int| 0 <= k < w - 1 implies #[trigger] b.subrange(i, i + w - 1)[k]
                == be_bytes(n / 256, w - 1)[k] by {
                assert(b.subrange(i, i + w)[k] == be_bytes(n, w)[k]);
            }
        }
        assert(n / 256 < pow256(w - 1)) by (nonlinear_arith)
            requires
                n < pow256(w),
                pow256(w) == 256 * pow256(w - 1),
        ;
        lemma_be_val_of_be_bytes(b, i, n / 256, w - 1);
        assert(b[i + w - 1] == be_bytes(n, w)[w - 1]) by {
            assert(b.subrange(i, i + w)[w - 1] == be_bytes(n, w)[w - 1]);
        }
        assert(be_bytes(n, w)[w - 1] == (n % 256) as u8);
    }
}

// ---------------------------------------------------------------------------
// Heads
// ---------------------------------------------------------------------------
/// Parse the head of the item at `i`: its major type, its length
/// argument, and the position just past the head.  `(7, Indef)` stands
/// for the break sentinel.  For major type 7 a 2-, 4- or 8-byte argument
/// (a floating-point payload) is carried in the argument bytes, so the
/// head covers the whole item.
pub open spec fn s_head(b: Seq<u8>, i: int) -> Option<(u8, Len, int)> {
    if !(0 <= i < b.len()) {
        None
    } else {
        let major = (b[i] / 32) as u8;
        let ai = b[i] % 32;
        if ai < 24 {
            Some((major, Len::Def(ai as u64), i + 1))
        } else if ai == 24 {
            if i + 2 <= b.len() {
                Some((major, Len::Def(b[i + 1] as u64), i + 2))
            } else {
                None
            }
        } else if ai == 25 {
            if i + 3 <= b.len() {
                Some((major, Len::Def(be_val(b, i + 1, 2) as u64), i + 3))
            } else {
                None
            }
        } else if ai == 26 {
            if i + 5 <= b.len() {
                Some((major, Len::Def(be_val(b, i + 1, 4) as u64), i + 5))
            } else {
                None
            }
        } else if ai == 27 {
            if i + 9 <= b.len() {
                Some((major, Len::Def(be_val(b, i + 1, 8) as u64), i + 9))
            } else {
                None
            }
        } else if ai == 31 {
            if major == 2 || major == 3 || major == 4 || major == 5 || major == 7 {
                Some((major, Len::Indef, i + 1))
            } else {
                None
            }
        } else {
            None
        }
    }
}

/// A parsed head sits inside the buffer and makes progress.
pub proof fn lemma_head_bounds(b: Seq<u8>, i: int)
    ensures
        s_head(b, i) matches Some((major, len, e)) ==> i < e <= b.len() && major <= 7,
{
    if 0 <= i < b.len() {
        if i + 3 <= b.len() {
            lemma_be_val_bound(b, i + 1, 2);
        }
        if i + 5 <= b.len() {
            lemma_be_val_bound(b, i + 1, 4);
        }
        if i + 9 <= b.len() {
            lemma_be_val_bound(b, i + 1, 8);
        }
    }
}

// ---------------------------------------------------------------------------
// Skipping one item
// ---------------------------------------------------------------------------
/// The position just past the item at `i`, or `None` if the bytes are not
/// a well-formed item.  Indefinite byte and text strings are not
/// accepted; indefinite arrays and maps run to a break sentinel.
pub open spec fn s_skip(b: Seq<u8>, i: int) -> Option<int>
    decreases b.len() - i, 0int,
{
    match s_head(b, i) {
        None => None,
        Some((major, len, e)) => {
            if major == 0 || major == 1 {
                Some(e)
            } else if major == 2 || major == 3 {
                match len {
                    Len::Def(n) => if e + n <= b.len() {
                        Some(e + n)
                    } else {
                        None
                    },
                    Len::Indef => None,
                }
            } else if major == 4 {
                match len {
                    Len::Def(n) => s_skip_n(b, e, n as int),
                    Len::Indef => s_skip_until_break(b, e),
                }
            } else if major == 5 {
                match len {
                    Len::Def(n) => s_skip_n(b, e, 2 * (n as int)),
                    Len::Indef => s_skip_until_break(b, e),
                }
            } else if major == 6 {
                if i < e <= b.len() {
                    s_skip(b, e)
                } else {
                    None
                }
            } else {
                match len {
                    Len::Def(_) => Some(e),
                    Len::Indef => None,
                }
            }
        },
    }
}

/// One fewer map entry still owed, where the count is known.
pub open spec fn dec_rem(rem: Option<u64>) -> Option<u64> {
    match rem {
        Some(n) => Some((n - 1) as u64),
        None => None,
    }
}

/// The position just past `n` consecutive items starting at `i`.
pub open spec fn s_skip_n(b: Seq<u8>, i: int, n: int) -> Option<int>
    decreases b.len() - i, 1int, n,
{
    if n <= 0 {
        Some(i)
    } else {
        match s_skip(b, i) {
            None => None,
            Some(j) => if i < j <= b.len() {
                s_skip_n(b, j, n - 1)
            } else {
                None
            },
        }
    }
}

/// The position just past a break sentinel, skipping whole items until it.
pub open spec fn s_skip_until_break(b: Seq<u8>, i: int) -> Option<int>
    decreases b.len() - i, 1int, 0int,
{
    if !(0 <= i < b.len()) {
        None
    } else if b[i] == 0xff {
        Some(i + 1)
    } else {
        match s_skip(b, i) {
            None => None,
            Some(j) => if i < j <= b.len() {
                s_skip_until_break(b, j)
            } else {
                None
            },
        }
    }
}

} // verus!

verus! {

pub proof fn lemma_pow256_mono(a: int, b: int)
    requires
        0 <= a <= b,
    ensures
        pow256(a) <= pow256(b),
    decreases b - a,
{
    if a < b {
        lemma_pow256_mono(a, b - 1);
        assert(pow256(b) == 256 * pow256(b - 1));
        assert(pow256(b - 1) >= 1) by {
            lemma_pow256_pos(b - 1);
        }
    }
}

pub proof fn lemma_pow256_pos(w: int)
    ensures
        pow256(w) >= 1,
    decreases w,
{
    if w > 0 {
        lemma_pow256_pos(w - 1);
    }
}

// ---------------------------------------------------------------------------
// UTF-8
// ---------------------------------------------------------------------------
/// A UTF-8 continuation byte.
pub open spec fn is_cont(x: u8) -> bool {
    0x80 <= x && x <= 0xBF
}

/// The bytes form well-formed UTF-8: ASCII, or a correctly ranged 2-, 3-
/// or 4-byte sequence excluding surrogates and values past U+10FFFF.
pub open spec fn is_utf8(s: Seq<u8>) -> bool
    decreases s.len(),
{
    if s.len() == 0 {
        true
    } else if s[0] < 0x80 {
        is_utf8(s.skip(1))
    } else if 0xC2 <= s[0] && s[0] <= 0xDF {
        s.len() >= 2 && is_cont(s[1]) && is_utf8(s.skip(2))
    } else if s[0] == 0xE0 {
        s.len() >= 3 && 0xA0 <= s[1] && s[1] <= 0xBF && is_cont(s[2]) && is_utf8(s.skip(3))
    } else if (0xE1 <= s[0] && s[0] <= 0xEC) || s[0] == 0xEE || s[0] == 0xEF {
        s.len() >= 3 && is_cont(s[1]) && is_cont(s[2]) && is_utf8(s.skip(3))
    } else if s[0] == 0xED {
        s.len() >= 3 && 0x80 <= s[1] && s[1] <= 0x9F && is_cont(s[2]) && is_utf8(s.skip(3))
    } else if s[0] == 0xF0 {
        s.len() >= 4 && 0x90 <= s[1] && s[1] <= 0xBF && is_cont(s[2]) && is_cont(s[3]) && is_utf8(
            s.skip(4),
        )
    } else if 0xF1 <= s[0] && s[0] <= 0xF3 {
        s.len() >= 4 && is_cont(s[1]) && is_cont(s[2]) && is_cont(s[3]) && is_utf8(s.skip(4))
    } else if s[0] == 0xF4 {
        s.len() >= 4 && 0x80 <= s[1] && s[1] <= 0x8F && is_cont(s[2]) && is_cont(s[3]) && is_utf8(
            s.skip(4),
        )
    } else {
        false
    }
}

/// Check UTF-8 well-formedness of `b` from position `i` on.
fn utf8_check(b: &[u8], i: usize) -> (r: bool)
    requires
        i <= b@.len(),
    ensures
        r == is_utf8(b@.skip(i as int)),
    decreases b@.len() - i,
{
    let n = b.len();
    let ghost s = b@.skip(i as int);
    if i == n {
        proof {
            assert(s =~= Seq::<u8>::empty());
        }
        return true;
    }
    let x = *slice_index_get(b, i);
    proof {
        assert(s[0] == x);
        assert(s.len() == n - i);
    }
    if x < 0x80 {
        proof {
            assert(s.skip(1) =~= b@.skip(i + 1));
        }
        utf8_check(b, i + 1)
    } else if 0xC2 <= x && x <= 0xDF {
        if n - i >= 2 {
            let y1 = *slice_index_get(b, i + 1);
            proof {
                assert(s[1] == y1);
                assert(s.skip(2) =~= b@.skip(i + 2));
            }
            if 0x80 <= y1 && y1 <= 0xBF {
                utf8_check(b, i + 2)
            } else {
                false
            }
        } else {
            false
        }
    } else if x == 0xE0 {
        if n - i >= 3 {
            let y1 = *slice_index_get(b, i + 1);
            let y2 = *slice_index_get(b, i + 2);
            proof {
                assert(s[1] == y1);
                assert(s[2] == y2);
                assert(s.skip(3) =~= b@.skip(i + 3));
            }
            if 0xA0 <= y1 && y1 <= 0xBF && 0x80 <= y2 && y2 <= 0xBF {
                utf8_check(b, i + 3)
            } else {
                false
            }
        } else {
            false
        }
    } else if (0xE1 <= x && x <= 0xEC) || x == 0xEE || x == 0xEF {
        if n - i >= 3 {
            let y1 = *slice_index_get(b, i + 1);
            let y2 = *slice_index_get(b, i + 2);
            proof {
                assert(s[1] == y1);
                assert(s[2] == y2);
                assert(s.skip(3) =~= b@.skip(i + 3));
            }
            if 0x80 <= y1 && y1 <= 0xBF && 0x80 <= y2 && y2 <= 0xBF {
                utf8_check(b, i + 3)
            } else {
                false
            }
        } else {
            false
        }
    } else if x == 0xED {
        if n - i >= 3 {
            let y1 = *slice_index_get(b, i + 1);
            let y2 = *slice_index_get(b, i + 2);
            proof {
                assert(s[1] == y1);
                assert(s[2] == y2);
                assert(s.skip(3) =~= b@.skip(i + 3));
            }
            if 0x80 <= y1 && y1 <= 0x9F && 0x80 <= y2 && y2 <= 0xBF {
                utf8_check(b, i + 3)
            } else {
                false
            }
        } else {
            false
        }
    } else if x == 0xF0 {
        if n - i >= 4 {
            let y1 = *slice_index_get(b, i + 1);
            let y2 = *slice_index_get(b, i + 2);
            let y3 = *slice_index_get(b, i + 3);
            proof {
                assert(s[1] == y1);
                assert(s[2] == y2);
                assert(s[3] == y3);
                assert(s.skip(4) =~= b@.skip(i + 4));
            }
            if 0x90 <= y1 && y1 <= 0xBF && 0x80 <= y2 && y2 <= 0xBF && 0x80 <= y3 && y3 <= 0xBF {
                utf8_check(b, i + 4)
            } else {
                false
            }
        } else {
            false
        }
    } else if 0xF1 <= x && x <= 0xF3 {
        if n - i >= 4 {
            let y1 = *slice_index_get(b, i + 1);
            let y2 = *slice_index_get(b, i + 2);
            let y3 = *slice_index_get(b, i + 3);
            proof {
                assert(s[1] == y1);
                assert(s[2] == y2);
                assert(s[3] == y3);
                assert(s.skip(4) =~= b@.skip(i + 4));
            }
            if 0x80 <= y1 && y1 <= 0xBF && 0x80 <= y2 && y2 <= 0xBF && 0x80 <= y3 && y3 <= 0xBF {
                utf8_check(b, i + 4)
            } else {
                false
            }
        } else {
            false
        }
    } else if x == 0xF4 {
        if n - i >= 4 {
            let y1 = *slice_index_get(b, i + 1);
            let y2 = *slice_index_get(b, i + 2);
            let y3 = *slice_index_get(b, i + 3);
            proof {
                assert(s[1] == y1);
                assert(s[2] == y2);
                assert(s[3] == y3);
                assert(s.skip(4) =~= b@.skip(i + 4));
            }
            if 0x80 <= y1 && y1 <= 0x8F && 0x80 <= y2 && y2 <= 0xBF && 0x80 <= y3 && y3 <= 0xBF {
                utf8_check(b, i + 4)
            } else {
                false
            }
        } else {
            false
        }
    } else {
        false
    }
}

} // verus!

verus! {

// ---------------------------------------------------------------------------
// Typed reads
// ---------------------------------------------------------------------------
/// Read an unsigned integer item at `i`.
pub open spec fn s_uint(b: Seq<u8>, i: int) -> Result<(u64, int), DecodeError> {
    match s_head(b, i) {
        Some((major, len, e)) => match len {
            Len::Def(n) => if major == 0 {
                Ok((n, e))
            } else {
                Err(DecodeError::MalformedEncoding { stage: Stage::Integer, offset: i as usize })
            },
            Len::Indef => Err(
                DecodeError::MalformedEncoding { stage: Stage::Integer, offset: i as usize },
            ),
        },
        None => Err(DecodeError::MalformedEncoding { stage: Stage::Integer, offset: i as usize }),
    }
}

/// Read an unsigned or negative integer item at `i` as a signed value.
pub open spec fn s_int(b: Seq<u8>, i: int) -> Result<(i64, int), DecodeError> {
    match s_head(b, i) {
        Some((major, len, e)) => match len {
            Len::Def(n) => if major == 0 && n <= i64::MAX as u64 {
                Ok((n as i64, e))
            } else if major == 1 && n <= i64::MAX as u64 {
                Ok(((-1 - n as int) as i64, e))
            } else {
                Err(DecodeError::MalformedEncoding { stage: Stage::Integer, offset: i as usize })
            },
            Len::Indef => Err(
                DecodeError::MalformedEncoding { stage: Stage::Integer, offset: i as usize },
            ),
        },
        None => Err(DecodeError::MalformedEncoding { stage: Stage::Integer, offset: i as usize }),
    }
}

/// Read a definite byte string item at `i`: its contents and the position
/// just past it.
pub open spec fn s_bytes(b: Seq<u8>, i: int) -> Result<(Seq<u8>, int), DecodeError> {
    match s_head(b, i) {
        Some((major, len, e)) => match len {
            Len::Def(n) => if major == 2 && e + n <= b.len() {
                Ok((b.subrange(e, e + n), e + n))
            } else {
                Err(DecodeError::MalformedEncoding { stage: Stage::Bytes, offset: i as usize })
            },
            Len::Indef => Err(
                DecodeError::MalformedEncoding { stage: Stage::Bytes, offset: i as usize },
            ),
        },
        None => Err(DecodeError::MalformedEncoding { stage: Stage::Bytes, offset: i as usize }),
    }
}

/// Read a definite text string item at `i`: its UTF-8 bytes and the
/// position just past it.
pub open spec fn s_text(b: Seq<u8>, i: int) -> Result<(Seq<u8>, int), DecodeError> {
    match s_head(b, i) {
        Some((major, len, e)) => match len {
            Len::Def(n) => if major == 3 && e + n <= b.len() && is_utf8(b.subrange(e, e + n)) {
                Ok((b.subrange(e, e + n), e + n))
            } else {
                Err(DecodeError::MalformedEncoding { stage: Stage::Text, offset: i as usize })
            },
            Len::Indef => Err(
                DecodeError::MalformedEncoding { stage: Stage::Text, offset: i as usize },
            ),
        },
        None => Err(DecodeError::MalformedEncoding { stage: Stage::Text, offset: i as usize }),
    }
}

/// Read an array header at `i`: its length argument and the position just
/// past the header.
pub open spec fn s_array_header(b: Seq<u8>, i: int) -> Result<(Len, int), DecodeError> {
    match s_head(b, i) {
        Some((major, len, e)) => if major == 4 && !(len == Len::Indef && false) {
            Ok((len, e))
        } else {
            Err(DecodeError::MalformedEncoding { stage: Stage::Header, offset: i as usize })
        },
        None => Err(DecodeError::MalformedEncoding { stage: Stage::Header, offset: i as usize }),
    }
}

/// Read a map header at `i`: its length argument (in key/value pairs) and
/// the position just past the header.
pub open spec fn s_map_header(b: Seq<u8>, i: int) -> Result<(Len, int), DecodeError> {
    match s_head(b, i) {
        Some((major, len, e)) => if major == 5 {
            Ok((len, e))
        } else {
            Err(DecodeError::MalformedEncoding { stage: Stage::Header, offset: i as usize })
        },
        None => Err(DecodeError::MalformedEncoding { stage: Stage::Header, offset: i as usize }),
    }
}

// ---------------------------------------------------------------------------
// The reader
// ---------------------------------------------------------------------------
/// Sequential, position-advancing structural reader over an immutable
/// byte buffer.  Each operation either consumes exactly one item (or
/// header) as the corresponding spec function describes, or fails with
/// [`DecodeError::MalformedEncoding`] and leaves the position unchanged.
pub struct Reader<'a> {
    pub buf: &'a [u8],
    pub pos: usize,
}

/// Read the `w`-byte big-endian value at `i`.
fn be_read(buf: &[u8], i: usize, w: usize) -> (v: u64)
    requires
        i + w <= buf@.len(),
        w <= 8,
    ensures
        v as int == be_val(buf@, i as int, w as int),
{
    let n = buf.len();
    let mut v: u64 = 0;
    let mut k: usize = 0;
    while k < w
        invariant
            k <= w,
            w <= 8,
            n == buf@.len(),
            i + w <= n,
            v as int == be_val(buf@, i as int, k as int),
        decreases w - k,
    {
        let byte = *slice_index_get(buf, i + k);
        proof {
            lemma_be_val_bound(buf@, i as int, k as int);
            lemma_pow256_mono(k as int, 7);
            lemma_pow256_values();
            assert(pow256(7) == 0x100_0000_0000_0000);
            assert(v < 0x100_0000_0000_0000);
            assert(buf@[i + k as int] == byte);
        }
        v = v * 256 + (byte as u64);
        k = k + 1;
    }
    v
}

impl<'a> Reader<'a> {
    /// The position never passes the end of the buffer.
    pub open spec fn wf(self) -> bool {
        self.pos <= self.buf@.len()
    }

    /// Start reading at the beginning of `buf`.
    pub fn new(buf: &'a [u8]) -> (r: Self)
        ensures
            r.buf@ == buf@,
            r.pos == 0,
            r.wf(),
    {
        Reader { buf, pos: 0 }
    }

    /// Whether the next byte is the break sentinel.
    pub fn peek_is_break(&self) -> (r: bool)
        ensures
            r == (self.pos < self.buf@.len() && self.buf@[self.pos as int] == 0xff),
    {
        if self.pos < self.buf.len() {
            *slice_index_get(self.buf, self.pos) == 0xff
        } else {
            false
        }
    }

    /// Parse the head of the next item without consuming it.
    pub fn peek_head(&self) -> (r: Option<(u8, Len)>)
        requires
            self.wf(),
        ensures
            match s_head(self.buf@, self.pos as int) {
                Some((m, l, e)) => r == Some((m, l)),
                None => r is None,
            },
    {
        let n = self.buf.len();
        if self.pos >= n {
            return None;
        }
        let ib = *slice_index_get(self.buf, self.pos);
        let major = ib / 32;
        let ai = ib % 32;
        if ai < 24 {
            Some((major, Len::Def(ai as u64)))
        } else if ai == 24 {
            if n - self.pos >= 2 {
                Some((major, Len::Def(*slice_index_get(self.buf, self.pos + 1) as u64)))
            } else {
                None
            }
        } else if ai == 25 {
            if n - self.pos >= 3 {
                let v = be_read(self.buf, self.pos + 1, 2);
                proof {
                    lemma_be_val_bound(self.buf@, self.pos + 1, 2);
                }
                Some((major, Len::Def(v)))
            } else {
                None
            }
        } else if ai == 26 {
            if n - self.pos >= 5 {
                let v = be_read(self.buf, self.pos + 1, 4);
                proof {
                    lemma_be_val_bound(self.buf@, self.pos + 1, 4);
                }
                Some((major, Len::Def(v)))
            } else {
                None
            }
        } else if ai == 27 {
            if n - self.pos >= 9 {
                let v = be_read(self.buf, self.pos + 1, 8);
                proof {
                    lemma_be_val_bound(self.buf@, self.pos + 1, 8);
                }
                Some((major, Len::Def(v)))
            } else {
                None
            }
        } else if ai == 31 {
            if major == 2 || major == 3 || major == 4 || major == 5 || major == 7 {
                Some((major, Len::Indef))
            } else {
                None
            }
        } else {
            None
        }
    }

    /// Parse and consume the head of the next item.
    pub fn read_head(&mut self) -> (r: Result<(u8, Len), DecodeError>)
        requires
            old(self).wf(),
        ensures
            final(self).buf@ == old(self).buf@,
            final(self).wf(),
            match s_head(old(self).buf@, old(self).pos as int) {
                Some((m, l, e)) => r == Ok::<(u8, Len), DecodeError>((m, l)) && final(self).pos
                    == e,
                None => r == Err::<(u8, Len), DecodeError>(
                    DecodeError::MalformedEncoding { stage: Stage::Header, offset: old(self).pos },
                ) && final(self).pos == old(self).pos,
            },
    {
        let n = self.buf.len();
        let p = self.pos;
        if p >= n {
            return Err(DecodeError::MalformedEncoding { stage: Stage::Header, offset: p });
        }
        let ib = *slice_index_get(self.buf, p);
        let major = ib / 32;
        let ai = ib % 32;
        if ai < 24 {
            self.pos = p + 1;
            Ok((major, Len::Def(ai as u64)))
        } else if ai == 24 {
            if n - p >= 2 {
                let v = *slice_index_get(self.buf, p + 1);
                self.pos = p + 2;
                Ok((major, Len::Def(v as u64)))
            } else {
                Err(DecodeError::MalformedEncoding { stage: Stage::Header, offset: p })
            }
        } else if ai == 25 {
            if n - p >= 3 {
                let v = be_read(self.buf, p + 1, 2);
                proof {
                    lemma_be_val_bound(self.buf@, p + 1, 2);
                }
                self.pos = p + 3;
                Ok((major, Len::Def(v)))
            } else {
                Err(DecodeError::MalformedEncoding { stage: Stage::Header, offset: p })
            }
        } else if ai == 26 {
            if n - p >= 5 {
                let v = be_read(self.buf, p + 1, 4);
                proof {
                    lemma_be_val_bound(self.buf@, p + 1, 4);
                }
                self.pos = p + 5;
                Ok((major, Len::Def(v)))
            } else {
                Err(DecodeError::MalformedEncoding { stage: Stage::Header, offset: p })
            }
        } else if ai == 27 {
            if n - p >= 9 {
                let v = be_read(self.buf, p + 1, 8);
                proof {
                    lemma_be_val_bound(self.buf@, p + 1, 8);
                }
                self.pos = p + 9;
                Ok((major, Len::Def(v)))
            } else {
                Err(DecodeError::MalformedEncoding { stage: Stage::Header, offset: p })
            }
        } else if ai == 31 {
            if major == 2 || major == 3 || major == 4 || major == 5 || major == 7 {
                self.pos = p + 1;
                Ok((major, Len::Indef))
            } else {
                Err(DecodeError::MalformedEncoding { stage: Stage::Header, offset: p })
            }
        } else {
            Err(DecodeError::MalformedEncoding { stage: Stage::Header, offset: p })
        }
    }
}

} // verus!

verus! {

impl<'a> Reader<'a> {
    /// Read an unsigned integer item.
    pub fn read_uint(&mut self) -> (r: Result<u64, DecodeError>)
        requires
            old(self).wf(),
        ensures
            final(self).buf@ == old(self).buf@,
            final(self).wf(),
            match s_uint(old(self).buf@, old(self).pos as int) {
                Ok((n, e)) => r == Ok::<u64, DecodeError>(n) && final(self).pos == e,
                Err(er) => r == Err::<u64, DecodeError>(er) && final(self).pos == old(self).pos,
            },
    {
        let start = self.pos;
        match self.read_head() {
            Ok((major, len)) => {
                if major == 0 {
                    match len {
                        Len::Def(n) => Ok(n),
                        Len::Indef => {
                            self.pos = start;
                            Err(
                                DecodeError::MalformedEncoding {
                                    stage: Stage::Integer,
                                    offset: start,
                                },
                            )
                        },
                    }
                } else {
                    self.pos = start;
                    Err(DecodeError::MalformedEncoding { stage: Stage::Integer, offset: start })
                }
            },
            Err(_) => Err(DecodeError::MalformedEncoding { stage: Stage::Integer, offset: start }),
        }
    }

    /// Read an unsigned or negative integer item as a signed value.
    /// Magnitudes past the signed range are rejected.
    pub fn read_int(&mut self) -> (r: Result<i64, DecodeError>)
        requires
            old(self).wf(),
        ensures
            final(self).buf@ == old(self).buf@,
            final(self).wf(),
            match s_int(old(self).buf@, old(self).pos as int) {
                Ok((n, e)) => r == Ok::<i64, DecodeError>(n) && final(self).pos == e,
                Err(er) => r == Err::<i64, DecodeError>(er) && final(self).pos == old(self).pos,
            },
    {
        let start = self.pos;
        match self.read_head() {
            Ok((major, len)) => {
                match len {
                    Len::Def(n) => {
                        if major == 0 && n <= i64::MAX as u64 {
                            Ok(n as i64)
                        } else if major == 1 && n <= i64::MAX as u64 {
                            Ok(-1i64 - (n as i64))
                        } else {
                            self.pos = start;
                            Err(
                                DecodeError::MalformedEncoding {
                                    stage: Stage::Integer,
                                    offset: start,
                                },
                            )
                        }
                    },
                    Len::Indef => {
                        self.pos = start;
                        Err(DecodeError::MalformedEncoding { stage: Stage::Integer, offset: start })
                    },
                }
            },
            Err(_) => Err(DecodeError::MalformedEncoding { stage: Stage::Integer, offset: start }),
        }
    }

    /// Read a definite byte string item, returning its contents.
    pub fn read_bytes(&mut self) -> (r: Result<Vec<u8>, DecodeError>)
        requires
            old(self).wf(),
        ensures
            final(self).buf@ == old(self).buf@,
            final(self).wf(),
            match s_bytes(old(self).buf@, old(self).pos as int) {
                Ok((v, e)) => r matches Ok(rv) && rv@ == v && final(self).pos == e,
                Err(er) => r == Err::<Vec<u8>, DecodeError>(er) && final(self).pos == old(
                    self,
                ).pos,
            },
    {
        let start = self.pos;
        match self.read_head() {
            Ok((major, len)) => {
                if major == 2 {
                    match len {
                        Len::Def(n) => {
                            let rem = self.buf.len() - self.pos;
                            if n <= rem as u64 {
                                let nn = n as usize;
                                let sl = slice_subrange(self.buf, self.pos, self.pos + nn);
                                let v = slice_to_vec(sl);
                                self.pos = self.pos + nn;
                                Ok(v)
                            } else {
                                self.pos = start;
                                Err(
                                    DecodeError::MalformedEncoding {
                                        stage: Stage::Bytes,
                                        offset: start,
                                    },
                                )
                            }
                        },
                        Len::Indef => {
                            self.pos = start;
                            Err(DecodeError::MalformedEncoding { stage: Stage::Bytes, offset: start })
                        },
                    }
                } else {
                    self.pos = start;
                    Err(DecodeError::MalformedEncoding { stage: Stage::Bytes, offset: start })
                }
            },
            Err(_) => Err(DecodeError::MalformedEncoding { stage: Stage::Bytes, offset: start }),
        }
    }

    /// Read a definite text string item, returning its UTF-8 bytes.
    /// Fails on invalid UTF-8.
    pub fn read_text(&mut self) -> (r: Result<Vec<u8>, DecodeError>)
        requires
            old(self).wf(),
        ensures
            final(self).buf@ == old(self).buf@,
            final(self).wf(),
            match s_text(old(self).buf@, old(self).pos as int) {
                Ok((v, e)) => r matches Ok(rv) && rv@ == v && final(self).pos == e,
                Err(er) => r == Err::<Vec<u8>, DecodeError>(er) && final(self).pos == old(
                    self,
                ).pos,
            },
    {
        let start = self.pos;
        match self.read_head() {
            Ok((major, len)) => {
                if major == 3 {
                    match len {
                        Len::Def(n) => {
                            let rem = self.buf.len() - self.pos;
                            if n <= rem as u64 {
                                let nn = n as usize;
                                let sl = slice_subrange(self.buf, self.pos, self.pos + nn);
                                if utf8_check(sl, 0) {
                                    proof {
                                        assert(sl@.skip(0) =~= sl@);
                                    }
                                    let v = slice_to_vec(sl);
                                    self.pos = self.pos + nn;
                                    Ok(v)
                                } else {
                                    proof {
                                        assert(sl@.skip(0) =~= sl@);
                                    }
                                    self.pos = start;
                                    Err(
                                        DecodeError::MalformedEncoding {
                                            stage: Stage::Text,
                                            offset: start,
                                        },
                                    )
                                }
                            } else {
                                self.pos = start;
                                Err(
                                    DecodeError::MalformedEncoding {
                                        stage: Stage::Text,
                                        offset: start,
                                    },
                                )
                            }
                        },
                        Len::Indef => {
                            self.pos = start;
                            Err(DecodeError::MalformedEncoding { stage: Stage::Text, offset: start })
                        },
                    }
                } else {
                    self.pos = start;
                    Err(DecodeError::MalformedEncoding { stage: Stage::Text, offset: start })
                }
            },
            Err(_) => Err(DecodeError::MalformedEncoding { stage: Stage::Text, offset: start }),
        }
    }

    /// Read an array header.
    pub fn read_array_header(&mut self) -> (r: Result<Len, DecodeError>)
        requires
            old(self).wf(),
        ensures
            final(self).buf@ == old(self).buf@,
            final(self).wf(),
            match s_array_header(old(self).buf@, old(self).pos as int) {
                Ok((l, e)) => r == Ok::<Len, DecodeError>(l) && final(self).pos == e,
                Err(er) => r == Err::<Len, DecodeError>(er) && final(self).pos == old(self).pos,
            },
    {
        let start = self.pos;
        match self.read_head() {
            Ok((major, len)) => {
                if major == 4 {
                    Ok(len)
                } else {
                    self.pos = start;
                    Err(DecodeError::MalformedEncoding { stage: Stage::Header, offset: start })
                }
            },
            Err(e) => Err(e),
        }
    }

    /// Read a map header; the length argument counts key/value pairs.
    pub fn read_map_header(&mut self) -> (r: Result<Len, DecodeError>)
        requires
            old(self).wf(),
        ensures
            final(self).buf@ == old(self).buf@,
            final(self).wf(),
            match s_map_header(old(self).buf@, old(self).pos as int) {
                Ok((l, e)) => r == Ok::<Len, DecodeError>(l) && final(self).pos == e,
                Err(er) => r == Err::<Len, DecodeError>(er) && final(self).pos == old(self).pos,
            },
    {
        let start = self.pos;
        match self.read_head() {
            Ok((major, len)) => {
                if major == 5 {
                    Ok(len)
                } else {
                    self.pos = start;
                    Err(DecodeError::MalformedEncoding { stage: Stage::Header, offset: start })
                }
            },
            Err(e) => Err(e),
        }
    }

    /// Read `n` raw bytes.
    pub fn read_exact(&mut self, n: usize) -> (r: Result<Vec<u8>, DecodeError>)
        requires
            old(self).wf(),
        ensures
            final(self).buf@ == old(self).buf@,
            final(self).wf(),
            if old(self).pos + n <= old(self).buf@.len() {
                r matches Ok(v) && v@ == old(self).buf@.subrange(
                    old(self).pos as int,
                    old(self).pos + n,
                ) && final(self).pos == old(self).pos + n
            } else {
                r == Err::<Vec<u8>, DecodeError>(
                    DecodeError::MalformedEncoding { stage: Stage::Bytes, offset: old(self).pos },
                ) && final(self).pos == old(self).pos
            },
    {
        let rem = self.buf.len() - self.pos;
        if n <= rem {
            let sl = slice_subrange(self.buf, self.pos, self.pos + n);
            let v = slice_to_vec(sl);
            self.pos = self.pos + n;
            Ok(v)
        } else {
            Err(DecodeError::MalformedEncoding { stage: Stage::Bytes, offset: self.pos })
        }
    }
}

} // verus!

verus! {

impl<'a> Reader<'a> {
    /// Skip one whole item, descending into nested arrays, maps and tags.
    pub fn skip_item(&mut self) -> (r: Result<(), DecodeError>)
        requires
            old(self).wf(),
        ensures
            final(self).buf@ == old(self).buf@,
            final(self).wf(),
            r matches Ok(_) ==> s_skip(old(self).buf@, old(self).pos as int) == Some(
                final(self).pos as int,
            ) && old(self).pos < final(self).pos,
            r matches Err(e) ==> s_skip(old(self).buf@, old(self).pos as int) is None && e
                == (DecodeError::MalformedEncoding { stage: Stage::Item, offset: old(self).pos }),
        decreases self.buf@.len() - self.pos,
    {
        let ghost gb = self.buf@;
        let start = self.pos;
        let head = match self.read_head() {
            Ok(h) => h,
            Err(_) => {
                return Err(DecodeError::MalformedEncoding { stage: Stage::Item, offset: start });
            },
        };
        let (major, len) = head;
        proof {
            lemma_head_bounds(gb, start as int);
        }
        if major == 0 || major == 1 {
            Ok(())
        } else if major == 2 || major == 3 {
            match len {
                Len::Def(n) => {
                    let rem = self.buf.len() - self.pos;
                    if n <= rem as u64 {
                        self.pos = self.pos + n as usize;
                        Ok(())
                    } else {
                        self.pos = start;
                        Err(DecodeError::MalformedEncoding { stage: Stage::Item, offset: start })
                    }
                },
                Len::Indef => {
                    self.pos = start;
                    Err(DecodeError::MalformedEncoding { stage: Stage::Item, offset: start })
                },
            }
        } else if major == 4 || major == 5 {
            match len {
                Len::Def(n0) => {
                    let pairs: bool = major == 5;
                    let ghost e0 = self.pos as int;
                    let ghost total: int = if pairs {
                        2 * (n0 as int)
                    } else {
                        n0 as int
                    };
                    proof {
                        assert(s_skip(gb, start as int) == s_skip_n(gb, e0, total));
                    }
                    let mut k: u64 = 0;
                    while k < n0
                        invariant
                            k <= n0,
                            self.wf(),
                            self.buf@ == gb,
                            gb == old(self).buf@,
                            start == old(self).pos,
                            start < self.pos,
                            total == if pairs {
                                2 * (n0 as int)
                            } else {
                                n0 as int
                            },
                            s_skip_n(
                                gb,
                                self.pos as int,
                                if pairs {
                                    2 * ((n0 - k) as int)
                                } else {
                                    (n0 - k) as int
                                },
                            ) == s_skip_n(gb, e0, total),
                            s_skip(gb, start as int) == s_skip_n(gb, e0, total),
                        decreases n0 - k,
                    {
                        let ghost rest: int = if pairs {
                            2 * ((n0 - k) as int)
                        } else {
                            (n0 - k) as int
                        };
                        let ghost p1 = self.pos as int;
                        match self.skip_item() {
                            Ok(_) => {
                            },
                            Err(_) => {
                                proof {
                                    assert(s_skip_n(gb, p1, rest) is None);
                                }
                                return Err(
                                    DecodeError::MalformedEncoding {
                                        stage: Stage::Item,
                                        offset: start,
                                    },
                                );
                            },
                        }
                        proof {
                            assert(s_skip_n(gb, p1, rest) == s_skip_n(gb, self.pos as int, rest - 1));
                        }
                        if pairs {
                            let ghost p2 = self.pos as int;
                            match self.skip_item() {
                                Ok(_) => {
                                },
                                Err(_) => {
                                    proof {
                                        assert(s_skip_n(gb, p2, rest - 1) is None);
                                    }
                                    return Err(
                                        DecodeError::MalformedEncoding {
                                            stage: Stage::Item,
                                            offset: start,
                                        },
                                    );
                                },
                            }
                            proof {
                                assert(s_skip_n(gb, p2, rest - 1) == s_skip_n(
                                    gb,
                                    self.pos as int,
                                    rest - 2,
                                ));
                            }
                        }
                        k = k + 1;
                    }
                    proof {
                        assert(s_skip_n(gb, self.pos as int, 0) == Some(self.pos as int));
                    }
                    Ok(())
                },
                Len::Indef => {
                    let ghost e0 = self.pos as int;
                    proof {
                        assert(s_skip(gb, start as int) == s_skip_until_break(gb, e0));
                    }
                    while !self.peek_is_break()
                        invariant
                            self.wf(),
                            self.buf@ == gb,
                            gb == old(self).buf@,
                            start == old(self).pos,
                            start < self.pos,
                            s_skip_until_break(gb, self.pos as int) == s_skip_until_break(gb, e0),
                            s_skip(gb, start as int) == s_skip_until_break(gb, e0),
                        decreases gb.len() - self.pos,
                    {
                        let ghost p1 = self.pos as int;
                        match self.skip_item() {
                            Ok(_) => {
                            },
                            Err(_) => {
                                proof {
                                    assert(s_skip_until_break(gb, p1) is None);
                                }
                                return Err(
                                    DecodeError::MalformedEncoding {
                                        stage: Stage::Item,
                                        offset: start,
                                    },
                                );
                            },
                        }
                        proof {
                            assert(s_skip_until_break(gb, p1) == s_skip_until_break(
                                gb,
                                self.pos as int,
                            ));
                        }
                    }
                    proof {
                        assert(s_skip_until_break(gb, self.pos as int) == Some(self.pos + 1));
                    }
                    let nlen = self.buf.len();
                    proof {
                        assert(self.pos < nlen);
                    }
                    self.pos = self.pos + 1;
                    Ok(())
                },
            }
        } else if major == 6 {
            match self.skip_item() {
                Ok(_) => Ok(()),
                Err(_) => Err(DecodeError::MalformedEncoding { stage: Stage::Item, offset: start }),
            }
        } else {
            match len {
                Len::Def(_) => Ok(()),
                Len::Indef => {
                    self.pos = start;
                    Err(DecodeError::MalformedEncoding { stage: Stage::Item, offset: start })
                },
            }
        }
    }
}

} // verus!

verus! {

// ---------------------------------------------------------------------------
// Encoding
// ---------------------------------------------------------------------------
/// The minimal-length head encoding of an item with major type `major`
/// and argument `n`.
pub open spec fn s_enc_head(major: u8, n: u64) -> Seq<u8> {
    if n < 24 {
        seq![((major as int) * 32 + (n as int)) as u8]
    } else if n < 256 {
        seq![((major as int) * 32 + 24) as u8, n as u8]
    } else if n < 65536 {
        seq![((major as int) * 32 + 25) as u8] + be_bytes(n, 2)
    } else if n < 0x1_0000_0000 {
        seq![((major as int) * 32 + 26) as u8] + be_bytes(n, 4)
    } else {
        seq![((major as int) * 32 + 27) as u8] + be_bytes(n, 8)
    }
}

/// The encoding of a definite byte string.
pub open spec fn s_enc_bytes(p: Seq<u8>) -> Seq<u8> {
    s_enc_head(2, p.len() as u64) + p
}

/// The encoding of a definite text string with the given UTF-8 bytes.
pub open spec fn s_enc_text(p: Seq<u8>) -> Seq<u8> {
    s_enc_head(3, p.len() as u64) + p
}

/// Position-advancing writer producing the encodings above.
pub struct Writer {
    pub out: Vec<u8>,
}

impl Writer {
    /// Start with an empty output.
    pub fn new() -> (r: Self)
        ensures
            r.out@ == Seq::<u8>::empty(),
    {
        Writer { out: Vec::new() }
    }

    /// Append the minimal-length head for major type `major`, argument `n`.
    pub fn write_head(&mut self, major: u8, n: u64)
        requires
            major <= 7,
        ensures
            final(self).out@ == old(self).out@ + s_enc_head(major, n),
    {
        let base: u8 = major * 32;
        if n < 24 {
            self.out.push(base + n as u8);
            proof {
                assert(self.out@ =~= old(self).out@ + s_enc_head(major, n));
            }
        } else if n < 256 {
            self.out.push(base + 24);
            self.out.push(n as u8);
            proof {
                assert(self.out@ =~= old(self).out@ + s_enc_head(major, n));
            }
        } else if n < 65536 {
            let q1 = n / 256;
            self.out.push(base + 25);
            self.out.push((q1 % 256) as u8);
            self.out.push((n % 256) as u8);
            proof {
                assert(be_bytes(q1 / 256, 0) =~= Seq::<u8>::empty());
                assert(be_bytes(q1, 1) =~= seq![(q1 % 256) as u8]);
                assert(be_bytes(n, 2) =~= seq![(q1 % 256) as u8, (n % 256) as u8]);
                assert(self.out@ =~= old(self).out@ + s_enc_head(major, n));
            }
        } else if n < 0x1_0000_0000 {
            let q1 = n / 256;
            let q2 = q1 / 256;
            let q3 = q2 / 256;
            self.out.push(base + 26);
            self.out.push((q3 % 256) as u8);
            self.out.push((q2 % 256) as u8);
            self.out.push((q1 % 256) as u8);
            self.out.push((n % 256) as u8);
            proof {
                assert(be_bytes(q3 / 256, 0) =~= Seq::<u8>::empty());
                assert(be_bytes(q3, 1) =~= seq![(q3 % 256) as u8]);
                assert(be_bytes(q2, 2) =~= seq![(q3 % 256) as u8, (q2 % 256) as u8]);
                assert(be_bytes(q1, 3) =~= seq![(q3 % 256) as u8, (q2 % 256) as u8, (q1 % 256) as u8]);
                assert(be_bytes(n, 4) =~= seq![
                    (q3 % 256) as u8,
                    (q2 % 256) as u8,
                    (q1 % 256) as u8,
                    (n % 256) as u8,
                ]);
                assert(self.out@ =~= old(self).out@ + s_enc_head(major, n));
            }
        } else {
            let q1 = n / 256;
            let q2 = q1 / 256;
            let q3 = q2 / 256;
            let q4 = q3 / 256;
            let q5 = q4 / 256;
            let q6 = q5 / 256;
            let q7 = q6 / 256;
            self.out.push(base + 27);
            self.out.push((q7 % 256) as u8);
            self.out.push((q6 % 256) as u8);
            self.out.push((q5 % 256) as u8);
            self.out.push((q4 % 256) as u8);
            self.out.push((q3 % 256) as u8);
            self.out.push((q2 % 256) as u8);
            self.out.push((q1 % 256) as u8);
            self.out.push((n % 256) as u8);
            proof {
                assert(be_bytes(q7 / 256, 0) =~= Seq::<u8>::empty());
                assert(be_bytes(q7, 1) =~= seq![(q7 % 256) as u8]);
                assert(be_bytes(q6, 2) =~= seq![(q7 % 256) as u8, (q6 % 256) as u8]);
                assert(be_bytes(q5, 3) =~= seq![(q7 % 256) as u8, (q6 % 256) as u8, (q5 % 256) as u8]);
                assert(be_bytes(q4, 4) =~= seq![
                    (q7 % 256) as u8,
                    (q6 % 256) as u8,
                    (q5 % 256) as u8,
                    (q4 % 256) as u8,
                ]);
                assert(be_bytes(q3, 5) =~= seq![
                    (q7 % 256) as u8,
                    (q6 % 256) as u8,
                    (q5 % 256) as u8,
                    (q4 % 256) as u8,
                    (q3 % 256) as u8,
                ]);
                assert(be_bytes(q2, 6) =~= seq![
                    (q7 % 256) as u8,
                    (q6 % 256) as u8,
                    (q5 % 256) as u8,
                    (q4 % 256) as u8,
                    (q3 % 256) as u8,
                    (q2 % 256) as u8,
                ]);
                assert(be_bytes(q1, 7) =~= seq![
                    (q7 % 256) as u8,
                    (q6 % 256) as u8,
                    (q5 % 256) as u8,
                    (q4 % 256) as u8,
                    (q3 % 256) as u8,
                    (q2 % 256) as u8,
                    (q1 % 256) as u8,
                ]);
                assert(be_bytes(n, 8) =~= seq![
                    (q7 % 256) as u8,
                    (q6 % 256) as u8,
                    (q5 % 256) as u8,
                    (q4 % 256) as u8,
                    (q3 % 256) as u8,
                    (q2 % 256) as u8,
                    (q1 % 256) as u8,
                    (n % 256) as u8,
                ]);
                assert(self.out@ =~= old(self).out@ + s_enc_head(major, n));
            }
        }
    }

    /// Append the raw bytes of `p`.
    pub fn write_raw(&mut self, p: &Vec<u8>)
        ensures
            final(self).out@ == old(self).out@ + p@,
    {
        let mut k: usize = 0;
        while k < p.len()
            invariant
                k <= p@.len(),
                self.out@ == old(self).out@ + p@.take(k as int),
            decreases p@.len() - k,
        {
            self.out.push(p[k]);
            proof {
                assert(old(self).out@ + p@.take(k + 1) =~= (old(self).out@ + p@.take(
                    k as int,
                )).push(p@[k as int]));
            }
            k = k + 1;
        }
        proof {
            assert(p@.take(p@.len() as int) =~= p@);
        }
    }

    /// Append a definite byte string item holding `p`.
    pub fn write_bytes(&mut self, p: &Vec<u8>)
        ensures
            final(self).out@ == old(self).out@ + s_enc_bytes(p@),
    {
        self.write_head(2, p.len() as u64);
        self.write_raw(p);
        proof {
            assert(old(self).out@ + s_enc_bytes(p@) =~= old(self).out@ + s_enc_head(
                2,
                p@.len() as u64,
            ) + p@);
        }
    }

    /// Append a definite text string item holding the UTF-8 bytes `p`.
    pub fn write_text(&mut self, p: &Vec<u8>)
        ensures
            final(self).out@ == old(self).out@ + s_enc_text(p@),
    {
        self.write_head(3, p.len() as u64);
        self.write_raw(p);
        proof {
            assert(old(self).out@ + s_enc_text(p@) =~= old(self).out@ + s_enc_head(
                3,
                p@.len() as u64,
            ) + p@);
        }
    }

    /// Append an array header announcing `n` elements.
    pub fn write_array_header(&mut self, n: u64)
        ensures
            final(self).out@ == old(self).out@ + s_enc_head(4, n),
    {
        self.write_head(4, n);
    }

    /// Append a map header announcing `n` key/value pairs.
    pub fn write_map_header(&mut self, n: u64)
        ensures
            final(self).out@ == old(self).out@ + s_enc_head(5, n),
    {
        self.write_head(5, n);
    }

    /// Append an unsigned integer item.
    pub fn write_uint(&mut self, n: u64)
        ensures
            final(self).out@ == old(self).out@ + s_enc_head(0, n),
    {
        self.write_head(0, n);
    }

    /// Hand out the bytes written so far.
    pub fn finish(self) -> (r: Vec<u8>)
        ensures
            r@ == self.out@,
    {
        self.out
    }
}

} // verus!
