//! Transaction hashes.
//!
//! A hash is a fixed 243-trit value carried in its packed 49-byte form;
//! equality is bytewise on that packed encoding.  The *weight* of a hash is
//! the number of trailing zero trits and acts as the proof-of-work
//! magnitude.

use vstd::prelude::*;
use crate::trits::{
    balanced_of, balanced_to_byte, byte_to_balanced, extract, extract_spec, is_trit,
    is_valid_t5b1_byte, lemma_extract_pack5, pack5, trit_at,
};

verus! {

/// Number of trits in a hash.
pub const HASH_TRIT_LEN: usize = 243;

/// Number of bytes in the packed form of a hash.
pub const HASH_BYTE_LEN: usize = 49;

/// A byte string is a valid packed hash: 49 bytes, each in the packed-trit
/// range, with the two padding trits of the last byte zero.
pub open spec fn is_hash_bytes(s: Seq<u8>) -> bool {
    &&& s.len() == 49
    &&& forall|i: int| 0 <= i < 49 ==> is_valid_t5b1_byte(#[trigger] s[i])
    &&& trit_at(s, 243) == 0
    &&& trit_at(s, 244) == 0
}

/// A 243-trit value in its packed 49-byte form.
#[derive(Debug)]
pub struct Hash {
    bytes: Vec<u8>,
}

impl View for Hash {
    type V = Seq<u8>;

    closed spec fn view(&self) -> Seq<u8> {
        self.bytes@
    }
}

impl PartialEq for Hash {
    /// Bytewise equality on the packed encoding.
    fn eq(&self, other: &Self) -> (r: bool) {
        eq_bytes(&self.bytes, &other.bytes)
    }
}

impl vstd::std_specs::cmp::PartialEqSpecImpl for Hash {
    open spec fn obeys_eq_spec() -> bool {
        true
    }

    open spec fn eq_spec(&self, other: &Hash) -> bool {
        self@ == other@
    }
}

impl Clone for Hash {
    fn clone(&self) -> (r: Self)
        ensures
            r@ == self@,
    {
        Hash { bytes: copy_bytes(&self.bytes) }
    }
}

/// Bytewise comparison of two byte strings.
pub fn eq_bytes(a: &Vec<u8>, b: &Vec<u8>) -> (r: bool)
    ensures
        r <==> a@ == b@,
{
    if a.len() != b.len() {
        return false;
    }
    let n = a.len();
    let mut i: usize = 0;
    while i < n
        invariant
            n == a@.len() == b@.len(),
            i <= n,
            forall|j: int| 0 <= j < i ==> a@[j] == b@[j],
        decreases n - i,
    {
        if a[i] != b[i] {
            return false;
        }
        i += 1;
    }
    proof {
        assert(a@ =~= b@);
    }
    true
}

/// A fresh copy of a byte string.
pub fn copy_bytes(a: &Vec<u8>) -> (r: Vec<u8>)
    ensures
        r@ == a@,
{
    let n = a.len();
    let mut out: Vec<u8> = Vec::new();
    let mut i: usize = 0;
    while i < n
        invariant
            n == a@.len(),
            i <= n,
            out@ == a@.subrange(0, i as int),
        decreases n - i,
    {
        out.push(a[i]);
        i += 1;
        proof {
            assert(out@ =~= a@.subrange(0, i as int));
        }
    }
    proof {
        assert(a@.subrange(0, n as int) =~= a@);
    }
    out
}

/// A copy of the byte range `a[start .. end]`.
pub fn copy_bytes_range(a: &Vec<u8>, start: usize, end: usize) -> (r: Vec<u8>)
    requires
        start <= end <= a@.len(),
    ensures
        r@ == a@.subrange(start as int, end as int),
{
    let mut out: Vec<u8> = Vec::new();
    let mut i: usize = start;
    while i < end
        invariant
            start <= i <= end <= a@.len(),
            out@ == a@.subrange(start as int, i as int),
        decreases end - i,
    {
        out.push(a[i]);
        i += 1;
        proof {
            assert(out@ =~= a@.subrange(start as int, i as int));
        }
    }
    out
}

/// Count of trailing zero trits of `s` at positions `0..=i`, scanning down
/// from `i`.
pub open spec fn trailing_zeros_from(s: Seq<u8>, i: int) -> int
    decreases i + 1,
{
    if i < 0 {
        0
    } else if trit_at(s, i) == 0 {
        1 + trailing_zeros_from(s, i - 1)
    } else {
        0
    }
}

/// The weight of a packed hash: its number of trailing zero trits.
pub open spec fn spec_weight(s: Seq<u8>) -> int {
    trailing_zeros_from(s, 242)
}

proof fn lemma_trailing_zeros_range(s: Seq<u8>, i: int, k: int)
    requires
        0 <= i,
        i - 1 <= k <= 242,
        forall|j: int| i <= j <= k ==> trit_at(s, j) == 0,
        i == 0 || trit_at(s, i - 1) != 0,
    ensures
        trailing_zeros_from(s, k) == k + 1 - i,
    decreases k + 1,
{
    if k < i {
        if k >= 0 {
            assert(trit_at(s, k) != 0);
        }
    } else {
        lemma_trailing_zeros_range(s, i, k - 1);
    }
}

/// The trit packed at position `i` of a hash built from the window at
/// `start`: the window trit below position 243, zero padding above.
pub open spec fn window_trit(trits: Seq<i8>, start: int, i: int) -> int {
    if i < 243 {
        trits[start + i] as int
    } else {
        0
    }
}

/// The canonical packed 49-byte form of the 243 trits at `start`.
pub open spec fn packed_hash_bytes(trits: Seq<i8>, start: int) -> Seq<u8> {
    Seq::new(
        49,
        |b: int|
            crate::trits::byte_of_balanced(
                pack5(
                    window_trit(trits, start, 5 * b),
                    window_trit(trits, start, 5 * b + 1),
                    window_trit(trits, start, 5 * b + 2),
                    window_trit(trits, start, 5 * b + 3),
                    window_trit(trits, start, 5 * b + 4),
                ),
            ),
    )
}

impl Hash {
    /// The hash is well formed: a valid packed 243-trit value.
    pub open spec fn wf(&self) -> bool {
        is_hash_bytes(self@)
    }

    /// The trit at position `i` of the hash.
    pub open spec fn spec_trit(&self, i: int) -> int {
        trit_at(self@, i)
    }

    /// Wraps a packed byte string, rejecting strings that are not a valid
    /// packed 243-trit value.
    pub fn from_bytes(bytes: Vec<u8>) -> (r: Option<Hash>)
        ensures
            r is Some <==> is_hash_bytes(bytes@),
            r is Some ==> r->0@ == bytes@ && r->0.wf(),
    {
        if bytes.len() != 49 {
            return None;
        }
        let n = bytes.len();
        let mut i: usize = 0;
        while i < n
            invariant
                n == bytes@.len() == 49,
                i <= n,
                forall|j: int| 0 <= j < i ==> is_valid_t5b1_byte(#[trigger] bytes@[j]),
            decreases n - i,
        {
            if byte_to_balanced(bytes[i]).is_none() {
                return None;
            }
            i += 1;
        }
        let pad1 = trit_at_exec(&bytes, 243);
        let pad2 = trit_at_exec(&bytes, 244);
        if pad1 != 0 || pad2 != 0 {
            return None;
        }
        Some(Hash { bytes })
    }

    /// The all-zero hash.
    pub fn zeros() -> (r: Hash)
        ensures
            r.wf(),
            forall|i: int| 0 <= i < 49 ==> r@[i] == 0u8,
            forall|i: int| 0 <= i < 245 ==> #[trigger] trit_at(r@, i) == 0,
    {
        let mut bytes: Vec<u8> = Vec::new();
        let mut i: usize = 0;
        while i < 49
            invariant
                i <= 49,
                bytes@.len() == i,
                forall|j: int| 0 <= j < i ==> bytes@[j] == 0u8,
            decreases 49 - i,
        {
            bytes.push(0u8);
            i += 1;
        }
        proof {
            assert forall|k: int| 0 <= k < 245 implies #[trigger] trit_at(bytes@, k) == 0 by {
                assert(balanced_of(bytes@[k / 5]) == pack5(0, 0, 0, 0, 0));
                lemma_extract_pack5(0, 0, 0, 0, 0, (k % 5) as nat);
            }
        }
        Hash { bytes }
    }

    /// Whether the held bytes are a valid packed 243-trit value.  Always
    /// true of hashes the library builds; lets callers check a hash that
    /// arrived from outside before handing it back in.
    pub fn is_well_formed(&self) -> (r: bool)
        ensures
            r == self.wf(),
    {
        let n = self.bytes.len();
        if n != 49 {
            return false;
        }
        let mut i: usize = 0;
        while i < n
            invariant
                n == self@.len() == 49,
                i <= n,
                forall|j: int| 0 <= j < i ==> is_valid_t5b1_byte(#[trigger] self@[j]),
            decreases n - i,
        {
            if byte_to_balanced(self.bytes[i]).is_none() {
                return false;
            }
            i += 1;
        }
        let pad1 = trit_at_exec(&self.bytes, 243);
        let pad2 = trit_at_exec(&self.bytes, 244);
        pad1 == 0 && pad2 == 0
    }

    /// The packed bytes of the hash.
    pub fn as_bytes(&self) -> (r: &Vec<u8>)
        ensures
            r@ == self@,
    {
        &self.bytes
    }

    /// Packs the 243 trits `trits[start .. start + 243]` into a hash.
    pub fn from_trit_window(trits: &Vec<i8>, start: usize) -> (r: Hash)
        requires
            start + 243 <= trits@.len(),
            forall|i: int| 0 <= i < trits@.len() ==> is_trit((#[trigger] trits@[i]) as int),
        ensures
            r.wf(),
            forall|i: int|
                0 <= i < 243 ==> #[trigger] trit_at(r@, i) == trits@[start + i],
            r@ == packed_hash_bytes(trits@, start as int),
    {
        let n = trits.len();
        let mut bytes: Vec<u8> = Vec::new();
        let mut j: usize = 0;
        while j < 49
            invariant
                j <= 49,
                bytes@.len() == j,
                n == trits@.len(),
                start + 243 <= trits@.len(),
                forall|i: int| 0 <= i < trits@.len() ==> is_trit((#[trigger] trits@[i]) as int),
                forall|i: int| 0 <= i < j ==> is_valid_t5b1_byte(#[trigger] bytes@[i]),
                forall|i: int|
                    0 <= i < 5 * j && i < 243 ==> #[trigger] trit_at(bytes@, i)
                        == trits@[start + i],
                forall|i: int|
                    243 <= i < 5 * j ==> #[trigger] trit_at(bytes@, i) == 0,
                forall|b: int|
                    0 <= b < j ==> #[trigger] bytes@[b] == packed_hash_bytes(
                        trits@,
                        start as int,
                    )[b],
            decreases 49 - j,
        {
            let t0 = trits[start + 5 * j];
            let t1 = trits[start + 5 * j + 1];
            let t2 = trits[start + 5 * j + 2];
            let t3 = if j < 48 {
                trits[start + 5 * j + 3]
            } else {
                0
            };
            let t4 = if j < 48 {
                trits[start + 5 * j + 4]
            } else {
                0
            };
            let bal: i16 = (t0 as i16 + 1) + 3 * (t1 as i16 + 1) + 9 * (t2 as i16 + 1) + 27 * (
            t3 as i16 + 1) + 81 * (t4 as i16 + 1) - 121;
            proof {
                lemma_extract_pack5(t0 as int, t1 as int, t2 as int, t3 as int, t4 as int, 0);
                lemma_extract_pack5(t0 as int, t1 as int, t2 as int, t3 as int, t4 as int, 1);
                lemma_extract_pack5(t0 as int, t1 as int, t2 as int, t3 as int, t4 as int, 2);
                lemma_extract_pack5(t0 as int, t1 as int, t2 as int, t3 as int, t4 as int, 3);
                lemma_extract_pack5(t0 as int, t1 as int, t2 as int, t3 as int, t4 as int, 4);
            }
            let b = balanced_to_byte(bal as i8);
            let ghost pre = bytes@;
            bytes.push(b);
            proof {
                let bs = bytes@;
                let jj = j as int;
                assert(bs == pre.push(b));
                assert(b == crate::trits::byte_of_balanced(
                    pack5(
                        window_trit(trits@, start as int, 5 * jj),
                        window_trit(trits@, start as int, 5 * jj + 1),
                        window_trit(trits@, start as int, 5 * jj + 2),
                        window_trit(trits@, start as int, 5 * jj + 3),
                        window_trit(trits@, start as int, 5 * jj + 4),
                    ),
                ));
                assert(bs[jj] == packed_hash_bytes(trits@, start as int)[jj]);
                assert(balanced_of(b) == pack5(t0 as int, t1 as int, t2 as int, t3 as int,
                        t4 as int));
                assert forall|i: int| 0 <= i < 5 * (jj + 1) && i < 243 implies #[trigger] trit_at(
                    bs,
                    i,
                ) == trits@[start + i] by {
                    if i < 5 * jj {
                        assert(0 <= i / 5 < jj && bs[i / 5] == pre[i / 5]);
                        assert(trit_at(pre, i) == trits@[start + i]);
                    } else {
                        assert(i / 5 == jj && i % 5 == i - 5 * jj);
                        assert(bs[jj] == b);
                        let e = i % 5;
                        if e == 0 {
                            assert(trit_at(bs, i) == t0 as int);
                            assert(trits@[start + i] == t0);
                        } else if e == 1 {
                            assert(trit_at(bs, i) == t1 as int);
                            assert(trits@[start + i] == t1);
                        } else if e == 2 {
                            assert(trit_at(bs, i) == t2 as int);
                            assert(trits@[start + i] == t2);
                        } else if e == 3 {
                            assert(trit_at(bs, i) == t3 as int);
                            assert(trits@[start + i] == t3);
                        } else {
                            assert(trit_at(bs, i) == t4 as int);
                            assert(trits@[start + i] == t4);
                        }
                    }
                }
                assert forall|i: int| 243 <= i < 5 * (jj + 1) implies #[trigger] trit_at(bs, i)
                    == 0 by {
                    if i >= 5 * jj {
                        assert(i / 5 == jj && i % 5 == i - 5 * jj);
                    } else {
                        assert(0 <= i / 5 < jj && bs[i / 5] == pre[i / 5]);
                    }
                }
            }
            j += 1;
        }
        proof {
            assert(bytes@ =~= packed_hash_bytes(trits@, start as int));
        }
        Hash { bytes }
    }

    /// The number of trailing zero trits, used as the proof-of-work
    /// magnitude of the hash.
    pub fn weight(&self) -> (r: u8)
        requires
            self.wf(),
        ensures
            r as int == spec_weight(self@),
    {
        let mut i: usize = 243;
        loop
            invariant
                self.wf(),
                i <= 243,
                forall|j: int| i <= j < 243 ==> trit_at(self@, j) == 0,
            ensures
                forall|j: int| i <= j < 243 ==> trit_at(self@, j) == 0,
                i == 0 || trit_at(self@, i - 1) != 0,
            decreases i,
        {
            if i == 0 {
                break;
            }
            let t = trit_at_exec(&self.bytes, i - 1);
            if t != 0 {
                break;
            }
            i -= 1;
        }
        proof {
            lemma_trailing_zeros_range(self@, i as int, 242);
        }
        (243 - i) as u8
    }
}

/// Reads the trit at global position `i` of a packed byte string.
pub fn trit_at_exec(bytes: &Vec<u8>, i: usize) -> (r: i8)
    requires
        i < 5 * bytes@.len(),
        forall|j: int| 0 <= j < bytes@.len() ==> is_valid_t5b1_byte(#[trigger] bytes@[j]),
    ensures
        r as int == trit_at(bytes@, i as int),
        is_trit(r as int),
{
    let b = bytes[i / 5];
    let bal = match byte_to_balanced(b) {
        Some(x) => x,
        None => 0,  // unreachable: every byte is valid
    };
    extract(bal, i % 5)
}

} // verus!
