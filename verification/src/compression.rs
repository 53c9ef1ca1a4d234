//! Transaction compression for the wire.
//!
//! The fixed 1604-byte packed transaction starts with a 1312-byte region
//! holding the signature fragment, which is all zero for many transactions.
//! On send, trailing zero bytes of that region are stripped; on receive,
//! the blob is padded back to 1604 bytes with zeros at the same offset.

use vstd::prelude::*;

verus! {

/// Size of a packed transaction.
pub const TRANSACTION_BYTE_LEN: usize = 1604;

/// Size of the compressible signature region at the start of a packed
/// transaction.
pub const SIG_REGION_BYTE_LEN: usize = 1312;

/// Size of the part of a packed transaction that is never compressed.
pub const NON_SIG_BYTE_LEN: usize = 292;

/// Length of the signature region once its trailing zero bytes up to
/// position `i` are stripped.
pub open spec fn stripped_sig_len(s: Seq<u8>, i: int) -> int
    decreases i,
{
    if i <= 0 {
        0
    } else if s[i - 1] == 0 {
        stripped_sig_len(s, i - 1)
    } else {
        i
    }
}

/// The compressed form of a 1604-byte packed transaction: the signature
/// region without its trailing zero bytes, then the rest.
pub open spec fn spec_compress(s: Seq<u8>) -> Seq<u8> {
    s.subrange(0, stripped_sig_len(s, 1312)) + s.subrange(1312, 1604)
}

/// The uncompressed form of a wire blob: the partial signature region,
/// zero padding up to 1312 bytes, then the rest.
pub open spec fn spec_uncompress(s: Seq<u8>) -> Seq<u8> {
    let sig_len = s.len() - 292;
    s.subrange(0, sig_len) + Seq::new((1312 - sig_len) as nat, |i: int| 0u8) + s.subrange(
        sig_len,
        s.len() as int,
    )
}

proof fn lemma_stripped_sig_zeros(s: Seq<u8>, i: int, j: int)
    requires
        0 <= stripped_sig_len(s, i),
        stripped_sig_len(s, i) <= j < i,
    ensures
        s[j] == 0,
    decreases i,
{
    if j < i - 1 {
        lemma_stripped_sig_zeros(s, i - 1, j);
    }
}

proof fn lemma_stripped_sig_bounds(s: Seq<u8>, i: int)
    requires
        0 <= i,
    ensures
        0 <= stripped_sig_len(s, i) <= i,
    decreases i,
{
    if i > 0 {
        lemma_stripped_sig_bounds(s, i - 1);
    }
}

/// Law: uncompressing a compressed transaction returns the original
/// 1604-byte blob.
pub proof fn lemma_uncompress_compress(s: Seq<u8>)
    requires
        s.len() == 1604,
    ensures
        spec_uncompress(spec_compress(s)) == s,
{
    lemma_stripped_sig_bounds(s, 1312);
    let l = stripped_sig_len(s, 1312);
    let c = spec_compress(s);
    assert(c.len() == l + 292);
    let u = spec_uncompress(c);
    assert forall|k: int| 0 <= k < 1604 implies u[k] == s[k] by {
        if k < l {
            assert(c.subrange(0, l)[k] == s.subrange(0, l)[k]);
        } else if k < 1312 {
            lemma_stripped_sig_zeros(s, 1312, k);
        } else {
        }
    }
    assert(u =~= s);
}

/// Strips the trailing zero bytes of the signature region of a 1604-byte
/// packed transaction.
pub fn compress_transaction_bytes(bytes: &Vec<u8>) -> (r: Vec<u8>)
    requires
        bytes@.len() == 1604,
    ensures
        r@ == spec_compress(bytes@),
        292 <= r@.len() <= 1604,
{
    let mut sig_len: usize = 1312;
    loop
        invariant
            bytes@.len() == 1604,
            sig_len <= 1312,
            stripped_sig_len(bytes@, 1312) == stripped_sig_len(bytes@, sig_len as int),
        ensures
            sig_len as int == stripped_sig_len(bytes@, 1312),
        decreases sig_len,
    {
        if sig_len == 0 {
            break;
        }
        if bytes[sig_len - 1] != 0 {
            break;
        }
        sig_len -= 1;
    }
    proof {
        lemma_stripped_sig_bounds(bytes@, 1312);
    }
    let mut out: Vec<u8> = Vec::new();
    let mut i: usize = 0;
    while i < sig_len
        invariant
            bytes@.len() == 1604,
            sig_len <= 1312,
            i <= sig_len,
            out@ == bytes@.subrange(0, i as int),
        decreases sig_len - i,
    {
        out.push(bytes[i]);
        i += 1;
        proof {
            assert(out@ =~= bytes@.subrange(0, i as int));
        }
    }
    let mut j: usize = 1312;
    while j < 1604
        invariant
            bytes@.len() == 1604,
            sig_len <= 1312,
            1312 <= j <= 1604,
            out@ == bytes@.subrange(0, sig_len as int) + bytes@.subrange(1312, j as int),
        decreases 1604 - j,
    {
        out.push(bytes[j]);
        j += 1;
        proof {
            assert(out@ =~= bytes@.subrange(0, sig_len as int) + bytes@.subrange(
                1312,
                j as int,
            ));
        }
    }
    out
}

/// Pads a wire blob back to the fixed 1604-byte packed transaction,
/// inserting zeros at the end of the signature region.
pub fn uncompress_transaction_bytes(bytes: &Vec<u8>) -> (r: Vec<u8>)
    requires
        292 <= bytes@.len() <= 1604,
    ensures
        r@ == spec_uncompress(bytes@),
        r@.len() == 1604,
{
    let n = bytes.len();
    let sig_len = n - 292;
    let ghost target = spec_uncompress(bytes@);
    assert(target.len() == 1604);
    let mut out: Vec<u8> = Vec::new();
    let mut i: usize = 0;
    while i < sig_len
        invariant
            n == bytes@.len(),
            292 <= n <= 1604,
            sig_len == n - 292,
            i <= sig_len,
            target == spec_uncompress(bytes@),
            out@ == target.subrange(0, i as int),
        decreases sig_len - i,
    {
        out.push(bytes[i]);
        i += 1;
        proof {
            assert(out@ =~= target.subrange(0, i as int));
        }
    }
    let mut j: usize = sig_len;
    while j < 1312
        invariant
            n == bytes@.len(),
            292 <= n <= 1604,
            sig_len == n - 292,
            sig_len <= j <= 1312,
            target == spec_uncompress(bytes@),
            out@ == target.subrange(0, j as int),
        decreases 1312 - j,
    {
        out.push(0u8);
        j += 1;
        proof {
            assert(out@ =~= target.subrange(0, j as int));
        }
    }
    let mut k: usize = sig_len;
    while k < n
        invariant
            n == bytes@.len(),
            292 <= n <= 1604,
            sig_len == n - 292,
            sig_len <= k <= n,
            target == spec_uncompress(bytes@),
            out@ == target.subrange(0, 1312 + (k - sig_len)),
        decreases n - k,
    {
        out.push(bytes[k]);
        k += 1;
        proof {
            assert(out@ =~= target.subrange(0, 1312 + (k - sig_len)));
        }
    }
    proof {
        assert(target.subrange(0, 1604) =~= target);
    }
    out
}

} // verus!
