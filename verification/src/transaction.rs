//! Decoded transactions.
//!
//! A packed transaction is 8019 trits laid out as: signature fragment,
//! address, value, obsolete tag, timestamp, current index, last index,
//! bundle, trunk, branch, tag, attachment timestamp, attachment bounds,
//! nonce.  A transaction is a *tail* exactly when its current index is
//! zero.  Transactions are immutable after construction.

use vstd::prelude::*;
use crate::trits::{is_trit, pow3, trit_at};

verus! {

/// Total number of trits in a packed transaction.
pub const TRANSACTION_TRIT_LEN: usize = 8019;

/// Trit offsets and lengths of the fields of a packed transaction.
pub const SIG_TRIT_OFFSET: usize = 0;

pub const SIG_TRIT_LEN: usize = 6561;

pub const ADDRESS_TRIT_OFFSET: usize = 6561;

pub const VALUE_TRIT_OFFSET: usize = 6804;

pub const VALUE_TRIT_LEN: usize = 81;

pub const OBSOLETE_TAG_TRIT_OFFSET: usize = 6885;

pub const TIMESTAMP_TRIT_OFFSET: usize = 6966;

pub const CURRENT_INDEX_TRIT_OFFSET: usize = 6993;

pub const LAST_INDEX_TRIT_OFFSET: usize = 7020;

pub const BUNDLE_TRIT_OFFSET: usize = 7047;

pub const TRUNK_TRIT_OFFSET: usize = 7290;

pub const BRANCH_TRIT_OFFSET: usize = 7533;

pub const TAG_TRIT_OFFSET: usize = 7776;

pub const TAG_TRIT_LEN: usize = 81;

pub const ATTACHMENT_TS_TRIT_OFFSET: usize = 7857;

pub const ATTACHMENT_LBTS_TRIT_OFFSET: usize = 7884;

pub const ATTACHMENT_UBTS_TRIT_OFFSET: usize = 7911;

pub const NONCE_TRIT_OFFSET: usize = 7938;

pub const NONCE_TRIT_LEN: usize = 81;

pub const SHORT_FIELD_TRIT_LEN: usize = 27;

/// How building a transaction from trits can fail.
#[derive(Debug, PartialEq, Eq, Structural)]
pub enum TransactionError {
    /// The value field does not fit a signed 64-bit integer.
    InvalidValue,
    /// The timestamp field is negative.
    InvalidTimestamp,
    /// The current-index field is negative.
    InvalidIndex,
    /// The last-index field is negative.
    InvalidLastIndex,
}

/// The integer denoted by the `len` trits at `start`, least significant
/// trit first.
pub open spec fn trits_value(s: Seq<i8>, start: int, len: nat) -> int
    decreases len,
{
    if len == 0 {
        0
    } else {
        s[start] + 3 * trits_value(s, start + 1, (len - 1) as nat)
    }
}

/// Every trit of `s[start .. start + len]` is a valid balanced digit.
pub open spec fn valid_trits(s: Seq<i8>, start: int, len: nat) -> bool {
    forall|i: int| start <= i < start + len ==> is_trit((#[trigger] s[i]) as int)
}

/// A `len`-trit value is bounded by `(3^len - 1) / 2` in magnitude.
pub proof fn lemma_trits_value_bound(s: Seq<i8>, start: int, len: nat)
    requires
        valid_trits(s, start, len),
    ensures
        2 * trits_value(s, start, len) <= pow3(len) - 1,
        2 * trits_value(s, start, len) >= 1 - pow3(len),
        pow3(len) >= 1,
    decreases len,
{
    if len == 0 {
    } else {
        lemma_trits_value_bound(s, start + 1, (len - 1) as nat);
    }
}

/// The top trit of a window contributes `t * 3^(len-1)`.
pub proof fn lemma_trits_value_split_top(s: Seq<i8>, start: int, len: nat)
    requires
        len >= 1,
    ensures
        trits_value(s, start, len) == trits_value(s, start, (len - 1) as nat) + s[start + len
            - 1] * pow3((len - 1) as nat),
    decreases len,
{
    if len == 1 {
        assert(pow3(0) == 1);
        assert(trits_value(s, start, 1) == s[start] + 3 * trits_value(s, start + 1, 0));
        assert(trits_value(s, start + 1, 0) == 0);
        assert(trits_value(s, start, 0) == 0);
        let t = s[start] as int;
        assert(t * 1 == t) by (nonlinear_arith);
        assert(s[start + len - 1] * pow3((len - 1) as nat) == t * 1);
    } else {
        lemma_trits_value_split_top(s, start + 1, (len - 1) as nat);
        let a = trits_value(s, start + 1, (len - 2) as nat);
        let t = s[start + len - 1] as int;
        let p = pow3((len - 2) as nat);
        assert(pow3((len - 1) as nat) == 3 * p);
        assert(trits_value(s, start, len) == s[start] + 3 * trits_value(
            s,
            start + 1,
            (len - 1) as nat,
        ));
        assert(trits_value(s, start, (len - 1) as nat) == s[start] + 3 * trits_value(
            s,
            start + 1,
            (len - 2) as nat,
        ));
        assert(trits_value(s, start + 1, (len - 1) as nat) == a + t * p);
        assert(3 * (a + t * p) == 3 * a + t * (3 * p)) by (nonlinear_arith);
        assert(trits_value(s, start, len) == (s[start] + 3 * a) + t * (3 * p));
    }
}

/// Zero trits above position `m` do not change the value.
pub proof fn lemma_trits_value_zero_suffix(s: Seq<i8>, start: int, m: nat, len: nat)
    requires
        m <= len,
        forall|i: int| start + m <= i < start + len ==> s[i] == 0,
    ensures
        trits_value(s, start, len) == trits_value(s, start, m),
    decreases len,
{
    if len > m {
        lemma_trits_value_split_top(s, start, len);
        assert(s[start + len - 1] == 0);
        assert(0 * pow3((len - 1) as nat) == 0) by (nonlinear_arith);
        lemma_trits_value_zero_suffix(s, start, m, (len - 1) as nat);
    }
}

/// The concrete sizes of the two field widths used below.
pub proof fn lemma_pow3_27()
    ensures
        pow3(27) == 7625597484987,
{
    reveal_with_fuel(pow3, 28);
}

pub proof fn lemma_pow3_41()
    ensures
        pow3(41) == 36472996377170786403,
{
    reveal_with_fuel(pow3, 42);
}

/// `pow3` is positive.
pub proof fn lemma_pow3_pos(a: nat)
    ensures
        pow3(a) >= 1,
    decreases a,
{
    if a > 0 {
        lemma_pow3_pos((a - 1) as nat);
    }
}

/// `pow3` grows with its argument.
pub proof fn lemma_pow3_increases(a: nat, b: nat)
    requires
        a <= b,
    ensures
        pow3(a) <= pow3(b),
        pow3(a) >= 1,
    decreases b,
{
    lemma_pow3_pos(a);
    if a < b {
        lemma_pow3_increases(a, (b - 1) as nat);
        lemma_pow3_pos((b - 1) as nat);
    }
}

/// A nonzero trit at or above position 41 pushes the value out of the
/// signed 64-bit range.
proof fn lemma_nonzero_high_trit(s: Seq<i8>, start: int, len: nat, k: nat)
    requires
        valid_trits(s, start, len),
        41 <= k < len,
        s[start + k] != 0,
    ensures
        2 * trits_value(s, start, len) > 2 * 0x7fff_ffff_ffff_ffffi64 || 2 * trits_value(
            s,
            start,
            len,
        ) < 2 * (-0x8000_0000_0000_0000i64),
    decreases len - k,
{
    if exists|j: int| k < j < len && #[trigger] s[start + j] != 0 {
        let j = choose|j: int| k < j < len && #[trigger] s[start + j] != 0;
        lemma_nonzero_high_trit(s, start, len, j as nat);
    } else {
        // every trit above k is zero, so the value ends at position k
        assert forall|i: int| start + (k + 1) <= i < start + len implies s[i] == 0 by {
            let j = i - start;
            assert(!(k < j < len && s[start + j] != 0));
        }
        lemma_trits_value_zero_suffix(s, start, (k + 1) as nat, len);
        lemma_trits_value_split_top(s, start, (k + 1) as nat);
        lemma_trits_value_bound(s, start, k);
        lemma_pow3_increases(41, k);
        lemma_pow3_41();
        let t = s[start + k] as int;
        assert(t == 1 || t == -1);
        assert(t == 1 ==> t * pow3(k) == pow3(k)) by (nonlinear_arith);
        assert(t == -1 ==> t * pow3(k) == -pow3(k)) by (nonlinear_arith);
    }
}

/// Copies the window `trits[start .. start + len]`.
pub fn copy_trit_window(trits: &Vec<i8>, start: usize, len: usize) -> (r: Vec<i8>)
    requires
        start + len <= trits@.len(),
    ensures
        r@ == trits@.subrange(start as int, start + len),
{
    let n = trits.len();
    let mut out: Vec<i8> = Vec::new();
    let mut i: usize = 0;
    while i < len
        invariant
            n == trits@.len(),
            start + len <= n,
            i <= len,
            out@ == trits@.subrange(start as int, start + i),
        decreases len - i,
    {
        out.push(trits[start + i]);
        i += 1;
        proof {
            assert(out@ =~= trits@.subrange(start as int, start + i));
        }
    }
    out
}

/// A fresh copy of a trit string.
pub fn copy_trits(v: &Vec<i8>) -> (r: Vec<i8>)
    ensures
        r@ == v@,
{
    let r = copy_trit_window(v, 0, v.len());
    proof {
        assert(v@.subrange(0, v@.len() as int) =~= v@);
    }
    r
}

/// Reads the `len`-trit window at `start` as a signed 64-bit integer,
/// returning nothing exactly when the value does not fit.
pub fn trits_window_to_i64(trits: &Vec<i8>, start: usize, len: usize) -> (r: Option<i64>)
    requires
        start + len <= trits@.len(),
        len <= 81,
        valid_trits(trits@, start as int, len as nat),
    ensures
        r matches Some(v) ==> v == trits_value(trits@, start as int, len as nat),
        r is Some <==> -0x8000_0000_0000_0000 <= trits_value(trits@, start as int, len as nat)
            <= 0x7fff_ffff_ffff_ffff,
{
    let n = trits.len();
    // a nonzero trit at position >= 41 cannot fit a 64-bit value
    let mut h: usize = 41;
    while h < len
        invariant
            n == trits@.len(),
            start + len <= n,
            len <= 81,
            valid_trits(trits@, start as int, len as nat),
            41 <= h,
            h <= len || h == 41,
            forall|i: int| 41 <= i < h ==> #[trigger] trits@[start + i] == 0,
        decreases len - h,
    {
        if trits[start + h] != 0 {
            proof {
                lemma_nonzero_high_trit(trits@, start as int, len as nat, h as nat);
            }
            return None;
        }
        h += 1;
    }
    let m: usize = if len < 41 {
        len
    } else {
        41
    };
    proof {
        assert forall|i: int| start + m <= i < start + len implies trits@[i] == 0 by {
            assert(trits@[start + (i - start)] == 0);
        }
        lemma_trits_value_zero_suffix(trits@, start as int, m as nat, len as nat);
        lemma_pow3_41();
        lemma_pow3_increases(0, 41);
    }
    let mut v: i128 = 0;
    let mut i: usize = m;
    while i > 0
        invariant
            n == trits@.len(),
            start + len <= n,
            m <= len <= 81,
            m <= 41,
            valid_trits(trits@, start as int, len as nat),
            i <= m,
            v == trits_value(trits@, start + i, (m - i) as nat),
            2 * v <= pow3((m - i) as nat) - 1,
            2 * v >= 1 - pow3((m - i) as nat),
            pow3((m - i) as nat) <= pow3(41),
            pow3(41) == 36472996377170786403,
        decreases i,
    {
        i -= 1;
        proof {
            lemma_pow3_increases((m - i) as nat, 41);
            lemma_trits_value_bound(trits@, start + i, (m - i) as nat);
        }
        v = v * 3 + trits[start + i] as i128;
    }
    if v < -0x8000_0000_0000_0000i128 || v > 0x7fff_ffff_ffff_ffffi128 {
        None
    } else {
        Some(v as i64)
    }
}

/// A decoded transaction.
pub struct Transaction {
    pub signature_fragments: Vec<i8>,
    pub address: crate::hash::Hash,
    pub value: i64,
    pub obsolete_tag: Vec<i8>,
    pub timestamp: u64,
    pub index: u64,
    pub last_index: u64,
    pub bundle: crate::hash::Hash,
    pub trunk: crate::hash::Hash,
    pub branch: crate::hash::Hash,
    pub tag: Vec<i8>,
    pub attachment_ts: i64,
    pub attachment_lbts: i64,
    pub attachment_ubts: i64,
    pub nonce: Vec<i8>,
}

/// The numeric fields of a packed transaction all fit their types.
pub open spec fn from_trits_ok(s: Seq<i8>) -> bool {
    &&& -0x8000_0000_0000_0000 <= trits_value(s, 6804, 81) <= 0x7fff_ffff_ffff_ffff
    &&& trits_value(s, 6966, 27) >= 0
    &&& trits_value(s, 6993, 27) >= 0
    &&& trits_value(s, 7020, 27) >= 0
}

/// The error reported for a packed transaction that fails to build: the
/// first numeric field that does not fit, in field order.
pub open spec fn from_trits_err(s: Seq<i8>) -> TransactionError {
    if !(-0x8000_0000_0000_0000 <= trits_value(s, 6804, 81) <= 0x7fff_ffff_ffff_ffff) {
        TransactionError::InvalidValue
    } else if trits_value(s, 6966, 27) < 0 {
        TransactionError::InvalidTimestamp
    } else if trits_value(s, 6993, 27) < 0 {
        TransactionError::InvalidIndex
    } else {
        TransactionError::InvalidLastIndex
    }
}

/// `t` holds exactly the fields laid out in the packed form `s`.
pub open spec fn parsed_from(t: Transaction, s: Seq<i8>) -> bool {
    &&& t.wf()
    &&& t.value == trits_value(s, 6804, 81)
    &&& t.timestamp == trits_value(s, 6966, 27)
    &&& t.index == trits_value(s, 6993, 27)
    &&& t.last_index == trits_value(s, 7020, 27)
    &&& forall|i: int| 0 <= i < 243 ==> #[trigger] trit_at(t.address@, i) == s[6561 + i]
    &&& forall|i: int| 0 <= i < 243 ==> #[trigger] trit_at(t.bundle@, i) == s[7047 + i]
    &&& forall|i: int| 0 <= i < 243 ==> #[trigger] trit_at(t.trunk@, i) == s[7290 + i]
    &&& forall|i: int| 0 <= i < 243 ==> #[trigger] trit_at(t.branch@, i) == s[7533 + i]
    &&& t.signature_fragments@ == s.subrange(0, 6561)
    &&& t.obsolete_tag@ == s.subrange(6885, 6966)
    &&& t.tag@ == s.subrange(7776, 7857)
    &&& t.nonce@ == s.subrange(7938, 8019)
    &&& t.attachment_ts == trits_value(s, 7857, 27)
    &&& t.attachment_lbts == trits_value(s, 7884, 27)
    &&& t.attachment_ubts == trits_value(s, 7911, 27)
}

/// Two transactions carry the same data.
pub open spec fn tx_eq(a: Transaction, b: Transaction) -> bool {
    &&& a.signature_fragments@ == b.signature_fragments@
    &&& a.address@ == b.address@
    &&& a.value == b.value
    &&& a.obsolete_tag@ == b.obsolete_tag@
    &&& a.timestamp == b.timestamp
    &&& a.index == b.index
    &&& a.last_index == b.last_index
    &&& a.bundle@ == b.bundle@
    &&& a.trunk@ == b.trunk@
    &&& a.branch@ == b.branch@
    &&& a.tag@ == b.tag@
    &&& a.attachment_ts == b.attachment_ts
    &&& a.attachment_lbts == b.attachment_lbts
    &&& a.attachment_ubts == b.attachment_ubts
    &&& a.nonce@ == b.nonce@
}

impl Clone for Transaction {
    fn clone(&self) -> (r: Self)
        ensures
            tx_eq(r, *self),
    {
        Transaction {
            signature_fragments: copy_trits(&self.signature_fragments),
            address: self.address.clone(),
            value: self.value,
            obsolete_tag: copy_trits(&self.obsolete_tag),
            timestamp: self.timestamp,
            index: self.index,
            last_index: self.last_index,
            bundle: self.bundle.clone(),
            trunk: self.trunk.clone(),
            branch: self.branch.clone(),
            tag: copy_trits(&self.tag),
            attachment_ts: self.attachment_ts,
            attachment_lbts: self.attachment_lbts,
            attachment_ubts: self.attachment_ubts,
            nonce: copy_trits(&self.nonce),
        }
    }
}

impl Transaction {
    /// The hashes carried by the transaction are well formed.
    pub open spec fn wf(&self) -> bool {
        &&& self.address.wf()
        &&& self.bundle.wf()
        &&& self.trunk.wf()
        &&& self.branch.wf()
    }

    /// The address the transaction moves value to or from.
    pub fn address(&self) -> (r: &crate::hash::Hash)
        ensures
            r == &self.address,
    {
        &self.address
    }

    /// The transferred value.
    pub fn value(&self) -> (r: i64)
        ensures
            r == self.value,
    {
        self.value
    }

    /// The hash of the bundle the transaction belongs to.
    pub fn bundle(&self) -> (r: &crate::hash::Hash)
        ensures
            r == &self.bundle,
    {
        &self.bundle
    }

    /// The first referenced predecessor.
    pub fn trunk(&self) -> (r: &crate::hash::Hash)
        ensures
            r == &self.trunk,
    {
        &self.trunk
    }

    /// The second referenced predecessor.
    pub fn branch(&self) -> (r: &crate::hash::Hash)
        ensures
            r == &self.branch,
    {
        &self.branch
    }

    /// The position of the transaction inside its bundle.
    pub fn index(&self) -> (r: u64)
        ensures
            r == self.index,
    {
        self.index
    }

    /// The last position inside the bundle.
    pub fn last_index(&self) -> (r: u64)
        ensures
            r == self.last_index,
    {
        self.last_index
    }

    /// A transaction is the tail of its bundle exactly when its index is
    /// zero.
    pub fn is_tail(&self) -> (r: bool)
        ensures
            r <==> self.index == 0,
    {
        self.index == 0
    }

    /// Builds a transaction from its 8019-trit packed form.  Fails exactly
    /// when the value field does not fit a signed 64-bit integer or when
    /// the timestamp, current-index or last-index field is negative,
    /// checked in that order.
    pub fn from_trits(trits: &Vec<i8>) -> (r: Result<Transaction, TransactionError>)
        requires
            trits@.len() == 8019,
            valid_trits(trits@, 0, 8019),
        ensures
            r is Ok <==> from_trits_ok(trits@),
            r matches Err(e) ==> e == from_trits_err(trits@),
            r matches Ok(t) ==> parsed_from(t, trits@),
    {
        let value = match trits_window_to_i64(trits, VALUE_TRIT_OFFSET, VALUE_TRIT_LEN) {
            Some(v) => v,
            None => {
                return Err(TransactionError::InvalidValue);
            },
        };
        let timestamp = match short_field_u64(trits, TIMESTAMP_TRIT_OFFSET) {
            Ok(v) => v,
            Err(_) => {
                return Err(TransactionError::InvalidTimestamp);
            },
        };
        let index = match short_field_u64(trits, CURRENT_INDEX_TRIT_OFFSET) {
            Ok(v) => v,
            Err(_) => {
                return Err(TransactionError::InvalidIndex);
            },
        };
        let last_index = match short_field_u64(trits, LAST_INDEX_TRIT_OFFSET) {
            Ok(v) => v,
            Err(_) => {
                return Err(TransactionError::InvalidLastIndex);
            },
        };
        let attachment_ts = short_field_i64(trits, ATTACHMENT_TS_TRIT_OFFSET);
        let attachment_lbts = short_field_i64(trits, ATTACHMENT_LBTS_TRIT_OFFSET);
        let attachment_ubts = short_field_i64(trits, ATTACHMENT_UBTS_TRIT_OFFSET);
        Ok(
            Transaction {
                signature_fragments: copy_trit_window(trits, SIG_TRIT_OFFSET, SIG_TRIT_LEN),
                address: crate::hash::Hash::from_trit_window(trits, ADDRESS_TRIT_OFFSET),
                value,
                obsolete_tag: copy_trit_window(trits, OBSOLETE_TAG_TRIT_OFFSET, 81),
                timestamp,
                index,
                last_index,
                bundle: crate::hash::Hash::from_trit_window(trits, BUNDLE_TRIT_OFFSET),
                trunk: crate::hash::Hash::from_trit_window(trits, TRUNK_TRIT_OFFSET),
                branch: crate::hash::Hash::from_trit_window(trits, BRANCH_TRIT_OFFSET),
                tag: copy_trit_window(trits, TAG_TRIT_OFFSET, TAG_TRIT_LEN),
                attachment_ts,
                attachment_lbts,
                attachment_ubts,
                nonce: copy_trit_window(trits, NONCE_TRIT_OFFSET, NONCE_TRIT_LEN),
            },
        )
    }
}

/// Reads a 27-trit field as a nonnegative integer, failing on negative
/// values.
fn short_field_u64(trits: &Vec<i8>, start: usize) -> (r: Result<u64, ()>)
    requires
        start + 27 <= trits@.len(),
        valid_trits(trits@, start as int, 27),
    ensures
        r is Ok <==> trits_value(trits@, start as int, 27) >= 0,
        r matches Ok(v) ==> v == trits_value(trits@, start as int, 27),
{
    proof {
        lemma_trits_value_bound(trits@, start as int, 27);
        lemma_pow3_27();
    }
    let v = match trits_window_to_i64(trits, start, 27) {
        Some(v) => v,
        None => 0,  // unreachable: 27 trits always fit
    };
    if v < 0 {
        Err(())
    } else {
        Ok(v as u64)
    }
}

/// Reads a 27-trit field as a signed integer; 27 trits always fit.
fn short_field_i64(trits: &Vec<i8>, start: usize) -> (r: i64)
    requires
        start + 27 <= trits@.len(),
        valid_trits(trits@, start as int, 27),
    ensures
        r == trits_value(trits@, start as int, 27),
{
    proof {
        lemma_trits_value_bound(trits@, start as int, 27);
        lemma_pow3_27();
    }
    match trits_window_to_i64(trits, start, 27) {
        Some(v) => v,
        None => 0,  // unreachable: 27 trits always fit
    }
}

} // verus!
