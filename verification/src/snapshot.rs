//! The snapshot state: the balance of every address at a snapshot.
//!
//! A snapshot file holds one `address;balance` line per address, the
//! address as 81 trytes and the balance as a decimal integer.  The
//! balances must sum to the fixed total supply.  Reading the file is I/O
//! and happens outside the library; this module turns the lines into the
//! state and enforces the supply invariant.

use vstd::prelude::*;
use crate::trits::{is_trit, trit_at};

verus! {

/// The fixed total supply every snapshot must account for.
pub const IOTA_SUPPLY: u64 = 2779530283277761;

/// How building a snapshot state can fail.
#[derive(Debug, PartialEq, Eq, Structural)]
pub enum SnapshotStateError {
    /// Reading the file failed; raised by the caller doing the I/O, never
    /// by the parser.
    IOError,
    /// A line's address token is not 81 trytes.
    InvalidAddress,
    /// A line has no balance token, or the token is not a decimal number
    /// that fits an unsigned 64-bit integer.
    InvalidBalance,
    /// The balances do not sum to the total supply: the claimed and the
    /// expected supply, the claimed one saturated at the 64-bit maximum.
    InvalidSupply(u64, u64),
}

/// The balanced value of a tryte character: `9` is zero, `A` through `M`
/// are one through thirteen, `N` through `Z` are minus thirteen through
/// minus one.
pub open spec fn tryte_val(c: u8) -> int {
    if c == 57 {
        0
    } else if 65 <= c <= 77 {
        c - 64
    } else {
        c - 64 - 27
    }
}

/// `c` is a tryte character.
pub open spec fn is_tryte_char(c: u8) -> bool {
    c == 57 || (65 <= c <= 90)
}

/// A valid address token: 81 tryte characters.
pub open spec fn addr_token_ok(s: Seq<u8>) -> bool {
    s.len() == 81 && forall|i: int| 0 <= i < 81 ==> is_tryte_char(#[trigger] s[i])
}

/// The decimal value of a digit string, most significant digit first.
pub open spec fn dec_value(s: Seq<u8>) -> int
    decreases s.len(),
{
    if s.len() == 0 {
        0
    } else {
        dec_value(s.drop_last()) * 10 + (s.last() - 48)
    }
}

/// A valid balance token: a non-empty digit string whose value fits an
/// unsigned 64-bit integer.
pub open spec fn balance_token_ok(s: Seq<u8>) -> bool {
    &&& s.len() >= 1
    &&& forall|i: int| 0 <= i < s.len() ==> 48 <= #[trigger] s[i] <= 57
    &&& dec_value(s) <= 0xffff_ffff_ffff_ffff
}

/// Reads a balance token.
pub fn parse_balance(s: &Vec<u8>) -> (r: Option<u64>)
    ensures
        r is Some <==> balance_token_ok(s@),
        r matches Some(v) ==> v == dec_value(s@),
{
    let n = s.len();
    if n == 0 {
        return None;
    }
    let mut v: u64 = 0;
    let mut i: usize = 0;
    while i < n
        invariant
            n == s@.len(),
            i <= n,
            forall|j: int| 0 <= j < i ==> 48 <= #[trigger] s@[j] <= 57,
            v == dec_value(s@.subrange(0, i as int)),
        decreases n - i,
    {
        let c = s[i];
        if c < 48 || c > 57 {
            return None;
        }
        let d = (c - 48) as u64;
        if v > (0xffff_ffff_ffff_ffffu64 - d) / 10 {
            proof {
                if balance_token_ok(s@) {
                    let p = s@.subrange(0, i + 1);
                    assert(p.drop_last() =~= s@.subrange(0, i as int));
                    assert(p.last() == s@[i as int]);
                    assert(dec_value(p) == v * 10 + (p.last() - 48));
                    assert(10 * ((0xffff_ffff_ffff_ffff - d) / 10) + (0xffff_ffff_ffff_ffff
                        - d) % 10 == 0xffff_ffff_ffff_ffff - d) by {
                        vstd::arithmetic::div_mod::lemma_fundamental_div_mod(
                            0xffff_ffff_ffff_ffff - d,
                            10,
                        );
                    }
                    assert(v * 10 >= ((0xffff_ffff_ffff_ffff - d) / 10) * 10 + 10) by (
                    nonlinear_arith)
                        requires
                            v >= (0xffff_ffff_ffff_ffff - d) / 10 + 1,
                    ;
                    lemma_dec_prefix_le(s@, i + 1);
                    assert(false);
                }
            }
            return None;
        }
        proof {
            let p = s@.subrange(0, i + 1);
            assert(p.drop_last() =~= s@.subrange(0, i as int));
            assert(p.last() == s@[i as int]);
            assert(10 * ((0xffff_ffff_ffff_ffff - d) / 10) + (0xffff_ffff_ffff_ffff - d) % 10 == (
            0xffff_ffff_ffff_ffff - d)) by {
                vstd::arithmetic::div_mod::lemma_fundamental_div_mod(
                    0xffff_ffff_ffff_ffff - d,
                    10,
                );
            }
        }
        v = v * 10 + d;
        i += 1;
    }
    proof {
        assert(s@.subrange(0, n as int) =~= s@);
    }
    Some(v)
}

/// A digit string denotes a nonnegative value.
proof fn lemma_dec_nonneg(s: Seq<u8>, k: int)
    requires
        0 <= k <= s.len(),
        forall|j: int| 0 <= j < s.len() ==> 48 <= #[trigger] s[j] <= 57,
    ensures
        dec_value(s.subrange(0, k)) >= 0,
    decreases k,
{
    if k == 0 {
        assert(s.subrange(0, 0) =~= Seq::<u8>::empty());
    } else {
        let p = s.subrange(0, k);
        assert(p.drop_last() =~= s.subrange(0, k - 1));
        lemma_dec_nonneg(s, k - 1);
        assert(dec_value(p) == dec_value(s.subrange(0, k - 1)) * 10 + (p.last() - 48));
        assert(dec_value(s.subrange(0, k - 1)) * 10 >= 0) by (nonlinear_arith)
            requires
                dec_value(s.subrange(0, k - 1)) >= 0,
        ;
    }
}

/// A digit prefix denotes at most the value of the whole digit string.
proof fn lemma_dec_prefix_le(s: Seq<u8>, k: int)
    requires
        0 <= k <= s.len(),
        forall|j: int| 0 <= j < s.len() ==> 48 <= #[trigger] s[j] <= 57,
    ensures
        dec_value(s.subrange(0, k)) <= dec_value(s),
        dec_value(s.subrange(0, k)) >= 0,
{
    lemma_dec_nonneg(s, k);
    if k < s.len() {
        lemma_dec_step(s, k);
    } else {
        assert(s.subrange(0, k) =~= s);
    }
}

/// Appending one digit does not decrease the value.
proof fn lemma_dec_step(s: Seq<u8>, k: int)
    requires
        0 <= k < s.len(),
        forall|j: int| 0 <= j < s.len() ==> 48 <= #[trigger] s[j] <= 57,
        dec_value(s.subrange(0, k)) >= 0,
    ensures
        dec_value(s.subrange(0, k)) <= dec_value(s),
    decreases s.len() - k,
{
    let p = s.subrange(0, k + 1);
    assert(p.drop_last() =~= s.subrange(0, k));
    assert(dec_value(p) == dec_value(s.subrange(0, k)) * 10 + (p.last() - 48));
    assert(dec_value(s.subrange(0, k)) * 10 >= dec_value(s.subrange(0, k))) by (nonlinear_arith)
        requires
            dec_value(s.subrange(0, k)) >= 0,
    ;
    assert(dec_value(s.subrange(0, k + 1)) >= 0) by {
        lemma_dec_nonneg(s, k + 1);
    }
    if k + 1 < s.len() {
        lemma_dec_step(s, k + 1);
    } else {
        assert(s.subrange(0, k + 1) =~= s);
    }
}

/// The trit at position `i` of an 81-tryte token: trit `i % 3` of tryte
/// `i / 3`, with zero padding above position 242.
pub open spec fn token_trit(token: Seq<u8>, i: int) -> int {
    if i < 243 {
        crate::trits::digit3(tryte_val(token[i / 3]) + 13, (i % 3) as nat) - 1
    } else {
        0
    }
}

/// The canonical packed 49-byte form of an 81-tryte address token.
pub open spec fn addr_bytes_of(token: Seq<u8>) -> Seq<u8> {
    Seq::new(
        49,
        |b: int|
            crate::trits::byte_of_balanced(
                crate::trits::pack5(
                    token_trit(token, 5 * b),
                    token_trit(token, 5 * b + 1),
                    token_trit(token, 5 * b + 2),
                    token_trit(token, 5 * b + 3),
                    token_trit(token, 5 * b + 4),
                ),
            ),
    )
}

/// Reads an 81-tryte address token into its packed 243-trit form.
pub fn parse_address(s: &Vec<u8>) -> (r: Option<crate::hash::Hash>)
    ensures
        r is Some <==> addr_token_ok(s@),
        r matches Some(h) ==> h.wf() && h@ == addr_bytes_of(s@) && forall|i: int|
            0 <= i < 81 ==> trits_of_tryte_at(h, s@, i),
{
    if s.len() != 81 {
        return None;
    }
    let mut trits: Vec<i8> = Vec::new();
    let mut i: usize = 0;
    while i < 81
        invariant
            s@.len() == 81,
            i <= 81,
            trits@.len() == 3 * i,
            forall|j: int| 0 <= j < i ==> is_tryte_char(#[trigger] s@[j]),
            forall|j: int| 0 <= j < trits@.len() ==> is_trit((#[trigger] trits@[j]) as int),
            forall|j: int|
                0 <= j < i ==> #[trigger] tryte_val(s@[j]) == trits@[3 * j] + 3 * trits@[3 * j
                    + 1] + 9 * trits@[3 * j + 2],
            forall|j: int| 0 <= j < 3 * i ==> #[trigger] trits@[j] as int == token_trit(s@, j),
        decreases 81 - i,
    {
        let c = s[i];
        let ok = c == 57 || (65 <= c && c <= 90);
        if !ok {
            return None;
        }
        let v: i16 = if c == 57 {
            0
        } else if c <= 77 {
            c as i16 - 64
        } else {
            c as i16 - 64 - 27
        };
        let u: i16 = v + 13;
        let d0 = (u % 3) as i8 - 1;
        let d1 = ((u / 3) % 3) as i8 - 1;
        let d2 = ((u / 9) % 3) as i8 - 1;
        proof {
            crate::trits::lemma_pow3_vals();
            lemma_tryte_digits(u as int);
            assert((u as int) / 1 == u as int) by (nonlinear_arith);
        }
        trits.push(d0);
        trits.push(d1);
        trits.push(d2);
        i += 1;
        proof {
            assert forall|j: int| 0 <= j < i implies #[trigger] tryte_val(s@[j]) == trits@[3 * j]
                + 3 * trits@[3 * j + 1] + 9 * trits@[3 * j + 2] by {}
            let ii = i as int - 1;
            assert forall|j: int| 0 <= j < 3 * i implies #[trigger] trits@[j] as int
                == token_trit(s@, j) by {
                if j >= 3 * ii {
                    vstd::arithmetic::div_mod::lemma_fundamental_div_mod_converse_div(
                        j,
                        3,
                        ii,
                        j - 3 * ii,
                    );
                    vstd::arithmetic::div_mod::lemma_fundamental_div_mod_converse_mod(
                        j,
                        3,
                        ii,
                        j - 3 * ii,
                    );
                    assert(j / 3 == ii && j % 3 == j - 3 * ii);
                }
            }
        }
    }
    let h = crate::hash::Hash::from_trit_window(&trits, 0);
    proof {
        assert forall|b: int| 0 <= b < 49 implies crate::hash::packed_hash_bytes(trits@, 0)[b]
            == addr_bytes_of(s@)[b] by {
            assert forall|i: int| 5 * b <= i < 5 * b + 5 implies crate::hash::window_trit(
                trits@,
                0,
                i,
            ) == token_trit(s@, i) by {
                if i < 243 {
                    assert(trits@[i] as int == token_trit(s@, i));
                }
            }
        }
        assert(crate::hash::packed_hash_bytes(trits@, 0) =~= addr_bytes_of(s@));
        assert forall|j: int| 0 <= j < 81 implies trits_of_tryte_at(h, s@, j) by {
            assert(trit_at(h@, 3 * j) == trits@[3 * j]);
            assert(trit_at(h@, 3 * j + 1) == trits@[3 * j + 1]);
            assert(trit_at(h@, 3 * j + 2) == trits@[3 * j + 2]);
        }
    }
    Some(h)
}

/// Tryte `i` of the token is packed at trit positions `3i .. 3i + 3` of
/// the address.
pub open spec fn trits_of_tryte_at(h: crate::hash::Hash, s: Seq<u8>, i: int) -> bool {
    tryte_val(s[i]) == trit_at(h@, 3 * i) + 3 * trit_at(h@, 3 * i + 1) + 9 * trit_at(
        h@,
        3 * i + 2,
    )
}

/// The three balanced digits of a shifted tryte value.
proof fn lemma_tryte_digits(u: int)
    requires
        0 <= u <= 26,
    ensures
        u % 3 - 1 + 3 * ((u / 3) % 3 - 1) + 9 * ((u / 9) % 3 - 1) == u - 13,
        0 <= u % 3 < 3,
        0 <= (u / 3) % 3 < 3,
        0 <= (u / 9) % 3 < 3,
{
    vstd::arithmetic::div_mod::lemma_fundamental_div_mod(u, 3);
    vstd::arithmetic::div_mod::lemma_fundamental_div_mod(u / 3, 3);
    assert((u / 3) / 3 == u / 9) by (nonlinear_arith)
        requires
            u >= 0,
    ;
    assert(u / 9 < 3) by (nonlinear_arith)
        requires
            0 <= u <= 26,
    ;
    assert(u / 9 >= 0) by (nonlinear_arith)
        requires
            u >= 0,
    ;
    assert((u / 9) % 3 == u / 9) by {
        vstd::arithmetic::div_mod::lemma_small_mod((u / 9) as nat, 3);
    }
}

/// `p` is the position of the first separator of the line.
pub open spec fn is_first_sep(line: Seq<u8>, p: int) -> bool {
    &&& 0 <= p < line.len()
    &&& line[p] == 59
    &&& forall|j: int| 0 <= j < p ==> line[j] != 59
}

/// The line holds a separator.
pub open spec fn has_sep(line: Seq<u8>) -> bool {
    exists|p: int| is_first_sep(line, p)
}

/// The position of the first separator.
pub open spec fn first_sep(line: Seq<u8>) -> int {
    choose|p: int| is_first_sep(line, p)
}

/// `q` closes the balance token: the next separator after the first, or
/// the end of the line.
pub open spec fn is_bal_end(line: Seq<u8>, q: int) -> bool {
    let p = first_sep(line);
    ||| (q == line.len() && forall|j: int| p < j < line.len() ==> line[j] != 59)
    ||| (p < q < line.len() && line[q] == 59 && forall|j: int| p < j < q ==> line[j] != 59)
}

/// The end of the balance token.
pub open spec fn bal_end(line: Seq<u8>) -> int {
    choose|q: int| is_bal_end(line, q)
}

/// The address token of a line: everything before the first separator.
pub open spec fn line_addr_token(line: Seq<u8>) -> Seq<u8> {
    line.subrange(0, first_sep(line))
}

/// The balance token of a line: everything between the first separator
/// and the next one or the line end.
pub open spec fn line_bal_token(line: Seq<u8>) -> Seq<u8> {
    line.subrange(first_sep(line) + 1, bal_end(line))
}

/// A line parses: it has a separator, an 81-tryte address token and a
/// decimal balance token.
pub open spec fn line_ok(line: Seq<u8>) -> bool {
    &&& has_sep(line)
    &&& addr_token_ok(line_addr_token(line))
    &&& balance_token_ok(line_bal_token(line))
}

/// The error a failing line raises: a missing or malformed balance token
/// reads as an invalid balance, a malformed address token as an invalid
/// address, checked address first.
pub open spec fn line_error(line: Seq<u8>) -> SnapshotStateError {
    if !has_sep(line) {
        SnapshotStateError::InvalidBalance
    } else if !addr_token_ok(line_addr_token(line)) {
        SnapshotStateError::InvalidAddress
    } else {
        SnapshotStateError::InvalidBalance
    }
}

proof fn lemma_first_sep_unique(line: Seq<u8>, p: int)
    requires
        is_first_sep(line, p),
    ensures
        first_sep(line) == p,
{
    let p2 = first_sep(line);
    if p2 < p {
        assert(line[p2] != 59);
    }
    if p < p2 {
        assert(line[p] != 59);
    }
}

proof fn lemma_bal_end_unique(line: Seq<u8>, q: int)
    requires
        is_bal_end(line, q),
    ensures
        bal_end(line) == q,
{
    let q2 = bal_end(line);
    if q2 < q {
        assert(q2 < line.len());
        if q2 > first_sep(line) {
            assert(line[q2] != 59);
        }
    }
    if q < q2 {
        assert(q < line.len());
        if q > first_sep(line) {
            assert(line[q] != 59);
        }
    }
}

/// The address of an entry packs the trytes of a token.
pub open spec fn entry_matches_token(h: crate::hash::Hash, token: Seq<u8>) -> bool {
    forall|t: int| 0 <= t < 81 ==> trits_of_tryte_at(h, token, t)
}

/// One parsed snapshot line: a packed address and its balance.
pub struct SnapshotEntry {
    pub address: crate::hash::Hash,
    pub balance: u64,
}

/// Splits a line at the first separator and parses both tokens.
pub fn parse_snapshot_line(line: &Vec<u8>) -> (r: Result<SnapshotEntry, SnapshotStateError>)
    ensures
        r is Ok <==> line_ok(line@),
        r matches Ok(e) ==> {
            &&& e.address.wf()
            &&& e.address@ == addr_bytes_of(line_addr_token(line@))
            &&& entry_matches_token(e.address, line_addr_token(line@))
            &&& e.balance == dec_value(line_bal_token(line@))
        },
        r matches Err(e) ==> e == line_error(line@),
{
    let n = line.len();
    let mut p: usize = 0;
    while p < n
        invariant
            n == line@.len(),
            p <= n,
            forall|j: int| 0 <= j < p ==> line@[j] != 59,
        ensures
            p <= n,
            forall|j: int| 0 <= j < p ==> line@[j] != 59,
            p == n || line@[p as int] == 59,
        decreases n - p,
    {
        if line[p] == 59 {
            break ;
        }
        p += 1;
    }
    if p == n {
        // no separator: there is no balance token
        proof {
            if has_sep(line@) {
                let p2 = first_sep(line@);
                assert(line@[p2] != 59);
            }
        }
        return Err(SnapshotStateError::InvalidBalance);
    }
    proof {
        assert(is_first_sep(line@, p as int));
        lemma_first_sep_unique(line@, p as int);
    }
    let addr_token = crate::hash::copy_bytes_range(line, 0, p);
    let mut q: usize = p + 1;
    while q < n
        invariant
            n == line@.len(),
            p < q,
            q <= n,
            first_sep(line@) == p as int,
            forall|j: int| p < j < q ==> line@[j] != 59,
        ensures
            p < q <= n,
            forall|j: int| p < j < q ==> line@[j] != 59,
            q == n || line@[q as int] == 59,
        decreases n - q,
    {
        if line[q] == 59 {
            break ;
        }
        q += 1;
    }
    proof {
        assert(is_bal_end(line@, q as int));
        lemma_bal_end_unique(line@, q as int);
    }
    let bal_token = crate::hash::copy_bytes_range(line, p + 1, q);
    let address = match parse_address(&addr_token) {
        Some(h) => h,
        None => {
            return Err(SnapshotStateError::InvalidAddress);
        },
    };
    let balance = match parse_balance(&bal_token) {
        Some(v) => v,
        None => {
            return Err(SnapshotStateError::InvalidBalance);
        },
    };
    Ok(SnapshotEntry { address, balance })
}

/// Sum of the balances of a run of parsed entries.
pub open spec fn entries_supply(s: Seq<SnapshotEntry>) -> int
    decreases s.len(),
{
    if s.len() == 0 {
        0
    } else {
        entries_supply(s.drop_last()) + s.last().balance
    }
}

/// Every line of the file parses.
pub open spec fn lines_all_ok(lines: Seq<Vec<u8>>) -> bool {
    forall|j: int| 0 <= j < lines.len() ==> line_ok((#[trigger] lines[j])@)
}

/// `l` is the first line that does not parse.
pub open spec fn is_first_bad(lines: Seq<Vec<u8>>, l: int) -> bool {
    &&& 0 <= l < lines.len()
    &&& !line_ok(lines[l]@)
    &&& forall|j: int| 0 <= j < l ==> line_ok((#[trigger] lines[j])@)
}

/// The first line that does not parse.
pub open spec fn first_bad(lines: Seq<Vec<u8>>) -> int {
    choose|l: int| is_first_bad(lines, l)
}

proof fn lemma_first_bad_unique(lines: Seq<Vec<u8>>, l: int)
    requires
        is_first_bad(lines, l),
    ensures
        first_bad(lines) == l,
{
    let l2 = first_bad(lines);
    if l2 < l {
        assert(line_ok(lines[l2]@));
    }
    if l < l2 {
        assert(line_ok(lines[l]@));
    }
}

/// Sum of the balances the first `k` lines state.
pub open spec fn lines_supply(lines: Seq<Vec<u8>>, k: int) -> int
    decreases k,
{
    if k <= 0 {
        0
    } else {
        lines_supply(lines, k - 1) + dec_value(line_bal_token(lines[k - 1]@))
    }
}

/// A claimed supply, saturated at the 64-bit maximum for reporting.
pub open spec fn supply_saturated(x: int) -> u64 {
    if x > 0xffff_ffff_ffff_ffff {
        0xffff_ffff_ffff_ffffu64
    } else if x < 0 {
        0u64
    } else {
        x as u64
    }
}

/// The entry carries the address and balance of some parsed entry.
pub open spec fn entry_from_parsed(e: (crate::hash::Hash, u64), parsed: Seq<SnapshotEntry>) -> bool {
    exists|j: int|
        0 <= j < parsed.len() && e.0@ == (#[trigger] parsed[j]).address@ && e.1 == parsed[
        j].balance
}

/// Some state entry carries this address.
pub open spec fn address_present(
    a: Seq<u8>,
    state: Seq<(crate::hash::Hash, u64)>,
) -> bool {
    exists|i: int| 0 <= i < state.len() && (#[trigger] state[i]).0@ == a
}

/// The balance of every address at a snapshot.
pub struct SnapshotState {
    state: Vec<(crate::hash::Hash, u64)>,
}

impl SnapshotState {
    /// The balances as an association list; keys are unique, a repeated
    /// address in the file keeps its last balance.
    pub closed spec fn state_seq(&self) -> Seq<(crate::hash::Hash, u64)> {
        self.state@
    }

    /// Addresses appear at most once.
    pub open spec fn wf(&self) -> bool {
        forall|i: int, j: int|
            0 <= i < j < self.state_seq().len() ==> (#[trigger] self.state_seq()[i]).0@ != (
            #[trigger] self.state_seq()[j]).0@
    }

    /// Builds the state from already-split lines: every line must parse
    /// and the balances must sum to the total supply.  A repeated address
    /// keeps one entry; the supply check runs over every stated balance.
    pub fn from_lines(lines: &Vec<Vec<u8>>) -> (r: Result<SnapshotState, SnapshotStateError>)
        ensures
            r is Ok <==> lines_all_ok(lines@) && lines_supply(lines@, lines@.len() as int)
                == IOTA_SUPPLY,
            r matches Ok(s) ==> s.wf() && s.state_seq().len() <= lines@.len() && (lines@.len()
                > 0 ==> s.state_seq().len() > 0) && (forall|i: int|
                0 <= i < s.state_seq().len() ==> (#[trigger] s.state_seq()[i]).0.wf()) && (
            forall|i: int|
                0 <= i < s.state_seq().len() ==> exists|j: int|
                    {
                        &&& 0 <= j < lines@.len()
                        &&& (#[trigger] s.state_seq()[i]).0@ == addr_bytes_of(
                            line_addr_token((#[trigger] lines@[j])@),
                        )
                        &&& s.state_seq()[i].1 == dec_value(line_bal_token(lines@[j]@))
                    }) && (forall|j: int|
                0 <= j < lines@.len() ==> exists|i: int|
                    0 <= i < s.state_seq().len() && (#[trigger] s.state_seq()[i]).0@
                        == addr_bytes_of(line_addr_token((#[trigger] lines@[j])@))),
            r matches Err(e) ==> (if lines_all_ok(lines@) {
                &&& e == SnapshotStateError::InvalidSupply(
                    supply_saturated(lines_supply(lines@, lines@.len() as int)),
                    IOTA_SUPPLY,
                )
                &&& lines_supply(lines@, lines@.len() as int) != IOTA_SUPPLY
            } else {
                e == line_error(lines@[first_bad(lines@)]@)
            }),
    {
        let (parsed, supply) = match Self::parse_lines(lines) {
            Ok(p) => p,
            Err(e) => {
                return Err(e);
            },
        };
        if supply != IOTA_SUPPLY as u128 {
            let claimed: u64 = if supply > 0xffff_ffff_ffff_ffffu128 {
                0xffff_ffff_ffff_ffffu64
            } else {
                supply as u64
            };
            return Err(SnapshotStateError::InvalidSupply(claimed, IOTA_SUPPLY));
        }
        let state = Self::dedup_entries(&parsed);
        let r = SnapshotState { state };
        proof {
            assert forall|i1: int| 0 <= i1 < r.state_seq().len() implies exists|j: int|
                {
                    &&& 0 <= j < lines@.len()
                    &&& (#[trigger] r.state_seq()[i1]).0@ == addr_bytes_of(
                        line_addr_token((#[trigger] lines@[j])@),
                    )
                    &&& r.state_seq()[i1].1 == dec_value(line_bal_token(lines@[j]@))
                } by {
                assert(entry_from_parsed(state@[i1], parsed@));
                let j0 = choose|j: int|
                    0 <= j < parsed@.len() && state@[i1].0@ == (#[trigger] parsed@[j]).address@
                        && state@[i1].1 == parsed@[j].balance;
                assert(0 <= j0 < lines@.len());
                assert(r.state_seq()[i1].0@ == addr_bytes_of(line_addr_token(lines@[j0]@)));
            }
            assert forall|j: int| 0 <= j < lines@.len() implies exists|i1: int|
                0 <= i1 < r.state_seq().len() && (#[trigger] r.state_seq()[i1]).0@
                    == addr_bytes_of(line_addr_token((#[trigger] lines@[j])@)) by {
                assert(address_present(parsed@[j].address@, state@));
                let i0 = choose|i1: int|
                    0 <= i1 < state@.len() && (#[trigger] state@[i1]).0@ == parsed@[j].address@;
                assert(r.state_seq()[i0].0@ == addr_bytes_of(line_addr_token(lines@[j]@)));
            }
        }
        Ok(r)
    }

    /// Collapses parsed entries to one per address; a later entry for the
    /// same address overwrites the earlier balance.
    #[verifier::rlimit(100)]
    fn dedup_entries(parsed: &Vec<SnapshotEntry>) -> (state: Vec<(crate::hash::Hash, u64)>)
        requires
            forall|j: int| 0 <= j < parsed@.len() ==> (#[trigger] parsed@[j]).address.wf(),
        ensures
            state@.len() <= parsed@.len(),
            parsed@.len() > 0 ==> state@.len() > 0,
            forall|i1: int, i2: int|
                0 <= i1 < i2 < state@.len() ==> (#[trigger] state@[i1]).0@ != (
                #[trigger] state@[i2]).0@,
            forall|i1: int| 0 <= i1 < state@.len() ==> (#[trigger] state@[i1]).0.wf(),
            forall|i1: int|
                0 <= i1 < state@.len() ==> entry_from_parsed(#[trigger] state@[i1], parsed@),
            forall|j: int|
                0 <= j < parsed@.len() ==> address_present(
                    (#[trigger] parsed@[j]).address@,
                    state@,
                ),
    {
        let mut state: Vec<(crate::hash::Hash, u64)> = Vec::new();
        let m = parsed.len();
        let mut k: usize = 0;
        while k < m
            invariant
                m == parsed@.len(),
                k <= m,
                state@.len() <= k,
                k > 0 ==> state@.len() > 0,
                forall|j: int| 0 <= j < m ==> (#[trigger] parsed@[j]).address.wf(),
                forall|i1: int, i2: int|
                    0 <= i1 < i2 < state@.len() ==> (#[trigger] state@[i1]).0@ != (
                    #[trigger] state@[i2]).0@,
                forall|i1: int| 0 <= i1 < state@.len() ==> (#[trigger] state@[i1]).0.wf(),
                forall|i1: int|
                    0 <= i1 < state@.len() ==> entry_from_parsed(#[trigger] state@[i1], parsed@),
                forall|j: int|
                    0 <= j < k ==> address_present((#[trigger] parsed@[j]).address@, state@),
            decreases m - k,
        {
            let addr = parsed[k].address.clone();
            let bal = parsed[k].balance;
            proof {
                assert(addr.wf()) by {
                    assert(parsed@[k as int].address.wf());
                }
            }
            let mut found = false;
            let sn = state.len();
            let mut si: usize = 0;
            while si < sn
                invariant_except_break
                    !found,
                    si <= sn,
                    forall|j: int| 0 <= j < si ==> (#[trigger] state@[j]).0@ != addr@,
                invariant
                    sn == state@.len(),
                ensures
                    found ==> si < sn && state@[si as int].0@ == addr@,
                    !found ==> forall|j: int| 0 <= j < sn ==> (#[trigger] state@[j]).0@ != addr@,
                decreases sn - si,
            {
                if state[si].0 == addr {
                    found = true;
                    break ;
                }
                si += 1;
            }
            if found {
                let ghost state_pre = state@;
                let elem = vstd::std_specs::vec::vec_index_mut(&mut state, si);
                *elem = (addr, bal);
                proof {
                    assert(state@ == state_pre.update(si as int, state@[si as int]));
                    assert(state@[si as int].0@ == state_pre[si as int].0@);
                    assert(forall|j: int|
                        0 <= j < state@.len() ==> (#[trigger] state@[j]).0@ == state_pre[j].0@);
                    assert forall|i1: int| 0 <= i1 < state@.len() implies entry_from_parsed(
                        #[trigger] state@[i1],
                        parsed@,
                    ) by {
                        if i1 == si as int {
                            assert(state@[i1].0@ == parsed@[k as int].address@ && state@[i1].1
                                == parsed@[k as int].balance);
                        } else {
                            assert(entry_from_parsed(state_pre[i1], parsed@));
                            let j0 = choose|j: int|
                                0 <= j < parsed@.len() && state_pre[i1].0@ == (
                                #[trigger] parsed@[j]).address@ && state_pre[i1].1 == parsed@[
                            j].balance;
                            assert(state@[i1].0@ == parsed@[j0].address@ && state@[i1].1
                                == parsed@[j0].balance);
                        }
                    }
                    assert forall|j: int| 0 <= j < k + 1 implies address_present(
                        (#[trigger] parsed@[j]).address@,
                        state@,
                    ) by {
                        if j == k as int {
                            assert(state@[si as int].0@ == parsed@[j].address@);
                        } else {
                            assert(address_present(parsed@[j].address@, state_pre));
                            let i0 = choose|i1: int|
                                0 <= i1 < state_pre.len() && (#[trigger] state_pre[i1]).0@
                                    == parsed@[j].address@;
                            assert(state@[i0].0@ == parsed@[j].address@);
                        }
                    }
                }
            } else {
                let ghost state_pre = state@;
                state.push((addr, bal));
                proof {
                    let last = state@.len() - 1;
                    assert(forall|j: int| 0 <= j < last ==> (#[trigger] state@[j]).0@ != addr@);
                    assert(state@[last].0@ == parsed@[k as int].address@ && state@[last].1
                        == parsed@[k as int].balance);
                    assert forall|i1: int| 0 <= i1 < state@.len() implies entry_from_parsed(
                        #[trigger] state@[i1],
                        parsed@,
                    ) by {
                        if i1 < last {
                            assert(entry_from_parsed(state_pre[i1], parsed@));
                            let j0 = choose|j: int|
                                0 <= j < parsed@.len() && state_pre[i1].0@ == (
                                #[trigger] parsed@[j]).address@ && state_pre[i1].1 == parsed@[
                            j].balance;
                            assert(state@[i1].0@ == parsed@[j0].address@ && state@[i1].1
                                == parsed@[j0].balance);
                        } else {
                            assert(state@[i1].0@ == parsed@[k as int].address@ && state@[i1].1
                                == parsed@[k as int].balance);
                        }
                    }
                    assert forall|j: int| 0 <= j < k + 1 implies address_present(
                        (#[trigger] parsed@[j]).address@,
                        state@,
                    ) by {
                        if j == k as int {
                            assert(state@[last].0@ == parsed@[j].address@);
                        } else {
                            assert(address_present(parsed@[j].address@, state_pre));
                            let i0 = choose|i1: int|
                                0 <= i1 < state_pre.len() && (#[trigger] state_pre[i1]).0@
                                    == parsed@[j].address@;
                            assert(state@[i0].0@ == parsed@[j].address@);
                        }
                    }
                }
            }
            k += 1;
        }
        state
    }

    /// Parses every line, or reports the error of the first line that
    /// does not parse; also sums the stated balances.
    fn parse_lines(lines: &Vec<Vec<u8>>) -> (r: Result<
        (Vec<SnapshotEntry>, u128),
        SnapshotStateError,
    >)
        ensures
            r is Ok <==> lines_all_ok(lines@),
            r matches Ok(p) ==> {
                &&& p.0@.len() == lines@.len()
                &&& p.1 == lines_supply(lines@, lines@.len() as int)
                &&& forall|j: int| 0 <= j < lines@.len() ==> (#[trigger] p.0@[j]).address.wf()
                &&& forall|j: int|
                    0 <= j < lines@.len() ==> (#[trigger] p.0@[j]).address@ == addr_bytes_of(
                        line_addr_token(lines@[j]@),
                    ) && p.0@[j].balance == dec_value(line_bal_token(lines@[j]@))
            },
            r matches Err(e) ==> !lines_all_ok(lines@) && e == line_error(
                lines@[first_bad(lines@)]@,
            ),
    {
        let n = lines.len();
        let mut supply: u128 = 0;
        let mut parsed: Vec<SnapshotEntry> = Vec::new();
        let mut i: usize = 0;
        while i < n
            invariant
                n == lines@.len(),
                i <= n,
                parsed@.len() == i,
                supply == lines_supply(lines@, i as int),
                supply <= i * 0xffff_ffff_ffff_ffff,
                forall|j: int| 0 <= j < i ==> line_ok((#[trigger] lines@[j])@),
                forall|j: int| 0 <= j < i ==> (#[trigger] parsed@[j]).address.wf(),
                forall|j: int|
                    0 <= j < i ==> (#[trigger] parsed@[j]).address@ == addr_bytes_of(
                        line_addr_token(lines@[j]@),
                    ) && parsed@[j].balance == dec_value(line_bal_token(lines@[j]@)),
            decreases n - i,
        {
            let entry = match parse_snapshot_line(&lines[i]) {
                Ok(e) => e,
                Err(e) => {
                    proof {
                        assert(is_first_bad(lines@, i as int));
                        lemma_first_bad_unique(lines@, i as int);
                        assert(!lines_all_ok(lines@));
                    }
                    return Err(e);
                },
            };
            proof {
                let m: int = i as int;
                assert(m * 0xffff_ffff_ffff_ffff + 0xffff_ffff_ffff_ffff == (m + 1)
                    * 0xffff_ffff_ffff_ffff) by (nonlinear_arith);
                assert((m + 1) * 0xffff_ffff_ffff_ffff <= 0xffff_ffff_ffff_ffff
                    * 0xffff_ffff_ffff_ffff) by (nonlinear_arith)
                    requires
                        0 <= m + 1 <= 0xffff_ffff_ffff_ffff,
                ;
            }
            supply = supply + entry.balance as u128;
            parsed.push(entry);
            i += 1;
        }
        Ok((parsed, supply))
    }

    /// The balances, one entry per address.
    pub fn state(&self) -> (r: &Vec<(crate::hash::Hash, u64)>)
        ensures
            r@ == self.state_seq(),
    {
        &self.state
    }

    /// Consumes the snapshot and returns the balances.
    pub fn into_state(self) -> (r: Vec<(crate::hash::Hash, u64)>)
        ensures
            r@ == self.state_seq(),
    {
        self.state
    }

    /// The balance recorded for an address, if one is.
    pub fn balance_of(&self, address: &crate::hash::Hash) -> (r: Option<u64>)
        requires
            self.wf(),
        ensures
            r is Some <==> exists|i: int|
                0 <= i < self.state_seq().len() && (#[trigger] self.state_seq()[i]).0@
                    == address@,
            r matches Some(v) ==> exists|i: int|
                0 <= i < self.state_seq().len() && (#[trigger] self.state_seq()[i]).0@ == address@
                    && self.state_seq()[i].1 == v,
    {
        let n = self.state.len();
        let mut i: usize = 0;
        while i < n
            invariant
                n == self.state_seq().len(),
                i <= n,
                forall|j: int| 0 <= j < i ==> (#[trigger] self.state_seq()[j]).0@ != address@,
            decreases n - i,
        {
            if self.state[i].0 == *address {
                proof {
                    assert(self.state_seq()[i as int].0@ == address@);
                }
                return Some(self.state[i].1);
            }
            i += 1;
        }
        None
    }
}

} // verus!
