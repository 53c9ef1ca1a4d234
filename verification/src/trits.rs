//! Balanced-ternary primitives.
//!
//! A *trit* is a balanced ternary digit in `{-1, 0, 1}`.  The wire encoding
//! packs five trits into one byte (`T5B1`): a byte with balanced value `x`
//! in `[-121, 121]` stores trit `e` as digit `e` of the base-3 expansion of
//! `x + 121`, shifted down by one.

use vstd::prelude::*;
use vstd::arithmetic::div_mod::{
    lemma_fundamental_div_mod, lemma_fundamental_div_mod_converse_div,
    lemma_fundamental_div_mod_converse_mod,
};

verus! {

/// Number of trits packed into one byte.
pub const TRITS_PER_BYTE: usize = 5;

/// Offset that maps a balanced byte value into `[0, 242]`.
pub const BALANCE: i8 = 121;

/// `3^e` for small `e`.
pub open spec fn pow3(e: nat) -> int
    decreases e,
{
    if e == 0 {
        1
    } else {
        3 * pow3((e - 1) as nat)
    }
}

/// The concrete values of `pow3` on the five packed positions.
pub proof fn lemma_pow3_vals()
    ensures
        pow3(0) == 1,
        pow3(1) == 3,
        pow3(2) == 9,
        pow3(3) == 27,
        pow3(4) == 81,
{
    reveal_with_fuel(pow3, 6);
}

/// Digit `k` of the base-3 expansion of `u`.
pub open spec fn digit3(u: int, k: nat) -> int {
    (u / pow3(k)) % 3
}

/// The trit stored at position `e` of a byte with balanced value `x`.
pub open spec fn extract_spec(x: int, e: nat) -> int {
    digit3(x + 121, e) - 1
}

/// Balanced value packing the five trits `t0..t4` into one byte.
pub open spec fn pack5(t0: int, t1: int, t2: int, t3: int, t4: int) -> int {
    (t0 + 1) + 3 * (t1 + 1) + 9 * (t2 + 1) + 27 * (t3 + 1) + 81 * (t4 + 1) - 121
}

/// `x` with trit `e` replaced by `t`; all other trit positions keep their value.
pub open spec fn insert_spec(x: int, e: nat, t: int) -> int {
    x + (t - extract_spec(x, e)) * pow3(e)
}

/// `t` is a balanced ternary digit.
pub open spec fn is_trit(t: int) -> bool {
    -1 <= t <= 1
}

/// `x` is the balanced value of a valid packed byte.
pub open spec fn is_balanced_byte(x: int) -> bool {
    -121 <= x <= 121
}

/// Base-3 digits of a five-digit number are recovered by division and
/// remainder: if `u = d0 + 3 d1 + 9 d2 + 27 d3 + 81 d4` with every `di` in
/// `[0, 3)`, then digit `k` of `u` is `dk`.
proof fn lemma_digit3_of_sum(d0: int, d1: int, d2: int, d3: int, d4: int, k: nat)
    requires
        0 <= d0 < 3,
        0 <= d1 < 3,
        0 <= d2 < 3,
        0 <= d3 < 3,
        0 <= d4 < 3,
        k < 5,
    ensures
        digit3(d0 + 3 * d1 + 9 * d2 + 27 * d3 + 81 * d4, k) == if k == 0 {
            d0
        } else if k == 1 {
            d1
        } else if k == 2 {
            d2
        } else if k == 3 {
            d3
        } else {
            d4
        },
{
    lemma_pow3_vals();
    let u = d0 + 3 * d1 + 9 * d2 + 27 * d3 + 81 * d4;
    if k == 0 {
        assert(u / 1 == u) by (nonlinear_arith);
        let q = d1 + 3 * d2 + 9 * d3 + 27 * d4;
        lemma_fundamental_div_mod_converse_mod(u, 3, q, d0);
    } else if k == 1 {
        let q = d1 + 3 * d2 + 9 * d3 + 27 * d4;
        lemma_fundamental_div_mod_converse_div(u, 3, q, d0);
        lemma_fundamental_div_mod_converse_mod(q, 3, d2 + 3 * d3 + 9 * d4, d1);
    } else if k == 2 {
        let q = d2 + 3 * d3 + 9 * d4;
        lemma_fundamental_div_mod_converse_div(u, 9, q, d0 + 3 * d1);
        lemma_fundamental_div_mod_converse_mod(q, 3, d3 + 3 * d4, d2);
    } else if k == 3 {
        let q = d3 + 3 * d4;
        lemma_fundamental_div_mod_converse_div(u, 27, q, d0 + 3 * d1 + 9 * d2);
        lemma_fundamental_div_mod_converse_mod(q, 3, d4, d3);
    } else {
        lemma_fundamental_div_mod_converse_div(u, 81, d4, d0 + 3 * d1 + 9 * d2 + 27 * d3);
        lemma_fundamental_div_mod_converse_mod(d4, 3, 0, d4);
    }
}

/// Extracting from a packed byte returns the packed trits.
pub proof fn lemma_extract_pack5(t0: int, t1: int, t2: int, t3: int, t4: int, e: nat)
    requires
        is_trit(t0),
        is_trit(t1),
        is_trit(t2),
        is_trit(t3),
        is_trit(t4),
        e < 5,
    ensures
        extract_spec(pack5(t0, t1, t2, t3, t4), e) == if e == 0 {
            t0
        } else if e == 1 {
            t1
        } else if e == 2 {
            t2
        } else if e == 3 {
            t3
        } else {
            t4
        },
        is_balanced_byte(pack5(t0, t1, t2, t3, t4)),
{
    lemma_pow3_vals();
    lemma_digit3_of_sum(t0 + 1, t1 + 1, t2 + 1, t3 + 1, t4 + 1, e);
}

/// Every valid packed byte is the packing of its own five trits.
pub proof fn lemma_byte_decomposition(x: int)
    requires
        is_balanced_byte(x),
    ensures
        x == pack5(
            extract_spec(x, 0),
            extract_spec(x, 1),
            extract_spec(x, 2),
            extract_spec(x, 3),
            extract_spec(x, 4),
        ),
        forall|e: nat| e < 5 ==> is_trit(#[trigger] extract_spec(x, e)),
{
    let u = x + 121;
    lemma_pow3_vals();
    assert(u / 1 == u) by (nonlinear_arith);
    lemma_fundamental_div_mod(u, 3);
    lemma_fundamental_div_mod(u / 3, 3);
    lemma_fundamental_div_mod(u / 9, 3);
    lemma_fundamental_div_mod(u / 27, 3);
    lemma_fundamental_div_mod(u / 81, 3);
    assert((u / 3) / 3 == u / 9) by (nonlinear_arith)
        requires
            u >= 0,
    ;
    assert((u / 9) / 3 == u / 27) by (nonlinear_arith)
        requires
            u >= 0,
    ;
    assert((u / 27) / 3 == u / 81) by (nonlinear_arith)
        requires
            u >= 0,
    ;
    assert(u / 81 < 3) by (nonlinear_arith)
        requires
            0 <= u < 243,
    ;
    assert(u / 81 >= 0) by (nonlinear_arith)
        requires
            u >= 0,
    ;
    assert((u / 81) / 3 == 0) by (nonlinear_arith)
        requires
            0 <= u / 81 < 3,
    ;
    assert forall|e: nat| e < 5 implies is_trit(#[trigger] extract_spec(x, e)) by {
        if e == 0 {
        } else if e == 1 {
        } else if e == 2 {
        } else if e == 3 {
        } else {
        }
    }
}

/// Inserting a trit replaces exactly one position.
pub proof fn lemma_insert_extract(x: int, e: nat, t: int)
    requires
        is_balanced_byte(x),
        is_trit(t),
        e < 5,
    ensures
        is_balanced_byte(insert_spec(x, e, t)),
        extract_spec(insert_spec(x, e, t), e) == t,
        forall|e2: nat|
            e2 < 5 && e2 != e ==> #[trigger] extract_spec(insert_spec(x, e, t), e2)
                == extract_spec(x, e2),
{
    lemma_pow3_vals();
    lemma_byte_decomposition(x);
    let t0 = extract_spec(x, 0);
    let t1 = extract_spec(x, 1);
    let t2 = extract_spec(x, 2);
    let t3 = extract_spec(x, 3);
    let t4 = extract_spec(x, 4);
    let y = insert_spec(x, e, t);
    if e == 0 {
        assert(y == pack5(t, t1, t2, t3, t4));
        lemma_extract_pack5(t, t1, t2, t3, t4, 0);
        lemma_extract_pack5(t, t1, t2, t3, t4, 1);
        lemma_extract_pack5(t, t1, t2, t3, t4, 2);
        lemma_extract_pack5(t, t1, t2, t3, t4, 3);
        lemma_extract_pack5(t, t1, t2, t3, t4, 4);
    } else if e == 1 {
        assert(y == pack5(t0, t, t2, t3, t4));
        lemma_extract_pack5(t0, t, t2, t3, t4, 0);
        lemma_extract_pack5(t0, t, t2, t3, t4, 1);
        lemma_extract_pack5(t0, t, t2, t3, t4, 2);
        lemma_extract_pack5(t0, t, t2, t3, t4, 3);
        lemma_extract_pack5(t0, t, t2, t3, t4, 4);
    } else if e == 2 {
        assert(y == pack5(t0, t1, t, t3, t4));
        lemma_extract_pack5(t0, t1, t, t3, t4, 0);
        lemma_extract_pack5(t0, t1, t, t3, t4, 1);
        lemma_extract_pack5(t0, t1, t, t3, t4, 2);
        lemma_extract_pack5(t0, t1, t, t3, t4, 3);
        lemma_extract_pack5(t0, t1, t, t3, t4, 4);
    } else if e == 3 {
        assert(y == pack5(t0, t1, t2, t, t4));
        lemma_extract_pack5(t0, t1, t2, t, t4, 0);
        lemma_extract_pack5(t0, t1, t2, t, t4, 1);
        lemma_extract_pack5(t0, t1, t2, t, t4, 2);
        lemma_extract_pack5(t0, t1, t2, t, t4, 3);
        lemma_extract_pack5(t0, t1, t2, t, t4, 4);
    } else {
        assert(y == pack5(t0, t1, t2, t3, t));
        lemma_extract_pack5(t0, t1, t2, t3, t, 0);
        lemma_extract_pack5(t0, t1, t2, t3, t, 1);
        lemma_extract_pack5(t0, t1, t2, t3, t, 2);
        lemma_extract_pack5(t0, t1, t2, t3, t, 3);
        lemma_extract_pack5(t0, t1, t2, t3, t, 4);
    }
    assert forall|e2: nat| e2 < 5 && e2 != e implies #[trigger] extract_spec(y, e2)
        == extract_spec(x, e2) by {
        if e2 == 0 {
        } else if e2 == 1 {
        } else if e2 == 2 {
        } else if e2 == 3 {
        } else {
        }
    }
}

/// `3^e` for `e < 5`, as a run-time value.
pub fn pow3_small(e: usize) -> (r: u16)
    requires
        e < 5,
    ensures
        r == pow3(e as nat),
        1 <= r <= 81,
{
    proof {
        lemma_pow3_vals();
    }
    if e == 0 {
        1
    } else if e == 1 {
        3
    } else if e == 2 {
        9
    } else if e == 3 {
        27
    } else {
        81
    }
}

/// Reads the trit at position `elem` of the packed byte `x`.
pub fn extract(x: i8, elem: usize) -> (r: i8)
    requires
        is_balanced_byte(x as int),
        elem < 5,
    ensures
        r == extract_spec(x as int, elem as nat),
        is_trit(r as int),
{
    proof {
        lemma_byte_decomposition(x as int);
    }
    let p = pow3_small(elem);
    let u: u16 = (x as i16 + 121) as u16;
    let d: u16 = (u / p) % 3;
    (d as i8) - 1
}

/// Writes the trit `trit` at position `elem` of the packed byte `x`,
/// leaving the other four positions unchanged.
pub fn insert(x: i8, elem: usize, trit: i8) -> (r: i8)
    requires
        is_balanced_byte(x as int),
        is_trit(trit as int),
        elem < 5,
    ensures
        r == insert_spec(x as int, elem as nat, trit as int),
        is_balanced_byte(r as int),
        extract_spec(r as int, elem as nat) == trit as int,
        forall|e2: nat|
            e2 < 5 && e2 != elem ==> #[trigger] extract_spec(r as int, e2)
                == extract_spec(x as int, e2),
{
    proof {
        lemma_insert_extract(x as int, elem as nat, trit as int);
    }
    let cur = extract(x, elem);
    let p = pow3_small(elem) as i16;
    let r16: i16 = x as i16 + (trit - cur) as i16 * p;
    r16 as i8
}

/// The balanced value of a raw byte, reading it as a two's-complement
/// signed octet.
pub open spec fn balanced_of(b: u8) -> int {
    if b < 128 {
        b as int
    } else {
        b - 256
    }
}

/// A raw byte is a valid packed-trit byte when its balanced value is.
pub open spec fn is_valid_t5b1_byte(b: u8) -> bool {
    is_balanced_byte(balanced_of(b))
}

/// The trit at global position `i` of a packed byte string.
pub open spec fn trit_at(bytes: Seq<u8>, i: int) -> int {
    extract_spec(balanced_of(bytes[i / 5]), (i % 5) as nat)
}

/// Reads the balanced value of a raw byte, rejecting bytes outside the
/// packed-trit range.
pub fn byte_to_balanced(b: u8) -> (r: Option<i8>)
    ensures
        r is Some <==> is_valid_t5b1_byte(b),
        r is Some ==> r->0 as int == balanced_of(b),
{
    if b <= 121 {
        Some(b as i8)
    } else if b >= 135 {
        Some((b as i16 - 256) as i8)
    } else {
        None
    }
}

/// The raw byte whose balanced value is `x`.
pub open spec fn byte_of_balanced(x: int) -> u8 {
    if x >= 0 {
        x as u8
    } else {
        (x + 256) as u8
    }
}

/// The raw byte whose balanced value is `x`.
pub fn balanced_to_byte(x: i8) -> (r: u8)
    requires
        is_balanced_byte(x as int),
    ensures
        balanced_of(r) == x as int,
        r == byte_of_balanced(x as int),
        is_valid_t5b1_byte(r),
{
    if x >= 0 {
        x as u8
    } else {
        (x as i16 + 256) as u8
    }
}

} // verus!
