//! Packed-trit buffers.
//!
//! A `T5B1Buf` owns a byte string packing five trits per byte and grows
//! and shrinks one trit at a time.  The free functions convert a raw
//! packed byte string into its unpacked trit string.

use vstd::prelude::*;
use vstd::arithmetic::div_mod::{
    lemma_fundamental_div_mod, lemma_fundamental_div_mod_converse_div,
};
use crate::trits::{
    byte_to_balanced, extract, extract_spec, insert, is_balanced_byte, is_trit,
    is_valid_t5b1_byte, trit_at,
};
use crate::hash::trit_at_exec;
use crate::transaction::valid_trits;

verus! {

/// A growable buffer of trits in their packed five-per-byte form.  The
/// view is the sequence of held trits.
pub struct T5B1Buf {
    bytes: Vec<i8>,
    num_trits: usize,
}

impl View for T5B1Buf {
    type V = Seq<i8>;

    closed spec fn view(&self) -> Seq<i8> {
        Seq::new(
            self.num_trits as nat,
            |i: int| extract_spec(self.bytes@[i / 5] as int, (i % 5) as nat) as i8,
        )
    }
}

impl T5B1Buf {
    /// The backing bytes hold exactly the packed trits, all in range.
    pub closed spec fn wf(&self) -> bool {
        &&& self.bytes@.len() == (self.num_trits + 4) / 5
        &&& forall|i: int|
            0 <= i < self.bytes@.len() ==> is_balanced_byte((#[trigger] self.bytes@[i]) as int)
    }

    /// Creates an empty buffer.
    pub fn new() -> (r: T5B1Buf)
        ensures
            r.wf(),
            r@ == Seq::<i8>::empty(),
    {
        let r = T5B1Buf { bytes: Vec::new(), num_trits: 0 };
        proof {
            assert(r@ =~= Seq::<i8>::empty());
        }
        r
    }

    /// Number of held trits.
    pub fn len(&self) -> (r: usize)
        ensures
            r == self@.len(),
    {
        self.num_trits
    }

    /// The packed bytes of the buffer.
    pub fn as_i8_slice(&self) -> (r: &Vec<i8>)
        requires
            self.wf(),
        ensures
            r@.len() == (self@.len() + 4) / 5,
            forall|i: int|
                0 <= i < self@.len() ==> #[trigger] self@[i] as int == extract_spec(
                    r@[i / 5] as int,
                    (i % 5) as nat,
                ),
    {
        &self.bytes
    }

    /// Appends one trit.
    pub fn push(&mut self, trit: i8)
        requires
            old(self).wf(),
            is_trit(trit as int),
            old(self)@.len() < usize::MAX - 5,
        ensures
            final(self).wf(),
            final(self)@ == old(self)@.push(trit),
    {
        let n = self.num_trits;
        proof {
            lemma_fundamental_div_mod(n as int, 5);
        }
        if n % 5 == 0 {
            let b = insert(0, 0, trit);
            self.bytes.push(b);
            self.num_trits = n + 1;
            proof {
                lemma_fundamental_div_mod_converse_div(n + 5, 5, n as int / 5 + 1, 0);
                lemma_fundamental_div_mod_converse_div(n + 4, 5, n as int / 5, 4);
                assert(self.bytes@.len() == (self.num_trits + 4) / 5);
                assert forall|i: int| 0 <= i < self@.len() implies self@[i] == old(self)@.push(
                    trit,
                )[i] by {
                    lemma_fundamental_div_mod(i, 5);
                    if i < n {
                        assert(i / 5 < old(self).bytes@.len());
                        assert(self.bytes@[i / 5] == old(self).bytes@[i / 5]);
                    } else {
                        assert(i == n);
                        lemma_fundamental_div_mod_converse_div(n as int, 5, n as int / 5, 0);
                        assert(i / 5 == self.bytes@.len() - 1);
                        assert(i % 5 == 0);
                    }
                }
                assert(self@ =~= old(self)@.push(trit));
            }
        } else {
            let last_index = self.bytes.len() - 1;
            proof {
                lemma_fundamental_div_mod_converse_div(
                    n as int + 4,
                    5,
                    n as int / 5 + 1,
                    n as int % 5 - 1,
                );
                assert(last_index as int == n as int / 5);
            }
            let b = self.bytes[last_index];
            let b2 = insert(b, n % 5, trit);
            let elem = vstd::std_specs::vec::vec_index_mut(&mut self.bytes, last_index);
            *elem = b2;
            self.num_trits = n + 1;
            proof {
                lemma_fundamental_div_mod_converse_div(n + 5, 5, n as int / 5 + 1, n as int % 5);
                assert(self.bytes@.len() == (self.num_trits + 4) / 5);
                assert forall|i: int| 0 <= i < self@.len() implies self@[i] == old(self)@.push(
                    trit,
                )[i] by {
                    lemma_fundamental_div_mod(i, 5);
                    if i < n {
                        if i / 5 < last_index as int {
                            assert(self.bytes@[i / 5] == old(self).bytes@[i / 5]);
                        } else {
                            assert(i / 5 == last_index as int);
                            assert(i % 5 != n as int % 5) by {
                                if i % 5 == n as int % 5 {
                                    lemma_fundamental_div_mod_converse_div(
                                        i,
                                        5,
                                        n as int / 5,
                                        i % 5,
                                    );
                                    assert(i == n);
                                }
                            }
                            assert(extract_spec(b2 as int, (i % 5) as nat) == extract_spec(
                                b as int,
                                (i % 5) as nat,
                            ));
                        }
                    } else {
                        assert(i == n);
                        assert(i / 5 == last_index as int && i % 5 == n as int % 5);
                    }
                }
                assert(self@ =~= old(self)@.push(trit));
            }
        }
    }

    /// Removes and returns the most recently pushed trit.
    pub fn pop(&mut self) -> (r: Option<i8>)
        requires
            old(self).wf(),
        ensures
            final(self).wf(),
            r is Some <==> old(self)@.len() > 0,
            r is None ==> final(self)@ == old(self)@,
            r matches Some(t) ==> t == old(self)@.last() && final(self)@ == old(
                self,
            )@.drop_last(),
    {
        let n = self.num_trits;
        if n == 0 {
            return None;
        }
        proof {
            lemma_fundamental_div_mod(n as int, 5);
            lemma_fundamental_div_mod(n as int - 1, 5);
        }
        let last_index = self.bytes.len() - 1;
        proof {
            lemma_fundamental_div_mod_converse_div(
                n as int + 4,
                5,
                (n as int - 1) / 5 + 1,
                (n as int - 1) % 5,
            );
            assert(last_index as int == (n as int - 1) / 5);
        }
        let b = self.bytes[last_index];
        let t = extract(b, (n - 1) % 5);
        if n % 5 == 1 {
            self.bytes.pop();
            proof {
                lemma_fundamental_div_mod_converse_div(n as int + 3, 5, (n as int - 1) / 5, 4);
            }
        }
        self.num_trits = n - 1;
        proof {
            assert(self.bytes@.len() == (self.num_trits + 4) / 5);
            assert forall|i: int| 0 <= i < self@.len() implies self@[i] == old(self)@[i] by {
                lemma_fundamental_div_mod(i, 5);
                assert(i / 5 <= (n as int - 1) / 5) by {
                    vstd::arithmetic::div_mod::lemma_div_is_ordered(i, n as int - 1, 5);
                }
                assert(self.bytes@[i / 5] == old(self).bytes@[i / 5]);
            }
            assert(self@ =~= old(self)@.drop_last());
        }
        Some(t)
    }
}

/// Unpacks `num_trits` trits from a raw packed byte string, rejecting the
/// string when any byte is outside the packed-trit range.
pub fn t5b1_bytes_to_trits(bytes: &Vec<u8>, num_trits: usize) -> (r: Option<Vec<i8>>)
    requires
        num_trits <= 5 * bytes@.len(),
    ensures
        r is Some <==> (forall|i: int|
            0 <= i < bytes@.len() ==> is_valid_t5b1_byte(#[trigger] bytes@[i])),
        r matches Some(v) ==> {
            &&& v@.len() == num_trits
            &&& forall|i: int| 0 <= i < num_trits ==> #[trigger] v@[i] as int == trit_at(bytes@, i)
            &&& valid_trits(v@, 0, num_trits as nat)
        },
{
    let n = bytes.len();
    let mut i: usize = 0;
    while i < n
        invariant
            n == bytes@.len(),
            i <= n,
            forall|j: int| 0 <= j < i ==> is_valid_t5b1_byte(#[trigger] bytes@[j]),
        decreases n - i,
    {
        if byte_to_balanced(bytes[i]).is_none() {
            return None;
        }
        i += 1;
    }
    let mut out: Vec<i8> = Vec::new();
    let mut k: usize = 0;
    while k < num_trits
        invariant
            n == bytes@.len(),
            num_trits <= 5 * n,
            k <= num_trits,
            out@.len() == k,
            forall|j: int| 0 <= j < n ==> is_valid_t5b1_byte(#[trigger] bytes@[j]),
            forall|j: int| 0 <= j < k ==> #[trigger] out@[j] as int == trit_at(bytes@, j),
            forall|j: int| 0 <= j < k ==> is_trit((#[trigger] out@[j]) as int),
        decreases num_trits - k,
    {
        let t = trit_at_exec(bytes, k);
        out.push(t);
        k += 1;
    }
    Some(out)
}

} // verus!
