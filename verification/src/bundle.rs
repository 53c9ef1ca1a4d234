//! Bundles of transactions.
//!
//! A bundle is a non-empty ordered sequence of transactions sharing one
//! bundle hash; position 0 is the tail, the last position is the head.
//! The head's trunk and branch are the bundle's external references.  The
//! ledger diff of a bundle sums the transferred values per address and
//! keeps the addresses whose net change is not zero.

use vstd::prelude::*;
use crate::transaction::Transaction;

verus! {

/// Sum of the values of a sequence of transactions.
pub open spec fn sum_values(txs: Seq<Transaction>) -> int
    decreases txs.len(),
{
    if txs.len() == 0 {
        0
    } else {
        sum_values(txs.drop_last()) + txs.last().value
    }
}

/// Net value moved to or from address `a` by a sequence of transactions.
pub open spec fn net_value(txs: Seq<Transaction>, a: Seq<u8>) -> int
    decreases txs.len(),
{
    if txs.len() == 0 {
        0
    } else {
        net_value(txs.drop_last(), a) + if txs.last().address@ == a {
            txs.last().value as int
        } else {
            0
        }
    }
}

/// Sum of the entries of a ledger diff.
pub open spec fn diff_sum(d: Seq<(crate::hash::Hash, i64)>) -> int
    decreases d.len(),
{
    if d.len() == 0 {
        0
    } else {
        diff_sum(d.drop_last()) + d.last().1
    }
}

/// Sum of the entries of the wide accumulator used while building a diff.
pub open spec fn acc_sum(d: Seq<(crate::hash::Hash, i128)>) -> int
    decreases d.len(),
{
    if d.len() == 0 {
        0
    } else {
        acc_sum(d.drop_last()) + d.last().1
    }
}

/// `d` is the ledger diff of `txs`: unique addresses, each entry carrying
/// its nonzero net change, no address with zero net change, and the
/// entries summing to the total transferred value.
pub open spec fn is_ledger_diff(d: Seq<(crate::hash::Hash, i64)>, txs: Seq<Transaction>) -> bool {
    &&& forall|i: int, j: int| 0 <= i < j < d.len() ==> (#[trigger] d[i]).0@ != (#[trigger] d[j]).0@
    &&& forall|i: int|
        0 <= i < d.len() ==> (#[trigger] d[i]).1 == net_value(txs, d[i].0@) && d[i].1 != 0
    &&& forall|a: Seq<u8>|
        net_value(txs, a) != 0 ==> exists|i: int| 0 <= i < d.len() && (#[trigger] d[i]).0@ == a
    &&& diff_sum(d) == sum_values(txs)
}

/// Law: the ledger diff of a value-balanced bundle sums to zero.
pub proof fn lemma_ledger_diff_balanced(d: Seq<(crate::hash::Hash, i64)>, txs: Seq<Transaction>)
    requires
        is_ledger_diff(d, txs),
        sum_values(txs) == 0,
    ensures
        diff_sum(d) == 0,
{
}

proof fn lemma_acc_sum_push(d: Seq<(crate::hash::Hash, i128)>, p: (crate::hash::Hash, i128))
    ensures
        acc_sum(d.push(p)) == acc_sum(d) + p.1,
{
    assert(d.push(p).drop_last() =~= d);
}

proof fn lemma_acc_sum_update(d: Seq<(crate::hash::Hash, i128)>, k: int, p: (
    crate::hash::Hash,
    i128,
))
    requires
        0 <= k < d.len(),
    ensures
        acc_sum(d.update(k, p)) == acc_sum(d) - d[k].1 + p.1,
    decreases d.len(),
{
    if k == d.len() - 1 {
        assert(d.update(k, p).drop_last() =~= d.drop_last());
        assert(d.update(k, p).last() == p);
    } else {
        assert(d.update(k, p).drop_last() =~= d.drop_last().update(k, p));
        assert(d.update(k, p).last() == d.last());
        lemma_acc_sum_update(d.drop_last(), k, p);
    }
}

proof fn lemma_diff_sum_push(d: Seq<(crate::hash::Hash, i64)>, p: (crate::hash::Hash, i64))
    ensures
        diff_sum(d.push(p)) == diff_sum(d) + p.1,
{
    assert(d.push(p).drop_last() =~= d);
}

/// The net change of an address bounded by the number of transactions.
proof fn lemma_net_bound(txs: Seq<Transaction>, a: Seq<u8>)
    ensures
        net_value(txs, a) <= txs.len() * 0x7fff_ffff_ffff_ffff,
        net_value(txs, a) >= txs.len() * (-0x8000_0000_0000_0000),
    decreases txs.len(),
{
    if txs.len() > 0 {
        lemma_net_bound(txs.drop_last(), a);
        let n = txs.len() as int;
        assert((n - 1) * 0x7fff_ffff_ffff_ffff + 0x7fff_ffff_ffff_ffff == n
            * 0x7fff_ffff_ffff_ffff) by (nonlinear_arith);
        assert((n - 1) * (-0x8000_0000_0000_0000) + (-0x8000_0000_0000_0000) == n * (
        -0x8000_0000_0000_0000)) by (nonlinear_arith);
    }
}

/// An address that only appears with zero value has zero net change.
proof fn lemma_net_zero(txs: Seq<Transaction>, a: Seq<u8>)
    requires
        forall|j: int| 0 <= j < txs.len() && (#[trigger] txs[j]).address@ == a ==> txs[j].value
            == 0,
    ensures
        net_value(txs, a) == 0,
    decreases txs.len(),
{
    if txs.len() > 0 {
        lemma_net_zero(txs.drop_last(), a);
    }
}

/// A non-empty ordered run of transactions sharing one bundle hash.
pub struct Bundle(Vec<Transaction>);

impl View for Bundle {
    type V = Seq<Transaction>;

    closed spec fn view(&self) -> Seq<Transaction> {
        self.0@
    }
}

impl Bundle {
    /// A bundle is never empty and all its transactions name the same
    /// bundle hash.
    pub open spec fn wf(&self) -> bool {
        &&& self@.len() >= 1
        &&& forall|i: int| 0 <= i < self@.len() ==> (#[trigger] self@[i]).bundle@ == self@[0].bundle@
    }

    /// Wraps a sequence of transactions, refusing an empty sequence and
    /// mixed bundle hashes.
    pub fn new(txs: Vec<Transaction>) -> (r: Option<Bundle>)
        ensures
            r is Some <==> txs@.len() >= 1 && (forall|i: int|
                0 <= i < txs@.len() ==> (#[trigger] txs@[i]).bundle@ == txs@[0].bundle@),
            r matches Some(b) ==> b@ == txs@ && b.wf(),
    {
        if txs.len() == 0 {
            return None;
        }
        let n = txs.len();
        let mut i: usize = 1;
        while i < n
            invariant
                n == txs@.len(),
                1 <= i <= n,
                forall|j: int| 0 <= j < i ==> (#[trigger] txs@[j]).bundle@ == txs@[0].bundle@,
            decreases n - i,
        {
            if !(txs[i].bundle == txs[0].bundle) {
                return None;
            }
            i += 1;
        }
        Some(Bundle(txs))
    }

    /// The transaction at `index`, if the bundle is that long.
    pub fn get(&self, index: usize) -> (r: Option<&Transaction>)
        ensures
            r is Some <==> index < self@.len(),
            r matches Some(t) ==> *t == self@[index as int],
    {
        if index < self.0.len() {
            Some(&self.0[index])
        } else {
            None
        }
    }

    /// Number of transactions in the bundle.
    pub fn len(&self) -> (r: usize)
        ensures
            r == self@.len(),
    {
        self.0.len()
    }

    /// The hash of the bundle: the bundle field of its tail.
    pub fn hash(&self) -> (r: &crate::hash::Hash)
        requires
            self.wf(),
        ensures
            *r == self@[0].bundle,
    {
        self.0[0].bundle()
    }

    /// The tail: the transaction at position 0.
    pub fn tail(&self) -> (r: &Transaction)
        requires
            self.wf(),
        ensures
            *r == self@[0],
    {
        &self.0[0]
    }

    /// The head: the transaction at the last position.
    pub fn head(&self) -> (r: &Transaction)
        requires
            self.wf(),
        ensures
            *r == self@[self@.len() - 1],
    {
        &self.0[self.0.len() - 1]
    }

    /// The bundle's external trunk reference: the head's trunk.
    pub fn trunk(&self) -> (r: &crate::hash::Hash)
        requires
            self.wf(),
        ensures
            *r == self@[self@.len() - 1].trunk,
    {
        self.head().trunk()
    }

    /// The bundle's external branch reference: the head's branch.
    pub fn branch(&self) -> (r: &crate::hash::Hash)
        requires
            self.wf(),
        ensures
            *r == self@[self@.len() - 1].branch,
    {
        self.head().branch()
    }

    /// The per-address net value changes of the bundle.  Addresses with a
    /// zero net change are absent; the entries sum to the bundle's total
    /// transferred value.
    pub fn ledger_diff(&self) -> (r: Vec<(crate::hash::Hash, i64)>)
        requires
            forall|a: Seq<u8>|
                -0x8000_0000_0000_0000 <= #[trigger] net_value(self@, a)
                    <= 0x7fff_ffff_ffff_ffff,
        ensures
            is_ledger_diff(r@, self@),
    {
        let acc = self.accumulate_net();
        // keep the addresses whose net change is not zero
        let m = acc.len();
        let mut out: Vec<(crate::hash::Hash, i64)> = Vec::new();
        let mut k: usize = 0;
        while k < m
            invariant
                m == acc@.len(),
                k <= m,
                forall|k1: int, k2: int|
                    0 <= k1 < k2 < acc@.len() ==> (#[trigger] acc@[k1]).0@ != (
                    #[trigger] acc@[k2]).0@,
                forall|k2: int|
                    0 <= k2 < acc@.len() ==> (#[trigger] acc@[k2]).1 == net_value(
                        self@,
                        acc@[k2].0@,
                    ),
                forall|a: Seq<u8>|
                    -0x8000_0000_0000_0000 <= #[trigger] net_value(self@, a)
                        <= 0x7fff_ffff_ffff_ffff,
                forall|l: int|
                    0 <= l < out@.len() ==> exists|k2: int|
                        0 <= k2 < k && (#[trigger] out@[l]).0@ == (#[trigger] acc@[k2]).0@,
                forall|l: int|
                    0 <= l < out@.len() ==> (#[trigger] out@[l]).1 == net_value(
                        self@,
                        out@[l].0@,
                    ) && out@[l].1 != 0,
                forall|l1: int, l2: int|
                    0 <= l1 < l2 < out@.len() ==> (#[trigger] out@[l1]).0@ != (
                    #[trigger] out@[l2]).0@,
                forall|k2: int|
                    0 <= k2 < k && (#[trigger] acc@[k2]).1 != 0 ==> exists|l: int|
                        0 <= l < out@.len() && (#[trigger] out@[l]).0@ == acc@[k2].0@,
                diff_sum(out@) == acc_sum(acc@.subrange(0, k as int)),
            decreases m - k,
        {
            let ghost old_out = out@;
            proof {
                assert(acc@.subrange(0, k + 1).drop_last() =~= acc@.subrange(0, k as int));
            }
            if acc[k].1 != 0 {
                let h = acc[k].0.clone();
                let v128 = acc[k].1;
                let v: i64 = v128 as i64;
                out.push((h, v));
                proof {
                    lemma_diff_sum_push(old_out, out@.last());
                    assert forall|k2: int| 0 <= k2 < k + 1 && (#[trigger] acc@[k2]).1
                        != 0 implies exists|l: int|
                        0 <= l < out@.len() && (#[trigger] out@[l]).0@ == acc@[k2].0@ by {
                        if k2 == k {
                            assert(out@[out@.len() - 1].0@ == acc@[k2].0@);
                        } else {
                            let l0 = choose|l: int|
                                0 <= l < old_out.len() && (#[trigger] old_out[l]).0@ == acc@[
                                k2].0@;
                            assert(out@[l0].0@ == acc@[k2].0@);
                        }
                    }
                }
            }
            k += 1;
        }
        proof {
            assert(acc@.subrange(0, m as int) =~= acc@);
            assert forall|a: Seq<u8>| net_value(self@, a) != 0 implies exists|l: int|
                0 <= l < out@.len() && (#[trigger] out@[l]).0@ == a by {
                if forall|j: int|
                    0 <= j < self@.len() && (#[trigger] self@[j]).address@ == a ==> self@[j].value
                        == 0 {
                    lemma_net_zero(self@, a);
                } else {
                    let j = choose|j: int|
                        0 <= j < self@.len() && (#[trigger] self@[j]).address@ == a && self@[j].value
                            != 0;
                    let k2 = choose|k2: int|
                        0 <= k2 < acc@.len() && (#[trigger] acc@[k2]).0@ == self@[j].address@;
                    assert(acc@[k2].1 == net_value(self@, a));
                }
            }
        }
        out
    }

    /// Accumulates the net change of every address that appears with a
    /// nonzero value, in first-appearance order.
    fn accumulate_net(&self) -> (acc: Vec<(crate::hash::Hash, i128)>)
        ensures
            forall|k1: int, k2: int|
                0 <= k1 < k2 < acc@.len() ==> (#[trigger] acc@[k1]).0@ != (#[trigger] acc@[k2]).0@,
            forall|k: int|
                0 <= k < acc@.len() ==> (#[trigger] acc@[k]).1 == net_value(self@, acc@[k].0@),
            forall|j: int|
                0 <= j < self@.len() && (#[trigger] self@[j]).value != 0 ==> exists|k: int|
                    0 <= k < acc@.len() && (#[trigger] acc@[k]).0@ == self@[j].address@,
            acc_sum(acc@) == sum_values(self@),
    {
        let n = self.0.len();
        let mut acc: Vec<(crate::hash::Hash, i128)> = Vec::new();
        let mut i: usize = 0;
        while i < n
            invariant
                n == self@.len(),
                i <= n,
                forall|k1: int, k2: int|
                    0 <= k1 < k2 < acc@.len() ==> (#[trigger] acc@[k1]).0@ != (
                    #[trigger] acc@[k2]).0@,
                forall|k: int|
                    0 <= k < acc@.len() ==> (#[trigger] acc@[k]).1 == net_value(
                        self@.subrange(0, i as int),
                        acc@[k].0@,
                    ),
                forall|j: int|
                    0 <= j < i && (#[trigger] self@[j]).value != 0 ==> exists|k: int|
                        0 <= k < acc@.len() && (#[trigger] acc@[k]).0@ == self@[j].address@,
                acc_sum(acc@) == sum_values(self@.subrange(0, i as int)),
            decreases n - i,
        {
            let ghost prefix = self@.subrange(0, i as int);
            let ghost prefix2 = self@.subrange(0, i + 1);
            proof {
                assert(prefix2.drop_last() =~= prefix);
                assert(prefix2.last() == self@[i as int]);
                lemma_net_bound(prefix, self@[i as int].address@);
                assert(prefix.len() * 0x7fff_ffff_ffff_ffff <= 0xffff_ffff_ffff_ffff
                    * 0x7fff_ffff_ffff_ffff) by (nonlinear_arith)
                    requires
                        0 <= prefix.len() <= 0xffff_ffff_ffff_ffff,
                ;
                assert(prefix.len() * (-0x8000_0000_0000_0000) >= 0xffff_ffff_ffff_ffff * (
                -0x8000_0000_0000_0000)) by (nonlinear_arith)
                    requires
                        0 <= prefix.len() <= 0xffff_ffff_ffff_ffff,
                ;
            }
            if self.0[i].value() != 0 {
                let m = acc.len();
                let mut k: usize = 0;
                let mut found = false;
                while k < m
                    invariant_except_break
                        !found,
                        k <= m,
                        forall|k2: int| 0 <= k2 < k ==> (#[trigger] acc@[k2]).0@ != self@[
                            i as int].address@,
                    invariant
                        n == self@.len(),
                        i < n,
                        m == acc@.len(),
                    ensures
                        found ==> k < m && acc@[k as int].0@ == self@[i as int].address@,
                        !found ==> forall|k2: int|
                            0 <= k2 < m ==> (#[trigger] acc@[k2]).0@ != self@[i as int].address@,
                    decreases m - k,
                {
                    if acc[k].0 == self.0[i].address {
                        found = true;
                        break ;
                    }
                    k += 1;
                }
                if found {
                    let ghost old_acc = acc@;
                    let new_v: i128 = acc[k].1 + self.0[i].value() as i128;
                    let h = self.0[i].address.clone();
                    let elem = vstd::std_specs::vec::vec_index_mut(&mut acc, k);
                    *elem = (h, new_v);
                    proof {
                        assert(acc@ =~= old_acc.update(k as int, acc@[k as int]));
                        lemma_acc_sum_update(old_acc, k as int, acc@[k as int]);
                        assert(forall|k2: int|
                            0 <= k2 < acc@.len() ==> (#[trigger] acc@[k2]).0@ == old_acc[k2].0@);
                        assert forall|k2: int| 0 <= k2 < acc@.len() implies (#[trigger] acc@[k2]).1
                            == net_value(prefix2, acc@[k2].0@) by {
                            assert(net_value(prefix2, acc@[k2].0@) == net_value(
                                prefix,
                                acc@[k2].0@,
                            ) + if self@[i as int].address@ == acc@[k2].0@ {
                                self@[i as int].value as int
                            } else {
                                0
                            });
                        }
                        assert forall|j: int| 0 <= j < i + 1 && (#[trigger] self@[j]).value
                            != 0 implies exists|k2: int|
                            0 <= k2 < acc@.len() && (#[trigger] acc@[k2]).0@ == self@[
                            j].address@ by {
                            if j == i {
                                assert(acc@[k as int].0@ == self@[j].address@);
                            } else {
                                let k0 = choose|k0: int|
                                    0 <= k0 < old_acc.len() && (#[trigger] old_acc[k0]).0@ == self@[
                                    j].address@;
                                assert(acc@[k0].0@ == self@[j].address@);
                            }
                        }
                    }
                } else {
                    let h = self.0[i].address.clone();
                    let v: i128 = self.0[i].value() as i128;
                    let ghost old_acc = acc@;
                    acc.push((h, v));
                    proof {
                        lemma_acc_sum_push(old_acc, acc@.last());
                        assert forall|k2: int| 0 <= k2 < acc@.len() implies (#[trigger] acc@[k2]).1
                            == net_value(prefix2, acc@[k2].0@) by {
                            if k2 < old_acc.len() {
                                assert(acc@[k2] == old_acc[k2]);
                            } else {
                                lemma_net_zero(prefix, acc@[k2].0@);
                            }
                        }
                        assert forall|j: int| 0 <= j < i + 1 && (#[trigger] self@[j]).value
                            != 0 implies exists|k2: int|
                            0 <= k2 < acc@.len() && (#[trigger] acc@[k2]).0@ == self@[
                            j].address@ by {
                            if j == i {
                                assert(acc@[acc@.len() - 1].0@ == self@[j].address@);
                            } else {
                                let k0 = choose|k0: int|
                                    0 <= k0 < old_acc.len() && (#[trigger] old_acc[k0]).0@ == self@[
                                    j].address@;
                                assert(acc@[k0].0@ == self@[j].address@);
                            }
                        }
                    }
                }
            } else {
                proof {
                    assert forall|k2: int| 0 <= k2 < acc@.len() implies (#[trigger] acc@[k2]).1
                        == net_value(prefix2, acc@[k2].0@) by {
                        assert(net_value(prefix2, acc@[k2].0@) == net_value(prefix, acc@[k2].0@));
                    }
                }
            }
            i += 1;
        }
        proof {
            assert(self@.subrange(0, n as int) =~= self@);
        }
        acc
    }
}

} // verus!
