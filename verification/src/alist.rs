//! Association lists keyed by hashes or by milestone indices.
//!
//! The store keeps its maps as vectors of key-value pairs with unique
//! keys, ordered by insertion.  These spec functions give such lists their
//! map reading, and the lemmas pin the chosen witnesses down.

use vstd::prelude::*;

verus! {

/// A key occurs in the list.
pub open spec fn alist_has<V>(s: Seq<(crate::hash::Hash, V)>, k: Seq<u8>) -> bool {
    exists|i: int| 0 <= i < s.len() && (#[trigger] s[i]).0@ == k
}

/// The position of a key in the list.
pub open spec fn alist_index<V>(s: Seq<(crate::hash::Hash, V)>, k: Seq<u8>) -> int {
    choose|i: int| 0 <= i < s.len() && (#[trigger] s[i]).0@ == k
}

/// The value stored under a key.
pub open spec fn alist_get<V>(s: Seq<(crate::hash::Hash, V)>, k: Seq<u8>) -> V {
    s[alist_index(s, k)].1
}

/// No two entries share a key.
pub open spec fn alist_unique<V>(s: Seq<(crate::hash::Hash, V)>) -> bool {
    forall|i: int, j: int| 0 <= i < j < s.len() ==> (#[trigger] s[i]).0@ != (#[trigger] s[j]).0@
}

/// With unique keys, the entry at position `i` is what lookup by its key
/// returns.
pub proof fn lemma_alist_at<V>(s: Seq<(crate::hash::Hash, V)>, i: int)
    requires
        alist_unique(s),
        0 <= i < s.len(),
    ensures
        alist_has(s, s[i].0@),
        alist_index(s, s[i].0@) == i,
        alist_get(s, s[i].0@) == s[i].1,
{
    let k = s[i].0@;
    assert(alist_has(s, k));
    let j = alist_index(s, k);
    if j != i {
        assert(s[i].0@ == s[j].0@);
    }
}

/// Lists whose keys agree position by position hold the same keys.
pub proof fn lemma_alist_same_keys<V, W>(a: Seq<(crate::hash::Hash, V)>, b: Seq<(
    crate::hash::Hash,
    W,
)>)
    requires
        a.len() == b.len(),
        forall|j: int| 0 <= j < a.len() ==> (#[trigger] a[j]).0@ == (#[trigger] b[j]).0@,
    ensures
        forall|k: Seq<u8>| alist_has(a, k) <==> alist_has(b, k),
{
    assert forall|k: Seq<u8>| alist_has(a, k) <==> alist_has(b, k) by {
        if alist_has(a, k) {
            let i = alist_index(a, k);
            assert(b[i].0@ == k);
        }
        if alist_has(b, k) {
            let i = choose|i: int| 0 <= i < b.len() && (#[trigger] b[i]).0@ == k;
            assert(a[i].0@ == k);
        }
    }
}

/// A key occurs in an index-keyed list.
pub open spec fn ilist_has<V>(s: Seq<(u32, V)>, k: u32) -> bool {
    exists|i: int| 0 <= i < s.len() && (#[trigger] s[i]).0 == k
}

/// The position of a key in an index-keyed list.
pub open spec fn ilist_index<V>(s: Seq<(u32, V)>, k: u32) -> int {
    choose|i: int| 0 <= i < s.len() && (#[trigger] s[i]).0 == k
}

/// The value stored under a key of an index-keyed list.
pub open spec fn ilist_get<V>(s: Seq<(u32, V)>, k: u32) -> V {
    s[ilist_index(s, k)].1
}

/// No two entries of an index-keyed list share a key.
pub open spec fn ilist_unique<V>(s: Seq<(u32, V)>) -> bool {
    forall|i: int, j: int| 0 <= i < j < s.len() ==> (#[trigger] s[i]).0 != (#[trigger] s[j]).0
}

/// With unique keys, the entry at position `i` is what lookup by its key
/// returns.
pub proof fn lemma_ilist_at<V>(s: Seq<(u32, V)>, i: int)
    requires
        ilist_unique(s),
        0 <= i < s.len(),
    ensures
        ilist_has(s, s[i].0),
        ilist_index(s, s[i].0) == i,
        ilist_get(s, s[i].0) == s[i].1,
{
    let k = s[i].0;
    assert(ilist_has(s, k));
    let j = ilist_index(s, k);
    if j != i {
        assert(s[i].0 == s[j].0);
    }
}

} // verus!
