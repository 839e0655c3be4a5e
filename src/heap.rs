//! Array-backed binary min-heap of collision events: entry `i > 0` has its
//! parent at `(i - 1) / 2`, and no entry comes before its parent in the
//! scheduling order.
use vstd::prelude::*;

use crate::collisions::{lemma_precedes_total_order, Collision};
use vstd::seq_lib::to_multiset_update;

verus! {

/// Every entry of `s` other than the root comes no earlier than its parent.
pub open spec fn heap_ordered(s: Seq<Collision>) -> bool {
    forall|i: int| 0 < i < s.len() ==> #[trigger] s[(i - 1) / 2].precedes(s[i])
}

/// The root of a heap-ordered sequence comes no later than any of its entries.
pub(crate) proof fn lemma_root_first(s: Seq<Collision>, i: int)
    requires
        heap_ordered(s),
        0 <= i < s.len(),
    ensures
        s[0].precedes(s[i]),
    decreases i,
{
    if i > 0 {
        let p = (i - 1) / 2;
        lemma_root_first(s, p);
        assert(s[p].precedes(s[i]));
        lemma_precedes_total_order(s[0], s[p], s[i]);
    } else {
        lemma_precedes_total_order(s[0], s[0], s[0]);
    }
}

/// Exchanging two entries keeps the contents.
proof fn lemma_swap_keeps_contents(s: Seq<Collision>, i: int, j: int)
    requires
        0 <= i < s.len(),
        0 <= j < s.len(),
    ensures
        s.update(i, s[j]).update(j, s[i]).to_multiset() =~= s.to_multiset(),
{
    broadcast use to_multiset_update;
    broadcast use vstd::seq_lib::to_multiset_contains;
    broadcast use vstd::multiset::group_multiset_axioms;

    let m = s.to_multiset();
    let s1 = s.update(i, s[j]);
    if i == j {
        assert(s1 =~= s);
        assert(s1.update(j, s[i]) =~= s);
    } else {
        assert(s1[j] == s[j]);
        assert(s.contains(s[i]));
        assert(m.count(s[i]) > 0);
        let m1 = m.insert(s[j]).remove(s[i]);
        assert(s1.to_multiset() == m1);
        assert(s1.update(j, s[i]).to_multiset() == m1.insert(s[i]).remove(s[j]));
        assert(m1.insert(s[i]).remove(s[j]) =~= m);
    }
}

/// Exchanges entries `i` and `j` of `v`.
fn swap_entries(v: &mut Vec<Collision>, i: usize, j: usize)
    requires
        i < old(v).len(),
        j < old(v).len(),
    ensures
        final(v)@ == old(v)@.update(i as int, old(v)@[j as int]).update(j as int, old(v)@[i as int]),
        final(v)@.to_multiset() == old(v)@.to_multiset(),
{
    proof {
        lemma_swap_keeps_contents(v@, i as int, j as int);
    }
    let a = v[i];
    let b = v[j];
    v.set(i, b);
    v.set(j, a);
}

/// Moves entry `k0` towards the root until `v` is heap-ordered. Every edge of
/// the heap but the one into `k0` is in order on entry, and the parent of `k0`
/// comes no later than its children.
pub(crate) fn sift_up(v: &mut Vec<Collision>, k0: usize)
    requires
        k0 < old(v).len(),
        forall|i: int|
            0 < i < old(v).len() && i != k0 ==> #[trigger] old(v)@[(i - 1) / 2].precedes(old(v)@[i]),
        k0 > 0 ==> forall|c: int|
            0 < c < old(v).len() && (c - 1) / 2 == k0 ==> old(v)@[(k0 - 1) / 2].precedes(
                #[trigger] old(v)@[c],
            ),
    ensures
        heap_ordered(final(v)@),
        final(v)@.to_multiset() == old(v)@.to_multiset(),
{
    let ghost m = v@.to_multiset();
    let mut k = k0;
    while k > 0
        invariant
            k < v.len(),
            v@.to_multiset() == m,
            forall|i: int| 0 < i < v.len() && i != k ==> #[trigger] v@[(i - 1) / 2].precedes(v@[i]),
            k > 0 ==> forall|c: int|
                0 < c < v.len() && (c - 1) / 2 == k ==> v@[(k - 1) / 2].precedes(#[trigger] v@[c]),
        ensures
            heap_ordered(v@),
            v@.to_multiset() == m,
        decreases k,
    {
        let p = (k - 1) / 2;
        if v[p].goes_before(&v[k]) {
            break;
        }
        let ghost s = v@;
        swap_entries(v, p, k);
        proof {
            lemma_precedes_total_order(s[k as int], s[p as int], s[k as int]);
            assert forall|i: int| 0 < i < v.len() && i != p implies #[trigger] v@[(i - 1) / 2].precedes(v@[i]) by {
                if i == k {
                } else if (i - 1) / 2 == p {
                    lemma_precedes_total_order(s[k as int], s[p as int], s[i]);
                } else if (i - 1) / 2 == k {
                } else {
                }
            }
            if p > 0 {
                let g = (p - 1) / 2;
                assert(s[g].precedes(s[p as int]));
                assert forall|c: int| 0 < c < v.len() && (c - 1) / 2 == p implies v@[g].precedes(#[trigger] v@[c]) by {
                    if c == k {
                    } else {
                        lemma_precedes_total_order(s[g], s[p as int], s[c]);
                    }
                }
            }
        }
        k = p;
    }
}

/// Moves entry `k0` away from the root until `v` is heap-ordered. Every edge of
/// the heap but those out of `k0` is in order on entry, and the parent of `k0`
/// comes no later than its children.
pub(crate) fn sift_down(v: &mut Vec<Collision>, k0: usize)
    requires
        k0 < old(v).len(),
        forall|i: int|
            0 < i < old(v).len() && (i - 1) / 2 != k0 ==> #[trigger] old(v)@[(i - 1) / 2].precedes(
                old(v)@[i],
            ),
        k0 > 0 ==> forall|c: int|
            0 < c < old(v).len() && (c - 1) / 2 == k0 ==> old(v)@[(k0 - 1) / 2].precedes(
                #[trigger] old(v)@[c],
            ),
    ensures
        heap_ordered(final(v)@),
        final(v)@.to_multiset() == old(v)@.to_multiset(),
{
    let ghost m = v@.to_multiset();
    let n = v.len();
    let mut k = k0;
    loop
        invariant
            n == v.len(),
            k < n,
            v@.to_multiset() == m,
            forall|i: int| 0 < i < n && (i - 1) / 2 != k ==> #[trigger] v@[(i - 1) / 2].precedes(v@[i]),
            k > 0 ==> forall|c: int|
                0 < c < n && (c - 1) / 2 == k ==> v@[(k - 1) / 2].precedes(#[trigger] v@[c]),
        ensures
            heap_ordered(v@),
            v@.to_multiset() == m,
        decreases n - k,
    {
        if k >= n / 2 {
            assert forall|i: int| 0 < i < n implies #[trigger] v@[(i - 1) / 2].precedes(v@[i]) by {
                assert((i - 1) / 2 != k);
            }
            break;
        }
        let l = 2 * k + 1;
        let c = if l + 1 < n && v[l + 1].goes_before(&v[l]) {
            l + 1
        } else {
            l
        };
        let ghost s = v@;
        proof {
            lemma_precedes_total_order(s[c as int], s[l as int], s[l as int]);
            if l + 1 < n {
                lemma_precedes_total_order(s[c as int], s[l + 1], s[l + 1]);
            }
        }
        if v[k].goes_before(&v[c]) {
            assert forall|i: int| 0 < i < n implies #[trigger] v@[(i - 1) / 2].precedes(v@[i]) by {
                if (i - 1) / 2 == k {
                    assert(i == l || i == l + 1);
                    lemma_precedes_total_order(s[k as int], s[c as int], s[i]);
                }
            }
            break;
        }
        swap_entries(v, k, c);
        proof {
            lemma_precedes_total_order(s[c as int], s[k as int], s[c as int]);
            assert forall|i: int| 0 < i < n && (i - 1) / 2 != c implies #[trigger] v@[(i - 1) / 2].precedes(v@[i]) by {
                if i == c {
                } else if (i - 1) / 2 == k {
                    assert(i == l || i == l + 1);
                } else if i == k {
                    lemma_precedes_total_order(s[(k - 1) / 2], s[c as int], s[c as int]);
                } else {
                }
            }
            assert forall|j: int| 0 < j < n && (j - 1) / 2 == c implies v@[(c - 1) / 2].precedes(#[trigger] v@[j]) by {
                assert((c - 1) / 2 == k);
                assert(s[c as int].precedes(s[j]));
            }
        }
        k = c;
    }
}

} // verus!
