//! The structural invariants of the interval heap and the three repair
//! algorithms: sift-up after an insertion, and the two sift-down variants
//! that follow a replacement of the root's low or high slot.
//!
//! All three work directly on a backing `Vec` (the sift-up and the
//! max-side sift-down on a prefix of it) and an injected ordering rule;
//! they know nothing of the container's public interface.

use vstd::prelude::*;
use vstd::seq_lib::group_to_multiset_ensures;
use vstd::multiset::Multiset;
use crate::order::Comparator;
use crate::index::spec_parent_left;

verus! {

/// The high-slot index of node `k` in an array of length `len`: slot
/// `2k + 1`, or slot `2k` when the node is the unpaired last one.
pub open spec fn hi_slot(len: int, k: int) -> int {
    if 2 * k + 1 < len {
        2 * k + 1
    } else {
        2 * k
    }
}

/// Within-node order: a complete node's low value is at most its high value.
pub open spec fn within_node<T, C: Comparator<T>>(s: Seq<T>, c: C, k: int) -> bool {
    2 * k + 1 < s.len() ==> c.le(s[2 * k], s[2 * k + 1])
}

/// Low containment: node `k`'s low value is at least its parent's low value.
pub open spec fn lo_in_parent<T, C: Comparator<T>>(s: Seq<T>, c: C, k: int) -> bool {
    c.le(s[spec_parent_left(2 * k)], s[2 * k])
}

/// High containment: node `k`'s high value is at most its parent's high
/// value.
pub open spec fn hi_in_parent<T, C: Comparator<T>>(s: Seq<T>, c: C, k: int) -> bool {
    c.le(s[hi_slot(s.len() as int, k)], s[spec_parent_left(2 * k) + 1])
}

/// The interval-heap shape: every node is internally ordered and every
/// non-root node's interval nests inside its parent's interval.
pub open spec fn heap_valid<T, C: Comparator<T>>(s: Seq<T>, c: C) -> bool {
    &&& forall|k: int| 0 <= k && 2 * k < s.len() ==> #[trigger] within_node(s, c, k)
    &&& forall|k: int| 1 <= k && 2 * k < s.len() ==> #[trigger] lo_in_parent(s, c, k)
    &&& forall|k: int| 1 <= k && 2 * k < s.len() ==> #[trigger] hi_in_parent(s, c, k)
}

/// `x` is at most every item of `s` under rule `c`.
pub open spec fn is_lower_bound<T, C: Comparator<T>>(s: Seq<T>, c: C, x: T) -> bool {
    forall|i: int| 0 <= i < s.len() ==> c.le(x, #[trigger] s[i])
}

/// `x` is at least every item of `s` under rule `c`.
pub open spec fn is_upper_bound<T, C: Comparator<T>>(s: Seq<T>, c: C, x: T) -> bool {
    forall|i: int| 0 <= i < s.len() ==> c.le(#[trigger] s[i], x)
}

/// `s` is sorted in ascending order under rule `c`.
pub open spec fn sorted_by<T, C: Comparator<T>>(s: Seq<T>, c: C) -> bool {
    forall|i: int, j: int| 0 <= i <= j < s.len() ==> c.le(#[trigger] s[i], #[trigger] s[j])
}

/// A failed `le` test yields the opposite comparison: the rule is total.
pub proof fn lemma_flip<T, C: Comparator<T>>(c: C, a: T, b: T)
    requires
        !c.le(a, b),
    ensures
        c.le(b, a),
{
    c.total(a, b);
}

/// Every item is at most itself: the rule is reflexive.
pub proof fn lemma_refl<T, C: Comparator<T>>(c: C, a: T)
    ensures
        c.le(a, a),
{
    c.total(a, a);
}

/// Basic bounds of the parent's low-slot index.
pub proof fn lemma_parent_left_bounds(i: int)
    requires
        i >= 2,
    ensures
        spec_parent_left(i) % 2 == 0,
        0 <= spec_parent_left(i),
        spec_parent_left(i) + 1 < i,
{
}

/// In a valid heap the root's low value is below every node's low value.
pub proof fn lemma_lo_chain<T, C: Comparator<T>>(s: Seq<T>, c: C, k: int)
    requires
        heap_valid(s, c),
        0 <= k,
        2 * k < s.len(),
    ensures
        c.le(s[0], s[2 * k]),
    decreases k,
{
    if k == 0 {
        lemma_refl(c, s[0]);
    } else {
        let kp = (k - 1) / 2;
        assert(spec_parent_left(2 * k) == 2 * kp);
        lemma_lo_chain(s, c, kp);
        assert(lo_in_parent(s, c, k));
        c.transitive(s[0], s[2 * kp], s[2 * k]);
    }
}

/// In a valid heap the root's high value is above every node's high value.
pub proof fn lemma_hi_chain<T, C: Comparator<T>>(s: Seq<T>, c: C, k: int)
    requires
        heap_valid(s, c),
        0 <= k,
        2 * k < s.len(),
        s.len() >= 2,
    ensures
        c.le(s[hi_slot(s.len() as int, k)], s[1]),
    decreases k,
{
    if k == 0 {
        lemma_refl(c, s[1]);
    } else {
        let kp = (k - 1) / 2;
        assert(spec_parent_left(2 * k) == 2 * kp);
        assert(2 * kp + 1 < s.len());
        lemma_hi_chain(s, c, kp);
        assert(hi_in_parent(s, c, k));
        c.transitive(s[hi_slot(s.len() as int, k)], s[2 * kp + 1], s[1]);
    }
}

/// In a valid heap slot 0 holds a minimum over all items.
pub proof fn lemma_root_min<T, C: Comparator<T>>(s: Seq<T>, c: C, i: int)
    requires
        heap_valid(s, c),
        0 <= i < s.len(),
    ensures
        c.le(s[0], s[i]),
{
    let k = i / 2;
    if i % 2 == 0 {
        lemma_lo_chain(s, c, k);
    } else {
        lemma_lo_chain(s, c, k);
        assert(within_node(s, c, k));
        c.transitive(s[0], s[2 * k], s[i]);
    }
}

/// In a valid heap of at least two items slot 1 holds a maximum over all
/// items.
pub proof fn lemma_root_max<T, C: Comparator<T>>(s: Seq<T>, c: C, i: int)
    requires
        heap_valid(s, c),
        0 <= i < s.len(),
        s.len() >= 2,
    ensures
        c.le(s[i], s[1]),
{
    let k = i / 2;
    if i == hi_slot(s.len() as int, k) {
        lemma_hi_chain(s, c, k);
    } else {
        assert(i % 2 == 0 && 2 * k + 1 < s.len());
        assert(within_node(s, c, k));
        lemma_hi_chain(s, c, k);
        c.transitive(s[i], s[2 * k + 1], s[1]);
    }
}

/// The sequence with the items at `i` and `j` exchanged.
pub open spec fn seq_swap<T>(s: Seq<T>, i: int, j: int) -> Seq<T> {
    s.update(i, s[j]).update(j, s[i])
}

/// Exchanging two items leaves the multiset of items unchanged.
pub proof fn lemma_swap_multiset<T>(s: Seq<T>, i: int, j: int)
    requires
        0 <= i < s.len(),
        0 <= j < s.len(),
    ensures
        seq_swap(s, i, j).to_multiset() == s.to_multiset(),
{
    broadcast use group_to_multiset_ensures;

    let s1 = s.update(i, s[j]);
    assert(s1[j] == s[j]);
    assert(s.contains(s[i]));
    assert(s.to_multiset().count(s[i]) > 0);
    assert(seq_swap(s, i, j).to_multiset() =~= s.to_multiset());
}

/// Exchanging two items inside a prefix commutes with taking the prefix and
/// leaves the rest of the sequence unchanged.
pub proof fn lemma_swap_take<T>(s: Seq<T>, n: int, i: int, j: int)
    requires
        0 <= i < n,
        0 <= j < n,
        n <= s.len(),
    ensures
        seq_swap(s, i, j).take(n) == seq_swap(s.take(n), i, j),
        seq_swap(s, i, j).skip(n) == s.skip(n),
{
    assert(seq_swap(s, i, j).take(n) =~= seq_swap(s.take(n), i, j));
    assert(seq_swap(s, i, j).skip(n) =~= s.skip(n));
}

/// Relies on the standard slice `swap`: it exchanges the items at `i` and
/// `j` and moves nothing else.
#[verifier::external_body]
pub(crate) fn swap_slots<T>(v: &mut Vec<T>, i: usize, j: usize)
    requires
        i < old(v).len(),
        j < old(v).len(),
    ensures
        final(v)@ == seq_swap(old(v)@, i as int, j as int),
{
    v.swap(i, j);
}

/// The climbing node's children nest inside the climbing node's parent's
/// interval (`m` is the climbing node's low slot).
pub open spec fn child_in_grandparent<T, C: Comparator<T>>(
    s: Seq<T>,
    c: C,
    m: int,
    k: int,
) -> bool {
    let plo = spec_parent_left(m);
    &&& c.le(s[plo], s[2 * k])
    &&& c.le(s[hi_slot(s.len() as int, k)], s[plo + 1])
}

/// The climbing node's slots lie crosswise inside its parent's interval and
/// at most one side of its containment is broken.
pub open spec fn cross_bounds<T, C: Comparator<T>>(s: Seq<T>, c: C, m: int, x: int) -> bool {
    let plo = spec_parent_left(m);
    &&& c.le(s[plo], s[x])
    &&& c.le(s[m], s[plo + 1])
    &&& (c.le(s[plo], s[m]) || c.le(s[x], s[plo + 1]))
}

/// One step of the sift-up on the low side: the climbing node's low value
/// undercuts its parent's low value, and the two are exchanged.
#[verifier::rlimit(100)]
proof fn sift_up_low_step<T, C: Comparator<T>>(p: Seq<T>, c: C, m: int, x: int, plo: int)
    requires
        2 <= m,
        m % 2 == 0,
        m < p.len(),
        x == m + 1 || (x == m && x == p.len() - 1),
        x < p.len(),
        plo == spec_parent_left(m),
        forall|k: int| 0 <= k && 2 * k < p.len() ==> #[trigger] within_node(p, c, k),
        forall|k: int| 1 <= k && 2 * k < p.len() && 2 * k != m ==> #[trigger] lo_in_parent(p, c, k),
        forall|k: int| 1 <= k && 2 * k < p.len() && 2 * k != m ==> #[trigger] hi_in_parent(p, c, k),
        forall|k: int|
            1 <= k && 2 * k < p.len() && spec_parent_left(2 * k) == m
                ==> #[trigger] child_in_grandparent(p, c, m, k),
        x == m + 1 ==> cross_bounds(p, c, m, x),
        !c.le(p[plo], p[m]),
        c.le(p[m], p[plo]),
    ensures
        forall|k: int|
            0 <= k && 2 * k < p.len() ==> #[trigger] within_node(seq_swap(p, plo, m), c, k),
        forall|k: int|
            1 <= k && 2 * k < p.len() && 2 * k != plo ==> #[trigger] lo_in_parent(
                seq_swap(p, plo, m),
                c,
                k,
            ),
        forall|k: int|
            1 <= k && 2 * k < p.len() && 2 * k != plo ==> #[trigger] hi_in_parent(
                seq_swap(p, plo, m),
                c,
                k,
            ),
        plo >= 2 ==> forall|k: int|
            1 <= k && 2 * k < p.len() && spec_parent_left(2 * k) == plo
                ==> #[trigger] child_in_grandparent(seq_swap(p, plo, m), c, plo, k),
        plo >= 2 ==> cross_bounds(seq_swap(p, plo, m), c, plo, plo + 1),
{
    let p2 = seq_swap(p, plo, m);
    lemma_parent_left_bounds(m);
    let phi = plo + 1;
    let kq = plo / 2;
    assert(2 * kq == plo);
    assert(p2[plo] == p[m] && p2[m] == p[plo]);
    assert(forall|i: int| 0 <= i < p.len() && i != plo && i != m ==> p2[i] == p[i]);
    assert(within_node(p, c, kq));
    assert(c.le(p[plo], p[phi]));
    let paired = x == m + 1;
    if paired {
        assert(cross_bounds(p, c, m, x));
        assert(c.le(p[x], p[phi]));
    }
    // children of the climbing node exist only when it is complete
    assert forall|k: int|
        1 <= k && 2 * k < p.len() && #[trigger] spec_parent_left(2 * k) == m implies 2 * k >= 2 * m
        + 2 by {
        assert(2 * ((k - 1) / 2) == m);
        assert(k - 1 == 2 * ((k - 1) / 2) + (k - 1) % 2);
    }
    assert forall|k: int| 0 <= k && 2 * k < p.len() implies within_node(p2, c, k) by {
        if 2 * k + 1 < p.len() {
            if k == kq {
                if paired {
                    assert(c.le(p2[plo], p2[phi]));
                } else {
                    c.transitive(p[m], p[plo], p[phi]);
                }
            } else if 2 * k == m {
                assert(paired);
                assert(c.le(p2[m], p2[x]));
            } else {
                assert(within_node(p, c, k));
            }
        }
    }
    assert forall|k: int| 1 <= k && 2 * k < p.len() && 2 * k != plo implies lo_in_parent(
        p2,
        c,
        k,
    ) by {
        lemma_parent_left_bounds(2 * k);
        if 2 * k == m {
            assert(c.le(p2[plo], p2[m]));
        } else if spec_parent_left(2 * k) == m {
            assert(child_in_grandparent(p, c, m, k));
            assert(c.le(p[plo], p[2 * k]));
        } else if spec_parent_left(2 * k) == plo {
            assert(lo_in_parent(p, c, k));
            c.transitive(p[m], p[plo], p[2 * k]);
        } else {
            assert(lo_in_parent(p, c, k));
        }
    }
    assert forall|k: int| 1 <= k && 2 * k < p.len() && 2 * k != plo implies hi_in_parent(
        p2,
        c,
        k,
    ) by {
        lemma_parent_left_bounds(2 * k);
        if 2 * k == m {
            if paired {
                assert(hi_slot(p.len() as int, k) == x);
                assert(c.le(p2[x], p2[phi]));
            } else {
                assert(hi_slot(p.len() as int, k) == m);
                assert(c.le(p2[m], p2[phi]));
            }
        } else if spec_parent_left(2 * k) == m {
            assert(2 * k >= 2 * m + 2);
            assert(paired);
            assert(hi_in_parent(p, c, k));
        } else if spec_parent_left(2 * k) == plo {
            assert(hi_in_parent(p, c, k));
        } else {
            assert(hi_in_parent(p, c, k));
        }
    }
    if plo >= 2 {
        lemma_parent_left_bounds(plo);
        let gplo = spec_parent_left(plo);
        let gphi = gplo + 1;
        assert(kq >= 1);
        assert(lo_in_parent(p, c, kq));
        assert(c.le(p[gplo], p[plo]));
        assert(hi_in_parent(p, c, kq));
        assert(hi_slot(p.len() as int, kq) == phi);
        assert(c.le(p[phi], p[gphi]));
        assert forall|k: int|
            1 <= k && 2 * k < p.len() && spec_parent_left(2 * k)
                == plo implies #[trigger] child_in_grandparent(p2, c, plo, k) by {
            lemma_parent_left_bounds(2 * k);
            if 2 * k == m {
                assert(c.le(p2[gplo], p2[m]));
                if paired {
                    assert(hi_slot(p.len() as int, k) == x);
                    c.transitive(p[x], p[phi], p[gphi]);
                } else {
                    assert(hi_slot(p.len() as int, k) == m);
                    c.transitive(p[plo], p[phi], p[gphi]);
                }
            } else {
                assert(lo_in_parent(p, c, k));
                c.transitive(p[gplo], p[plo], p[2 * k]);
                assert(hi_in_parent(p, c, k));
                c.transitive(p[hi_slot(p.len() as int, k)], p[phi], p[gphi]);
            }
        }
        if paired {
            c.transitive(p[m], p[phi], p[gphi]);
        } else {
            c.transitive(p[m], p[plo], p[phi]);
            c.transitive(p[m], p[phi], p[gphi]);
        }
        c.transitive(p[gplo], p[plo], p[phi]);
        assert(cross_bounds(p2, c, plo, phi));
    }
}

/// One step of the sift-up on the high side: the climbing node's high value
/// exceeds its parent's high value, and the two are exchanged.
#[verifier::rlimit(100)]
proof fn sift_up_high_step<T, C: Comparator<T>>(p: Seq<T>, c: C, m: int, x: int, plo: int)
    requires
        2 <= m,
        m % 2 == 0,
        m < p.len(),
        x == m + 1 || (x == m && x == p.len() - 1),
        x < p.len(),
        plo == spec_parent_left(m),
        forall|k: int| 0 <= k && 2 * k < p.len() ==> #[trigger] within_node(p, c, k),
        forall|k: int| 1 <= k && 2 * k < p.len() && 2 * k != m ==> #[trigger] lo_in_parent(p, c, k),
        forall|k: int| 1 <= k && 2 * k < p.len() && 2 * k != m ==> #[trigger] hi_in_parent(p, c, k),
        forall|k: int|
            1 <= k && 2 * k < p.len() && spec_parent_left(2 * k) == m
                ==> #[trigger] child_in_grandparent(p, c, m, k),
        x == m + 1 ==> cross_bounds(p, c, m, x),
        c.le(p[plo], p[m]),
        !c.le(p[x], p[spec_parent_left(m) + 1]),
        c.le(p[spec_parent_left(m) + 1], p[x]),
    ensures
        forall|k: int|
            0 <= k && 2 * k < p.len() ==> #[trigger] within_node(
                seq_swap(p, spec_parent_left(m) + 1, x),
                c,
                k,
            ),
        forall|k: int|
            1 <= k && 2 * k < p.len() && 2 * k != plo ==> #[trigger] lo_in_parent(
                seq_swap(p, spec_parent_left(m) + 1, x),
                c,
                k,
            ),
        forall|k: int|
            1 <= k && 2 * k < p.len() && 2 * k != plo ==> #[trigger] hi_in_parent(
                seq_swap(p, spec_parent_left(m) + 1, x),
                c,
                k,
            ),
        plo >= 2 ==> forall|k: int|
            1 <= k && 2 * k < p.len() && spec_parent_left(2 * k) == plo
                ==> #[trigger] child_in_grandparent(seq_swap(p, spec_parent_left(m) + 1, x), c, plo, k),
        plo >= 2 ==> cross_bounds(seq_swap(p, spec_parent_left(m) + 1, x), c, plo, plo + 1),
{
    lemma_parent_left_bounds(m);
    let phi = plo + 1;
    let p2 = seq_swap(p, phi, x);
    let kq = plo / 2;
    assert(2 * kq == plo);
    assert(p2[phi] == p[x] && p2[x] == p[phi]);
    assert(forall|i: int| 0 <= i < p.len() && i != phi && i != x ==> p2[i] == p[i]);
    assert(within_node(p, c, kq));
    assert(c.le(p[plo], p[phi]));
    let paired = x == m + 1;
    if paired {
        assert(cross_bounds(p, c, m, x));
    }
    assert forall|k: int|
        1 <= k && 2 * k < p.len() && #[trigger] spec_parent_left(2 * k) == m implies 2 * k >= 2 * m
        + 2 by {
        assert(2 * ((k - 1) / 2) == m);
        assert(k - 1 == 2 * ((k - 1) / 2) + (k - 1) % 2);
    }
    assert forall|k: int| 0 <= k && 2 * k < p.len() implies within_node(p2, c, k) by {
        if 2 * k + 1 < p.len() {
            if k == kq {
                assert(c.le(p2[plo], p2[phi]));
            } else if 2 * k == m {
                assert(paired);
                assert(c.le(p2[m], p2[x]));
            } else {
                assert(within_node(p, c, k));
            }
        }
    }
    assert forall|k: int| 1 <= k && 2 * k < p.len() && 2 * k != plo implies lo_in_parent(
        p2,
        c,
        k,
    ) by {
        lemma_parent_left_bounds(2 * k);
        if 2 * k == m {
            if paired {
                assert(c.le(p2[plo], p2[m]));
            } else {
                assert(p2[m] == p[phi]);
                assert(c.le(p2[plo], p2[m]));
            }
        } else if spec_parent_left(2 * k) == m {
            assert(2 * k >= 2 * m + 2);
            assert(paired);
            assert(lo_in_parent(p, c, k));
        } else {
            assert(lo_in_parent(p, c, k));
        }
    }
    assert forall|k: int| 1 <= k && 2 * k < p.len() && 2 * k != plo implies hi_in_parent(
        p2,
        c,
        k,
    ) by {
        lemma_parent_left_bounds(2 * k);
        if 2 * k == m {
            if paired {
                assert(hi_slot(p.len() as int, k) == x);
                assert(c.le(p2[x], p2[phi]));
            } else {
                assert(hi_slot(p.len() as int, k) == m);
                assert(c.le(p2[m], p2[phi]));
            }
        } else if spec_parent_left(2 * k) == m {
            assert(2 * k >= 2 * m + 2);
            assert(paired);
            assert(child_in_grandparent(p, c, m, k));
            assert(c.le(p[hi_slot(p.len() as int, k)], p[phi]));
        } else if spec_parent_left(2 * k) == plo {
            assert(hi_in_parent(p, c, k));
            if paired {
                c.transitive(p[hi_slot(p.len() as int, k)], p[phi], p[x]);
            } else {
                c.transitive(p[hi_slot(p.len() as int, k)], p[phi], p[m]);
            }
        } else {
            assert(hi_in_parent(p, c, k));
        }
    }
    if plo >= 2 {
        lemma_parent_left_bounds(plo);
        let gplo = spec_parent_left(plo);
        let gphi = gplo + 1;
        assert(kq >= 1);
        assert(lo_in_parent(p, c, kq));
        assert(c.le(p[gplo], p[plo]));
        assert(hi_in_parent(p, c, kq));
        assert(hi_slot(p.len() as int, kq) == phi);
        assert(c.le(p[phi], p[gphi]));
        assert forall|k: int|
            1 <= k && 2 * k < p.len() && spec_parent_left(2 * k)
                == plo implies #[trigger] child_in_grandparent(p2, c, plo, k) by {
            lemma_parent_left_bounds(2 * k);
            if 2 * k == m {
                if paired {
                    c.transitive(p[gplo], p[plo], p[m]);
                    assert(hi_slot(p.len() as int, k) == x);
                    assert(c.le(p2[x], p[gphi]));
                } else {
                    c.transitive(p[gplo], p[plo], p[phi]);
                    assert(hi_slot(p.len() as int, k) == m);
                    assert(c.le(p2[m], p[gphi]));
                }
            } else {
                assert(lo_in_parent(p, c, k));
                c.transitive(p[gplo], p[plo], p[2 * k]);
                assert(hi_in_parent(p, c, k));
                c.transitive(p[hi_slot(p.len() as int, k)], p[phi], p[gphi]);
            }
        }
        if paired {
            c.transitive(p[gplo], p[plo], p[x]);
        } else {
            c.transitive(p[gplo], p[plo], p[m]);
        }
        c.transitive(p[plo], p[phi], p[gphi]);
        assert(cross_bounds(p2, c, plo, phi));
    }
}

/// The first `n - 1` slots of `v` form a valid interval heap and slot
/// `n - 1` holds a freshly appended item: sift it up until the whole prefix
/// of length `n` is valid again.
#[verifier::rlimit(100)]
pub(crate) fn interval_heap_push<T, C: Comparator<T>>(v: &mut Vec<T>, n: usize, cmp: &C)
    requires
        1 <= n <= old(v).len(),
        heap_valid(old(v)@.take(n - 1), *cmp),
    ensures
        final(v)@.len() == old(v)@.len(),
        heap_valid(final(v)@.take(n as int), *cmp),
        final(v)@.to_multiset() == old(v)@.to_multiset(),
        final(v)@.take(n as int).to_multiset() == old(v)@.take(n as int).to_multiset(),
        final(v)@.skip(n as int) == old(v)@.skip(n as int),
{
    let ghost c: C = *cmp;
    let ghost nn: int = n as int;
    let mut node_max: usize = n - 1;
    let mut node_min: usize = crate::index::left(node_max);
    let ghost m: int = node_min as int;
    let ghost x: int = node_max as int;
    if !cmp.compares_le(&v[node_min], &v[node_max]) {
        let ghost v0: Seq<T> = v@;
        swap_slots(v, node_min, node_max);
        proof {
            lemma_swap_multiset(v0, m, x);
            lemma_swap_take(v0, nn, m, x);
            lemma_swap_multiset(v0.take(nn), m, x);
            lemma_flip(c, v0[m], v0[x]);
        }
    }
    proof {
        let p = v@.take(nn);
        assert(forall|i: int| 0 <= i < nn ==> #[trigger] p[i] == v@[i]);
        let q0 = old(v)@.take(nn - 1);
        assert(forall|i: int| 0 <= i < nn - 1 ==> #[trigger] q0[i] == old(v)@[i]);
        assert(forall|i: int| 0 <= i < v@.len() && i != m && i != x ==> v@[i] == old(v)@[i]);
        if m == x {
            lemma_refl(c, old(v)@[m]);
        }
        assert(c.le(p[m], p[x]));
        // within-node order everywhere in the prefix
        assert forall|k: int| 0 <= k && 2 * k < nn implies within_node(p, c, k) by {
            if 2 * k + 1 < nn {
                if 2 * k == m {
                    assert(x == 2 * k + 1);
                } else {
                    assert(2 * k + 1 != x && 2 * k + 1 != m && 2 * k != x);
                    assert(2 * k + 1 < nn - 1);
                    assert(within_node(q0, c, k));
                }
            }
        }
        // containment for every node but the one holding the new item
        assert forall|k: int| 1 <= k && 2 * k < nn && 2 * k != m implies lo_in_parent(p, c, k)
            && hi_in_parent(p, c, k) by {
            lemma_parent_left_bounds(2 * k);
            assert(2 * k < nn - 1);
            assert(2 * k + 1 != x && spec_parent_left(2 * k) != m && spec_parent_left(2 * k)
                != x);
            assert(lo_in_parent(q0, c, k));
            assert(hi_in_parent(q0, c, k));
            assert(hi_slot(nn, k) == hi_slot(nn - 1, k));
        }
        // the starting node is the last node: it has no children
        assert forall|k: int|
            1 <= k && 2 * k < nn && #[trigger] spec_parent_left(2 * k)
                == m implies child_in_grandparent(p, c, m, k) by {
            assert(2 * ((k - 1) / 2) == m);
            assert(k - 1 == 2 * ((k - 1) / 2) + (k - 1) % 2);
            assert(2 * k >= 2 * m + 2);
            assert(m >= nn - 2);
            assert(false);
        }
        // cross bounds at the starting node
        if m >= 2 && x == m + 1 {
            lemma_parent_left_bounds(m);
            let plo = spec_parent_left(m);
            assert(spec_parent_left(2 * (m / 2)) == plo);
            assert(lo_in_parent(q0, c, m / 2));
            assert(hi_in_parent(q0, c, m / 2));
            assert(hi_slot(nn - 1, m / 2) == m);
            let w = q0[m];
            assert(c.le(q0[plo], w) && c.le(w, q0[plo + 1]));
            assert(plo + 1 < m);
            assert(p[plo] == q0[plo] && p[plo + 1] == q0[plo + 1]);
            if c.le(old(v)@[m], old(v)@[x]) {
                assert(p[m] == w);
                c.transitive(p[plo], w, p[x]);
            } else {
                assert(p[x] == w && p[m] == old(v)@[x]);
                assert(c.le(p[m], w));
                c.transitive(p[m], w, p[plo + 1]);
            }
            assert(cross_bounds(p, c, m, x));
        }
    }
    while !crate::index::is_root(node_min)
        invariant
            n <= v.len(),
            v@.len() == old(v)@.len(),
            nn == n as int,
            c == *cmp,
            node_min as int % 2 == 0,
            0 <= node_min as int,
            node_max as int == node_min as int + 1 || (node_max == node_min && node_max as int
                == nn - 1),
            (node_max as int) < nn,
            forall|k: int| 0 <= k && 2 * k < nn ==> #[trigger] within_node(v@.take(nn), c, k),
            forall|k: int|
                1 <= k && 2 * k < nn && 2 * k != node_min as int ==> #[trigger] lo_in_parent(
                    v@.take(nn),
                    c,
                    k,
                ),
            forall|k: int|
                1 <= k && 2 * k < nn && 2 * k != node_min as int ==> #[trigger] hi_in_parent(
                    v@.take(nn),
                    c,
                    k,
                ),
            node_min >= 2 ==> forall|k: int|
                1 <= k && 2 * k < nn && spec_parent_left(2 * k) == node_min as int
                    ==> #[trigger] child_in_grandparent(v@.take(nn), c, node_min as int, k),
            node_min >= 2 && node_max as int == node_min as int + 1 ==> cross_bounds(
                v@.take(nn),
                c,
                node_min as int,
                node_max as int,
            ),
            v@.to_multiset() == old(v)@.to_multiset(),
            v@.take(nn).to_multiset() == old(v)@.take(nn).to_multiset(),
            v@.skip(nn) == old(v)@.skip(nn),
        decreases node_min as int,
    {
        proof {
            lemma_parent_left_bounds(node_min as int);
        }
        let par_min = crate::index::parent_left(node_min);
        let par_max = par_min + 1;
        let ghost p: Seq<T> = v@.take(nn);
        let ghost mm: int = node_min as int;
        let ghost xx: int = node_max as int;
        let ghost plo: int = par_min as int;
        let ghost phi: int = plo + 1;
        proof {
            assert(forall|i: int| 0 <= i < nn ==> #[trigger] p[i] == v@[i]);
        }
        if !cmp.compares_le(&v[par_min], &v[node_min]) {
            let ghost v0: Seq<T> = v@;
            swap_slots(v, par_min, node_min);
            proof {
                lemma_swap_multiset(v0, plo, mm);
                lemma_swap_take(v0, nn, plo, mm);
                lemma_swap_multiset(p, plo, mm);
                assert(v@.take(nn) == seq_swap(p, plo, mm));
                lemma_flip(c, p[plo], p[mm]);
                sift_up_low_step(p, c, mm, xx, plo);
            }
        } else if !cmp.compares_le(&v[node_max], &v[par_max]) {
            let ghost v0: Seq<T> = v@;
            swap_slots(v, par_max, node_max);
            proof {
                lemma_swap_multiset(v0, phi, xx);
                lemma_swap_take(v0, nn, phi, xx);
                lemma_swap_multiset(p, phi, xx);
                assert(v@.take(nn) == seq_swap(p, phi, xx));
                lemma_flip(c, p[xx], p[phi]);
                sift_up_high_step(p, c, mm, xx, plo);
            }
        } else {
            proof {
                // both containments of the climbing node hold: all valid
                assert forall|k: int| 1 <= k && 2 * k < nn implies lo_in_parent(p, c, k)
                    && hi_in_parent(p, c, k) by {
                    if 2 * k == mm {
                        assert(c.le(p[plo], p[mm]));
                        assert(hi_slot(nn, k) == xx);
                        assert(c.le(p[xx], p[phi]));
                    }
                }
                assert(heap_valid(p, c));
            }
            return;
        }
        node_min = par_min;
        node_max = par_max;
    }
    proof {
        let p = v@.take(nn);
        assert forall|k: int| 1 <= k && 2 * k < nn implies lo_in_parent(p, c, k) && hi_in_parent(
            p,
            c,
            k,
        ) by {
            assert(2 * k != node_min as int);
        }
        assert(heap_valid(p, c));
    }
}


/// Precondition of the min-side repair: the shape holds except that the
/// root's low value may exceed its children's low values.
pub open spec fn min_repair_pre<T, C: Comparator<T>>(s: Seq<T>, c: C) -> bool {
    &&& forall|k: int| 0 <= k && 2 * k < s.len() ==> #[trigger] within_node(s, c, k)
    &&& forall|k: int| 1 <= k && 2 * k < s.len() ==> #[trigger] hi_in_parent(s, c, k)
    &&& forall|k: int|
        1 <= k && 2 * k < s.len() && spec_parent_left(2 * k) != 0 ==> #[trigger] lo_in_parent(
            s,
            c,
            k,
        )
}

/// One step of the min-side sift-down: the chosen child's low value
/// undercuts the sinking node's low value; the two are exchanged and the
/// child's pair is re-ordered if needed.
#[verifier::rlimit(100)]
proof fn sift_down_min_step<T, C: Comparator<T>>(
    p: Seq<T>,
    p3: Seq<T>,
    c: C,
    l: int,
    ch: int,
    fix: bool,
)
    requires
        l % 2 == 0,
        0 <= l,
        l + 1 < p.len(),
        ch == 2 * l + 2 || ch == 2 * l + 4,
        ch < p.len(),
        forall|k: int| 0 <= k && 2 * k < p.len() ==> #[trigger] within_node(p, c, k),
        forall|k: int| 1 <= k && 2 * k < p.len() ==> #[trigger] hi_in_parent(p, c, k),
        forall|k: int|
            1 <= k && 2 * k < p.len() && spec_parent_left(2 * k) != l ==> #[trigger] lo_in_parent(
                p,
                c,
                k,
            ),
        l >= 2 ==> forall|k: int|
            1 <= k && 2 * k < p.len() && #[trigger] spec_parent_left(2 * k) == l ==> c.le(
                p[spec_parent_left(l)],
                p[2 * k],
            ),
        forall|k: int|
            1 <= k && 2 * k < p.len() && #[trigger] spec_parent_left(2 * k) == l ==> c.le(
                p[ch],
                p[2 * k],
            ),
        !c.le(p[l], p[ch]),
        c.le(p[ch], p[l]),
        fix ==> ch + 1 < p.len() && !c.le(p[l], p[ch + 1]),
        !fix ==> (ch + 1 >= p.len() || c.le(p[l], p[ch + 1])),
        p3 == if fix {
            seq_swap(seq_swap(p, ch, l), ch, ch + 1)
        } else {
            seq_swap(p, ch, l)
        },
    ensures
        p3.len() == p.len(),
        forall|k: int| 0 <= k && 2 * k < p.len() ==> #[trigger] within_node(p3, c, k),
        forall|k: int| 1 <= k && 2 * k < p.len() ==> #[trigger] hi_in_parent(p3, c, k),
        forall|k: int|
            1 <= k && 2 * k < p.len() && spec_parent_left(2 * k) != ch ==> #[trigger] lo_in_parent(
                p3,
                c,
                k,
            ),
        forall|k: int|
            1 <= k && 2 * k < p.len() && #[trigger] spec_parent_left(2 * k) == ch ==> c.le(
                p3[spec_parent_left(ch)],
                p3[2 * k],
            ),
{
    let len = p.len() as int;
    assert(spec_parent_left(ch) == l);
    assert(p3[l] == p[ch]);
    assert(fix ==> p3[ch] == p[ch + 1] && p3[ch + 1] == p[l]);
    assert(!fix ==> p3[ch] == p[l]);
    assert(forall|i: int| 0 <= i < len && i != l && i != ch && i != ch + 1 ==> p3[i] == p[i]);
    if fix {
        lemma_flip(c, p[l], p[ch + 1]);
    }
    // children of the sinking node sit at slots 2l + 2 and 2l + 4
    assert forall|k: int|
        1 <= k && 2 * k < len && #[trigger] spec_parent_left(2 * k) == l implies 2 * k == 2 * l + 2
        || 2 * k == 2 * l + 4 by {
        assert(2 * ((k - 1) / 2) == l);
        assert(k - 1 == 2 * ((k - 1) / 2) + (k - 1) % 2);
    }
    assert forall|k: int|
        1 <= k && 2 * k < len && #[trigger] spec_parent_left(2 * k) == ch implies 2 * k >= 2 * ch
        + 2 by {
        assert(2 * ((k - 1) / 2) == ch);
        assert(k - 1 == 2 * ((k - 1) / 2) + (k - 1) % 2);
    }
    assert(within_node(p, c, l / 2));
    assert(c.le(p[l], p[l + 1]));
    assert forall|k: int| 0 <= k && 2 * k < len implies within_node(p3, c, k) by {
        if 2 * k + 1 < len {
            if 2 * k == l {
                assert(l + 1 != ch && l + 1 != ch + 1 && l + 1 != l);
                c.transitive(p[ch], p[l], p[l + 1]);
            } else if 2 * k == ch {
                assert(c.le(p3[ch], p3[ch + 1]));
            } else {
                assert(within_node(p, c, k));
            }
        }
    }
    assert forall|k: int| 1 <= k && 2 * k < len implies hi_in_parent(p3, c, k) by {
        lemma_parent_left_bounds(2 * k);
        assert(hi_in_parent(p, c, k));
        if 2 * k == ch {
            assert(spec_parent_left(ch) + 1 == l + 1);
            if 2 * k + 1 < len {
                if fix {
                    assert(p3[hi_slot(len, k)] == p[l]);
                } else {
                    assert(p3[hi_slot(len, k)] == p[ch + 1]);
                }
            } else {
                assert(hi_slot(len, k) == ch);
                assert(p3[ch] == p[l]);
            }
            assert(c.le(p3[hi_slot(len, k)], p3[l + 1]));
        } else if spec_parent_left(2 * k) == ch {
            assert(2 * k >= 2 * ch + 2);
            if fix {
                c.transitive(p[hi_slot(len, k)], p[ch + 1], p[l]);
            }
        } else if 2 * k == l {
            assert(hi_slot(len, k) == l + 1);
            assert(spec_parent_left(l) + 1 < l);
        } else {
            assert(hi_slot(len, k) != l && hi_slot(len, k) != ch && hi_slot(len, k) != ch + 1);
            assert(spec_parent_left(2 * k) + 1 != ch + 1);
        }
    }
    assert forall|k: int| 1 <= k && 2 * k < len && spec_parent_left(2 * k) != ch implies
        lo_in_parent(p3, c, k) by {
        lemma_parent_left_bounds(2 * k);
        if 2 * k == ch {
            if fix {
                assert(within_node(p, c, ch / 2));
                assert(c.le(p3[l], p3[ch]));
            } else {
                assert(c.le(p3[l], p3[ch]));
            }
        } else if 2 * k == l {
            assert(l >= 2);
            let kch: int = ch / 2;
            assert(2 * kch == ch);
            assert(spec_parent_left(2 * kch) == l);
            assert(c.le(p[spec_parent_left(l)], p[2 * kch]));
            lemma_parent_left_bounds(l);
        } else if spec_parent_left(2 * k) == l {
            assert(c.le(p[ch], p[2 * k]));
        } else {
            assert(lo_in_parent(p, c, k));
        }
    }
    assert forall|k: int|
        1 <= k && 2 * k < len && #[trigger] spec_parent_left(2 * k) == ch implies c.le(
        p3[spec_parent_left(ch)],
        p3[2 * k],
    ) by {
        assert(2 * k >= 2 * ch + 2);
        assert(spec_parent_left(2 * k) != l);
        assert(lo_in_parent(p, c, k));
    }
}

/// If the sinking node has no children, the remaining containment
/// obligations are vacuous and the heap is valid.
proof fn lemma_min_no_children<T, C: Comparator<T>>(p: Seq<T>, c: C, l: int)
    requires
        l % 2 == 0,
        0 <= l < p.len(),
        2 * l + 2 >= p.len(),
        forall|k: int| 0 <= k && 2 * k < p.len() ==> #[trigger] within_node(p, c, k),
        forall|k: int| 1 <= k && 2 * k < p.len() ==> #[trigger] hi_in_parent(p, c, k),
        forall|k: int|
            1 <= k && 2 * k < p.len() && spec_parent_left(2 * k) != l ==> #[trigger] lo_in_parent(
                p,
                c,
                k,
            ),
    ensures
        heap_valid(p, c),
{
    assert forall|k: int|
        1 <= k && 2 * k < p.len() && #[trigger] spec_parent_left(2 * k) == l implies false by {
        assert(2 * ((k - 1) / 2) == l);
        assert(k - 1 == 2 * ((k - 1) / 2) + (k - 1) % 2);
        assert(2 * k >= 2 * l + 2);
    }
}

/// If the chosen child's low value already sits above the sinking node's
/// low value, every remaining containment holds and the heap is valid.
proof fn lemma_min_descent_done<T, C: Comparator<T>>(p: Seq<T>, c: C, l: int, ch: int)
    requires
        l % 2 == 0,
        0 <= l < p.len(),
        ch == 2 * l + 2 || ch == 2 * l + 4,
        ch < p.len(),
        forall|k: int| 0 <= k && 2 * k < p.len() ==> #[trigger] within_node(p, c, k),
        forall|k: int| 1 <= k && 2 * k < p.len() ==> #[trigger] hi_in_parent(p, c, k),
        forall|k: int|
            1 <= k && 2 * k < p.len() && spec_parent_left(2 * k) != l ==> #[trigger] lo_in_parent(
                p,
                c,
                k,
            ),
        forall|k: int|
            1 <= k && 2 * k < p.len() && #[trigger] spec_parent_left(2 * k) == l ==> c.le(
                p[ch],
                p[2 * k],
            ),
        c.le(p[l], p[ch]),
    ensures
        heap_valid(p, c),
{
    assert forall|k: int|
        1 <= k && 2 * k < p.len() && spec_parent_left(2 * k) == l implies lo_in_parent(
        p,
        c,
        k,
    ) by {
        c.transitive(p[l], p[ch], p[2 * k]);
    }
}

/// The min value in the root node of an otherwise valid interval heap has
/// been replaced (without breaking the root's own pair order): sift it down
/// to restore the interval-heap shape.
#[verifier::rlimit(100)]
pub(crate) fn update_min<T, C: Comparator<T>>(v: &mut Vec<T>, cmp: &C)
    requires
        min_repair_pre(old(v)@, *cmp),
    ensures
        final(v)@.len() == old(v)@.len(),
        heap_valid(final(v)@, *cmp),
        final(v)@.to_multiset() == old(v)@.to_multiset(),
{
    let ghost c: C = *cmp;
    let n = v.len();
    if n < 3 {
        proof {
            assert forall|k: int| 1 <= k && 2 * k < n as int implies lo_in_parent(v@, c, k)
                && hi_in_parent(v@, c, k) by {
                assert(false);
            }
        }
        return;
    }
    let mut l: usize = 0;
    loop
        invariant
            c == *cmp,
            n == v.len(),
            n >= 3,
            v@.len() == old(v)@.len(),
            l % 2 == 0,
            (l as int) < n as int,
            forall|k: int| 0 <= k && 2 * k < n as int ==> #[trigger] within_node(v@, c, k),
            forall|k: int| 1 <= k && 2 * k < n as int ==> #[trigger] hi_in_parent(v@, c, k),
            forall|k: int|
                1 <= k && 2 * k < n as int && spec_parent_left(2 * k) != l as int
                    ==> #[trigger] lo_in_parent(v@, c, k),
            l >= 2 ==> forall|k: int|
                1 <= k && 2 * k < n as int && #[trigger] spec_parent_left(2 * k) == l as int
                    ==> c.le(v@[spec_parent_left(l as int)], v@[2 * k]),
            v@.to_multiset() == old(v)@.to_multiset(),
        decreases n as int - l as int,
    {
        let ghost p: Seq<T> = v@;
        // children of the node at `l` would sit at slots 2l + 2 and 2l + 4
        if l > (n - 3) / 2 {
            proof {
                lemma_min_no_children(p, c, l as int);
            }
            return;
        }
        let c1 = 2 * l + 2;
        let ch = if c1 > n - 3 {
            c1
        } else {
            let c2 = c1 + 2;
            if !cmp.compares_le(&v[c2], &v[c1]) {
                c1
            } else {
                c2
            }
        };
        proof {
            lemma_refl(c, p[ch as int]);
            if ch == c1 && c1 as int + 2 < n as int {
                lemma_flip(c, p[c1 as int + 2], p[c1 as int]);
            }
            assert forall|k: int|
                1 <= k && 2 * k < n as int && #[trigger] spec_parent_left(2 * k) == l as int
                implies c.le(p[ch as int], p[2 * k]) by {
                assert(2 * ((k - 1) / 2) == l as int);
                assert(k - 1 == 2 * ((k - 1) / 2) + (k - 1) % 2);
                assert(2 * k == 2 * (l as int) + 2 || 2 * k == 2 * (l as int) + 4);
            }
        }
        if !cmp.compares_le(&v[l], &v[ch]) {
            swap_slots(v, ch, l);
            let r = ch + 1;
            let ghost mut fix: bool = false;
            if r < n {
                if !cmp.compares_le(&v[ch], &v[r]) {
                    let ghost p2: Seq<T> = v@;
                    swap_slots(v, ch, r);
                    proof {
                        fix = true;
                        lemma_swap_multiset(p2, ch as int, r as int);
                    }
                }
            }
            proof {
                lemma_swap_multiset(p, ch as int, l as int);
                lemma_flip(c, p[l as int], p[ch as int]);
                sift_down_min_step(p, v@, c, l as int, ch as int, fix);
            }
            l = ch;
        } else {
            proof {
                lemma_min_descent_done(p, c, l as int, ch as int);
            }
            return;
        }
    }
}


/// Precondition of the max-side repair on a prefix: the shape holds except
/// that the root's high value may undercut its children's high values; an
/// unpaired last item must already sit below the root's high value.
pub open spec fn max_repair_pre<T, C: Comparator<T>>(s: Seq<T>, c: C) -> bool {
    &&& forall|k: int| 0 <= k && 2 * k < s.len() ==> #[trigger] within_node(s, c, k)
    &&& forall|k: int| 1 <= k && 2 * k < s.len() ==> #[trigger] lo_in_parent(s, c, k)
    &&& forall|k: int|
        1 <= k && 2 * k < s.len() && spec_parent_left(2 * k) != 0 ==> #[trigger] hi_in_parent(
            s,
            c,
            k,
        )
    &&& s.len() % 2 == 1 && s.len() >= 3 ==> c.le(s[s.len() - 1], s[1])
}

/// One step of the max-side sift-down: the chosen child's high value
/// exceeds the sinking node's high value; the two are exchanged and the
/// child's pair is re-ordered if needed.
#[verifier::rlimit(100)]
proof fn sift_down_max_step<T, C: Comparator<T>>(
    p: Seq<T>,
    p3: Seq<T>,
    c: C,
    r: int,
    ch: int,
    fix: bool,
)
    requires
        r % 2 == 1,
        1 <= r < p.len(),
        ch == 2 * r + 1 || ch == 2 * r + 3,
        ch < p.len(),
        forall|k: int| 0 <= k && 2 * k < p.len() ==> #[trigger] within_node(p, c, k),
        forall|k: int| 1 <= k && 2 * k < p.len() ==> #[trigger] lo_in_parent(p, c, k),
        forall|k: int|
            1 <= k && 2 * k < p.len() && spec_parent_left(2 * k) != r - 1
                ==> #[trigger] hi_in_parent(p, c, k),
        r >= 3 ==> forall|k: int|
            1 <= k && 2 * k < p.len() && #[trigger] spec_parent_left(2 * k) == r - 1 ==> c.le(
                p[hi_slot(p.len() as int, k)],
                p[spec_parent_left(r - 1) + 1],
            ),
        p.len() % 2 == 1 && p.len() >= 3 ==> c.le(p[p.len() - 1], p[r]),
        forall|k: int|
            1 <= k && 2 * k < p.len() && #[trigger] spec_parent_left(2 * k) == r - 1 && 2 * k + 1
                < p.len() ==> c.le(p[2 * k + 1], p[ch]),
        !c.le(p[ch], p[r]),
        c.le(p[r], p[ch]),
        fix ==> !c.le(p[ch - 1], p[r]),
        !fix ==> c.le(p[ch - 1], p[r]),
        p3 == if fix {
            seq_swap(seq_swap(p, ch, r), ch - 1, ch)
        } else {
            seq_swap(p, ch, r)
        },
    ensures
        p3.len() == p.len(),
        forall|k: int| 0 <= k && 2 * k < p.len() ==> #[trigger] within_node(p3, c, k),
        forall|k: int| 1 <= k && 2 * k < p.len() ==> #[trigger] lo_in_parent(p3, c, k),
        forall|k: int|
            1 <= k && 2 * k < p.len() && spec_parent_left(2 * k) != ch - 1
                ==> #[trigger] hi_in_parent(p3, c, k),
        forall|k: int|
            1 <= k && 2 * k < p.len() && #[trigger] spec_parent_left(2 * k) == ch - 1 ==> c.le(
                p3[hi_slot(p.len() as int, k)],
                p3[spec_parent_left(ch - 1) + 1],
            ),
        p.len() % 2 == 1 && p.len() >= 3 ==> c.le(p3[p.len() - 1], p3[ch]),
{
    let len = p.len() as int;
    assert(spec_parent_left(ch - 1) == r - 1);
    assert(p3[r] == p[ch]);
    assert(fix ==> p3[ch - 1] == p[r] && p3[ch] == p[ch - 1]);
    assert(!fix ==> p3[ch] == p[r] && p3[ch - 1] == p[ch - 1]);
    assert(forall|i: int| 0 <= i < len && i != r && i != ch && i != ch - 1 ==> p3[i] == p[i]);
    if fix {
        lemma_flip(c, p[ch - 1], p[r]);
    }
    // children of the sinking node pair up at slots (2r, 2r+1) and (2r+2, 2r+3)
    assert forall|k: int|
        1 <= k && 2 * k < len && #[trigger] spec_parent_left(2 * k) == r - 1 implies 2 * k == 2 * r
        || 2 * k == 2 * r + 2 by {
        assert(2 * ((k - 1) / 2) == r - 1);
        assert(k - 1 == 2 * ((k - 1) / 2) + (k - 1) % 2);
    }
    assert forall|k: int|
        1 <= k && 2 * k < len && #[trigger] spec_parent_left(2 * k) == ch - 1 implies 2 * k >= 2
        * ch by {
        assert(2 * ((k - 1) / 2) == ch - 1);
        assert(k - 1 == 2 * ((k - 1) / 2) + (k - 1) % 2);
    }
    assert(within_node(p, c, (r - 1) / 2));
    assert(c.le(p[r - 1], p[r]));
    assert(within_node(p, c, (ch - 1) / 2));
    assert(c.le(p[ch - 1], p[ch]));
    assert forall|k: int| 0 <= k && 2 * k < len implies within_node(p3, c, k) by {
        if 2 * k + 1 < len {
            if 2 * k + 1 == r {
                assert(r - 1 != ch && r - 1 != ch - 1 && r - 1 != r);
                c.transitive(p[r - 1], p[r], p[ch]);
            } else if 2 * k + 1 == ch {
                assert(c.le(p3[ch - 1], p3[ch]));
            } else {
                assert(within_node(p, c, k));
            }
        }
    }
    assert forall|k: int| 1 <= k && 2 * k < len implies lo_in_parent(p3, c, k) by {
        lemma_parent_left_bounds(2 * k);
        assert(lo_in_parent(p, c, k));
        if 2 * k == ch - 1 {
            assert(spec_parent_left(ch - 1) == r - 1);
            if fix {
                assert(c.le(p3[r - 1], p3[ch - 1]));
            }
        } else if spec_parent_left(2 * k) == ch - 1 {
            assert(2 * k >= 2 * ch);
            if fix {
                c.transitive(p[r], p[ch - 1], p[2 * k]);
            }
        } else {
            assert(2 * k != r && 2 * k != ch);
            assert(spec_parent_left(2 * k) != ch - 1);
        }
    }
    assert forall|k: int| 1 <= k && 2 * k < len && spec_parent_left(2 * k) != ch - 1 implies
        hi_in_parent(p3, c, k) by {
        lemma_parent_left_bounds(2 * k);
        if 2 * k == ch - 1 {
            assert(hi_slot(len, k) == ch);
            assert(c.le(p3[ch], p3[r]));
        } else if spec_parent_left(2 * k) == r - 1 {
            // the sibling of the node descended into
            assert(2 * k == 2 * r || 2 * k == 2 * r + 2);
            if 2 * k + 1 < len {
                assert(hi_slot(len, k) == 2 * k + 1);
                assert(c.le(p[2 * k + 1], p[ch]));
                assert(2 * k + 1 != r && 2 * k + 1 != ch - 1);
                assert(c.le(p3[hi_slot(len, k)], p3[r]));
            } else {
                assert(hi_slot(len, k) == 2 * k);
                assert(2 * k == len - 1 && len % 2 == 1 && len >= 3);
                assert(c.le(p[len - 1], p[r]));
                assert(2 * k != r && 2 * k != ch && 2 * k != ch - 1);
                c.transitive(p[len - 1], p[r], p[ch]);
            }
        } else if 2 * k == r - 1 {
            // the sinking node itself against its own parent
            assert(r >= 3);
            assert(hi_slot(len, k) == r);
            let kch: int = (ch - 1) / 2;
            assert(2 * kch == ch - 1);
            assert(spec_parent_left(2 * kch) == r - 1);
            assert(hi_slot(len, kch) == ch);
            assert(c.le(p[ch], p[spec_parent_left(r - 1) + 1]));
            lemma_parent_left_bounds(r - 1);
            assert(spec_parent_left(r - 1) + 1 < r - 1);
        } else {
            assert(hi_in_parent(p, c, k));
            assert(hi_slot(len, k) != r && hi_slot(len, k) != ch && hi_slot(len, k) != ch - 1);
            assert(spec_parent_left(2 * k) + 1 != r && spec_parent_left(2 * k) + 1 != ch);
        }
    }
    assert forall|k: int|
        1 <= k && 2 * k < len && #[trigger] spec_parent_left(2 * k) == ch - 1 implies c.le(
        p3[hi_slot(len, k)],
        p3[spec_parent_left(ch - 1) + 1],
    ) by {
        assert(2 * k >= 2 * ch);
        assert(spec_parent_left(2 * k) != r - 1);
        assert(hi_in_parent(p, c, k));
        assert(spec_parent_left(2 * k) + 1 == ch);
        assert(hi_slot(len, k) != r && hi_slot(len, k) != ch && hi_slot(len, k) != ch - 1);
        assert(spec_parent_left(ch - 1) + 1 == r);
        assert(c.le(p[hi_slot(len, k)], p[ch]));
    }
    if len % 2 == 1 && len >= 3 {
        assert(len - 1 != r && len - 1 != ch);
        if len - 1 == ch - 1 {
            assert(false);
        }
        if fix {
            c.transitive(p[len - 1], p[r], p[ch - 1]);
        }
        assert(c.le(p3[len - 1], p3[ch]));
    }
}

/// If the sinking node's children lack high slots, the one possible child
/// is the unpaired last node, whose containment the precondition carries:
/// the heap is valid.
proof fn lemma_max_no_children<T, C: Comparator<T>>(p: Seq<T>, c: C, r: int)
    requires
        r % 2 == 1,
        1 <= r < p.len(),
        2 * r + 1 >= p.len(),
        forall|k: int| 0 <= k && 2 * k < p.len() ==> #[trigger] within_node(p, c, k),
        forall|k: int| 1 <= k && 2 * k < p.len() ==> #[trigger] lo_in_parent(p, c, k),
        forall|k: int|
            1 <= k && 2 * k < p.len() && spec_parent_left(2 * k) != r - 1
                ==> #[trigger] hi_in_parent(p, c, k),
        p.len() % 2 == 1 && p.len() >= 3 ==> c.le(p[p.len() - 1], p[r]),
    ensures
        heap_valid(p, c),
{
    let n = p.len() as int;
    assert forall|k: int|
        1 <= k && 2 * k < n && #[trigger] spec_parent_left(2 * k) == r - 1 implies hi_in_parent(
        p,
        c,
        k,
    ) by {
        assert(2 * ((k - 1) / 2) == r - 1);
        assert(k - 1 == 2 * ((k - 1) / 2) + (k - 1) % 2);
        assert(2 * k == 2 * r || 2 * k == 2 * r + 2);
        assert(2 * k == n - 1);
        assert(hi_slot(n, k) == n - 1);
        assert(spec_parent_left(2 * k) + 1 == r);
    }
}

/// If the chosen child's high value already sits below the sinking node's
/// high value, every remaining containment holds and the heap is valid.
proof fn lemma_max_descent_done<T, C: Comparator<T>>(p: Seq<T>, c: C, r: int, ch: int)
    requires
        r % 2 == 1,
        1 <= r < p.len(),
        ch == 2 * r + 1 || ch == 2 * r + 3,
        ch < p.len(),
        forall|k: int| 0 <= k && 2 * k < p.len() ==> #[trigger] within_node(p, c, k),
        forall|k: int| 1 <= k && 2 * k < p.len() ==> #[trigger] lo_in_parent(p, c, k),
        forall|k: int|
            1 <= k && 2 * k < p.len() && spec_parent_left(2 * k) != r - 1
                ==> #[trigger] hi_in_parent(p, c, k),
        p.len() % 2 == 1 && p.len() >= 3 ==> c.le(p[p.len() - 1], p[r]),
        forall|k: int|
            1 <= k && 2 * k < p.len() && #[trigger] spec_parent_left(2 * k) == r - 1 && 2 * k + 1
                < p.len() ==> c.le(p[2 * k + 1], p[ch]),
        c.le(p[ch], p[r]),
    ensures
        heap_valid(p, c),
{
    let n = p.len() as int;
    assert forall|k: int|
        1 <= k && 2 * k < n && spec_parent_left(2 * k) == r - 1 implies hi_in_parent(p, c, k) by {
        assert(2 * ((k - 1) / 2) == r - 1);
        assert(k - 1 == 2 * ((k - 1) / 2) + (k - 1) % 2);
        assert(2 * k == 2 * r || 2 * k == 2 * r + 2);
        if 2 * k + 1 < n {
            assert(c.le(p[2 * k + 1], p[ch]));
            c.transitive(p[2 * k + 1], p[ch], p[r]);
            assert(hi_slot(n, k) == 2 * k + 1);
        } else {
            assert(2 * k == n - 1);
            assert(hi_slot(n, k) == n - 1);
        }
        assert(spec_parent_left(2 * k) + 1 == r);
    }
}

/// The max value in the root node of an otherwise valid interval heap of
/// length `n` (a prefix of `v`) has been replaced (without breaking the
/// root's own pair order): sift it down to restore the interval-heap shape
/// on that prefix.
#[verifier::rlimit(100)]
pub(crate) fn update_max<T, C: Comparator<T>>(v: &mut Vec<T>, n: usize, cmp: &C)
    requires
        n <= old(v).len(),
        max_repair_pre(old(v)@.take(n as int), *cmp),
    ensures
        final(v)@.len() == old(v)@.len(),
        heap_valid(final(v)@.take(n as int), *cmp),
        final(v)@.to_multiset() == old(v)@.to_multiset(),
        final(v)@.take(n as int).to_multiset() == old(v)@.take(n as int).to_multiset(),
        final(v)@.skip(n as int) == old(v)@.skip(n as int),
{
    let ghost c: C = *cmp;
    let ghost nn: int = n as int;
    if n < 3 {
        proof {
            let p = v@.take(nn);
            assert forall|k: int| 1 <= k && 2 * k < nn implies lo_in_parent(p, c, k)
                && hi_in_parent(p, c, k) by {
                assert(false);
            }
            assert(heap_valid(p, c));
        }
        return;
    }
    let mut r: usize = 1;
    loop
        invariant
            c == *cmp,
            nn == n as int,
            3 <= n <= v.len(),
            v@.len() == old(v)@.len(),
            r % 2 == 1,
            1 <= r as int,
            (r as int) < nn,
            forall|k: int| 0 <= k && 2 * k < nn ==> #[trigger] within_node(v@.take(nn), c, k),
            forall|k: int| 1 <= k && 2 * k < nn ==> #[trigger] lo_in_parent(v@.take(nn), c, k),
            forall|k: int|
                1 <= k && 2 * k < nn && spec_parent_left(2 * k) != r as int - 1
                    ==> #[trigger] hi_in_parent(v@.take(nn), c, k),
            r >= 3 ==> forall|k: int|
                1 <= k && 2 * k < nn && #[trigger] spec_parent_left(2 * k) == r as int - 1
                    ==> c.le(
                    v@.take(nn)[hi_slot(nn, k)],
                    v@.take(nn)[spec_parent_left(r as int - 1) + 1],
                ),
            nn % 2 == 1 ==> c.le(v@.take(nn)[nn - 1], v@.take(nn)[r as int]),
            v@.to_multiset() == old(v)@.to_multiset(),
            v@.take(nn).to_multiset() == old(v)@.take(nn).to_multiset(),
            v@.skip(nn) == old(v)@.skip(nn),
        decreases nn - r as int,
    {
        let ghost p: Seq<T> = v@.take(nn);
        proof {
            assert(forall|i: int| 0 <= i < nn ==> #[trigger] p[i] == v@[i]);
        }
        // children's high slots of the node at `r` are 2r + 1 and 2r + 3
        if r > (n - 2) / 2 {
            proof {
                lemma_max_no_children(p, c, r as int);
            }
            return;
        }
        let c1 = 2 * r + 1;
        let ch = if c1 > n - 3 {
            c1
        } else {
            let c2 = c1 + 2;
            if !cmp.compares_le(&v[c1], &v[c2]) {
                c1
            } else {
                c2
            }
        };
        proof {
            lemma_refl(c, p[ch as int]);
            if ch == c1 && c1 as int + 2 < nn {
                lemma_flip(c, p[c1 as int], p[c1 as int + 2]);
                assert(c.le(p[c1 as int + 2], p[c1 as int]));
            }
            assert forall|k: int|
                1 <= k && 2 * k < nn && #[trigger] spec_parent_left(2 * k) == r as int - 1 && 2 * k
                    + 1 < nn implies c.le(p[2 * k + 1], p[ch as int]) by {
                assert(2 * ((k - 1) / 2) == r as int - 1);
                assert(k - 1 == 2 * ((k - 1) / 2) + (k - 1) % 2);
                assert(2 * k + 1 == c1 as int || 2 * k + 1 == c1 as int + 2);
            }
        }
        if !cmp.compares_le(&v[ch], &v[r]) {
            let ghost v0: Seq<T> = v@;
            swap_slots(v, ch, r);
            proof {
                lemma_swap_multiset(v0, ch as int, r as int);
                lemma_swap_take(v0, nn, ch as int, r as int);
                lemma_swap_multiset(p, ch as int, r as int);
            }
            let lft = ch - 1;
            let ghost v1: Seq<T> = v@;
            let ghost p2: Seq<T> = v@.take(nn);
            let ghost mut fix: bool = false;
            proof {
                assert(p2 == seq_swap(p, ch as int, r as int));
                assert(forall|i: int| 0 <= i < nn ==> #[trigger] p2[i] == v1[i]);
                assert(p2[lft as int] == p[lft as int] && p2[ch as int] == p[r as int]);
            }
            if !cmp.compares_le(&v[lft], &v[ch]) {
                swap_slots(v, lft, ch);
                proof {
                    fix = true;
                    lemma_swap_multiset(v1, lft as int, ch as int);
                    lemma_swap_take(v1, nn, lft as int, ch as int);
                    lemma_swap_multiset(p2, lft as int, ch as int);
                }
            }
            proof {
                lemma_flip(c, p[ch as int], p[r as int]);
                sift_down_max_step(p, v@.take(nn), c, r as int, ch as int, fix);
            }
            r = ch;
        } else {
            proof {
                lemma_max_descent_done(p, c, r as int, ch as int);
            }
            return;
        }
    }
}


/// Removing slot `i` by swapping in the last item and truncating removes
/// exactly `s[i]` from the multiset of items.
pub proof fn lemma_swap_remove_multiset<T>(s: Seq<T>, i: int)
    requires
        0 <= i < s.len(),
    ensures
        s.update(i, s.last()).drop_last().to_multiset() == s.to_multiset().remove(s[i]),
{
    broadcast use group_to_multiset_ensures;

    let s1 = s.update(i, s.last());
    assert(s1.drop_last() =~= s1.remove(s.len() - 1));
    assert(s1[s.len() - 1] == s.last());
    assert(s.contains(s[i]));
    assert(s.to_multiset().count(s[i]) > 0);
    assert(s1.drop_last().to_multiset() =~= s.to_multiset().remove(s[i]));
}

/// After removing the minimum by swapping the last item into slot 0, the
/// min-side repair's precondition holds.
pub proof fn lemma_pop_min_pre<T, C: Comparator<T>>(s: Seq<T>, c: C)
    requires
        heap_valid(s, c),
        s.len() >= 3,
    ensures
        min_repair_pre(s.update(0, s.last()).drop_last(), c),
{
    let n = s.len() as int;
    let t = s.update(0, s.last()).drop_last();
    assert(t.len() == n - 1);
    assert(forall|i: int| 1 <= i < n - 1 ==> #[trigger] t[i] == s[i]);
    assert(t[0] == s[n - 1]);
    assert forall|k: int| 0 <= k && 2 * k < n - 1 implies within_node(t, c, k) by {
        if 2 * k + 1 < n - 1 {
            if k == 0 {
                lemma_root_max(s, c, n - 1);
            } else {
                assert(within_node(s, c, k));
            }
        }
    }
    assert forall|k: int| 1 <= k && 2 * k < n - 1 implies hi_in_parent(t, c, k) by {
        lemma_parent_left_bounds(2 * k);
        assert(hi_in_parent(s, c, k));
        assert(within_node(s, c, k));
        if 2 * k + 1 < n - 1 {
            assert(hi_slot(n - 1, k) == 2 * k + 1 && hi_slot(n, k) == 2 * k + 1);
        } else {
            assert(hi_slot(n - 1, k) == 2 * k);
            assert(2 * k + 1 == n - 1);
            assert(hi_slot(n, k) == 2 * k + 1);
            c.transitive(s[2 * k], s[2 * k + 1], s[spec_parent_left(2 * k) + 1]);
        }
    }
    assert forall|k: int|
        1 <= k && 2 * k < n - 1 && spec_parent_left(2 * k) != 0 implies lo_in_parent(t, c, k) by {
        lemma_parent_left_bounds(2 * k);
        assert(lo_in_parent(s, c, k));
    }
}

/// After removing the maximum by swapping the last item into slot 1, the
/// max-side repair's precondition holds.
pub proof fn lemma_pop_max_pre<T, C: Comparator<T>>(s: Seq<T>, c: C)
    requires
        heap_valid(s, c),
        s.len() >= 3,
    ensures
        max_repair_pre(s.update(1, s.last()).drop_last(), c),
{
    let n = s.len() as int;
    let t = s.update(1, s.last()).drop_last();
    assert(t.len() == n - 1);
    assert(forall|i: int| 0 <= i < n - 1 && i != 1 ==> #[trigger] t[i] == s[i]);
    assert(t[1] == s[n - 1]);
    assert forall|k: int| 0 <= k && 2 * k < n - 1 implies within_node(t, c, k) by {
        if 2 * k + 1 < n - 1 {
            if k == 0 {
                lemma_root_min(s, c, n - 1);
            } else {
                assert(within_node(s, c, k));
            }
        }
    }
    assert forall|k: int| 1 <= k && 2 * k < n - 1 implies lo_in_parent(t, c, k) by {
        lemma_parent_left_bounds(2 * k);
        assert(lo_in_parent(s, c, k));
    }
    assert forall|k: int|
        1 <= k && 2 * k < n - 1 && spec_parent_left(2 * k) != 0 implies hi_in_parent(t, c, k) by {
        lemma_parent_left_bounds(2 * k);
        assert(hi_in_parent(s, c, k));
        assert(within_node(s, c, k));
        assert(spec_parent_left(2 * k) + 1 >= 3);
        if 2 * k + 1 < n - 1 {
            assert(hi_slot(n - 1, k) == 2 * k + 1 && hi_slot(n, k) == 2 * k + 1);
        } else {
            assert(hi_slot(n - 1, k) == 2 * k);
            assert(2 * k + 1 == n - 1);
            assert(hi_slot(n, k) == 2 * k + 1);
            c.transitive(s[2 * k], s[2 * k + 1], s[spec_parent_left(2 * k) + 1]);
        }
    }
    if (n - 1) % 2 == 1 && n - 1 >= 3 {
        assert(t[n - 2] == s[n - 2]);
        let k = (n - 2) / 2;
        assert(2 * k == n - 2 && 2 * k + 1 == n - 1);
        assert(within_node(s, c, k));
        assert(c.le(t[n - 2], t[1]));
    }
}

/// Two successive minimum removals come out in non-decreasing order: the
/// first removed value is a lower bound of everything that remains, so it
/// is at most whatever is removed next.
pub proof fn lemma_pop_min_monotone<T, C: Comparator<T>>(c: C, s: Seq<T>, m1: T, m2: T)
    requires
        is_lower_bound(s, c, m1),
        s.to_multiset().remove(m1).count(m2) > 0,
    ensures
        c.le(m1, m2),
{
    broadcast use group_to_multiset_ensures;

    assert(s.to_multiset().count(m2) > 0);
    assert(s.contains(m2));
    let i = choose|i: int| 0 <= i < s.len() && s[i] == m2;
    assert(c.le(m1, s[i]));
}

/// Two successive maximum removals come out in non-increasing order.
pub proof fn lemma_pop_max_monotone<T, C: Comparator<T>>(c: C, s: Seq<T>, m1: T, m2: T)
    requires
        is_upper_bound(s, c, m1),
        s.to_multiset().remove(m1).count(m2) > 0,
    ensures
        c.le(m2, m1),
{
    broadcast use group_to_multiset_ensures;

    assert(s.to_multiset().count(m2) > 0);
    assert(s.contains(m2));
    let i = choose|i: int| 0 <= i < s.len() && s[i] == m2;
    assert(c.le(s[i], m1));
}


/// A maximal run of minimum removals from the multiset `ms`: each removed
/// value bounds everything still present, and the run stops only once
/// nothing is left.
pub open spec fn min_removal_run<T, C: Comparator<T>>(c: C, ms: Multiset<T>, ps: Seq<T>) -> bool
    decreases ps.len(),
{
    if ps.len() == 0 {
        ms.len() == 0
    } else {
        &&& ms.count(ps[0]) > 0
        &&& (forall|x: T| #[trigger] ms.count(x) > 0 ==> c.le(ps[0], x))
        &&& min_removal_run(c, ms.remove(ps[0]), ps.drop_first())
    }
}

/// A maximal run of maximum removals from the multiset `ms`.
pub open spec fn max_removal_run<T, C: Comparator<T>>(c: C, ms: Multiset<T>, ps: Seq<T>) -> bool
    decreases ps.len(),
{
    if ps.len() == 0 {
        ms.len() == 0
    } else {
        &&& ms.count(ps[0]) > 0
        &&& (forall|x: T| #[trigger] ms.count(x) > 0 ==> c.le(x, ps[0]))
        &&& max_removal_run(c, ms.remove(ps[0]), ps.drop_first())
    }
}

/// Draining a heap through repeated minimum removal yields its items in
/// ascending order and exhausts exactly the original multiset: `pop_min`'s
/// contract makes every maximal run of removals such a run.
pub proof fn lemma_min_removal_run_sorted<T, C: Comparator<T>>(c: C, ms: Multiset<T>, ps: Seq<T>)
    requires
        min_removal_run(c, ms, ps),
    ensures
        sorted_by(ps, c),
        ps.to_multiset() == ms,
    decreases ps.len(),
{
    broadcast use group_to_multiset_ensures;

    if ps.len() == 0 {
        vstd::multiset::lemma_multiset_empty_len(ms);
        assert(ps.to_multiset() =~= ms);
    } else {
        let tail = ps.drop_first();
        lemma_min_removal_run_sorted(c, ms.remove(ps[0]), tail);
        assert(tail =~= ps.remove(0));
        assert(tail.to_multiset() == ps.to_multiset().remove(ps[0]));
        assert(ps.contains(ps[0]));
        assert(ps.to_multiset().count(ps[0]) > 0);
        assert forall|x: T| #[trigger] ps.to_multiset().count(x) == ms.count(x) by {
            broadcast use vstd::multiset::group_multiset_axioms;

            assert(tail.to_multiset().count(x) == ms.remove(ps[0]).count(x));
        }
        assert(ps.to_multiset() =~= ms);
        assert forall|i: int, j: int| 0 <= i <= j < ps.len() implies c.le(
            #[trigger] ps[i],
            #[trigger] ps[j],
        ) by {
            if i == 0 {
                if j == 0 {
                    assert(c.le(ps[0], ps[0]));
                } else {
                    assert(tail[j - 1] == ps[j]);
                    assert(tail.contains(ps[j]));
                    assert(tail.to_multiset().count(ps[j]) > 0);
                    assert(ms.count(ps[j]) > 0);
                }
            } else {
                assert(tail[i - 1] == ps[i] && tail[j - 1] == ps[j]);
            }
        }
    }
}

/// Draining a heap through repeated maximum removal yields its items in
/// descending order and exhausts exactly the original multiset.
pub proof fn lemma_max_removal_run_sorted<T, C: Comparator<T>>(c: C, ms: Multiset<T>, ps: Seq<T>)
    requires
        max_removal_run(c, ms, ps),
    ensures
        forall|i: int, j: int| 0 <= i <= j < ps.len() ==> c.le(#[trigger] ps[j], #[trigger] ps[i]),
        ps.to_multiset() == ms,
    decreases ps.len(),
{
    broadcast use group_to_multiset_ensures;

    if ps.len() == 0 {
        vstd::multiset::lemma_multiset_empty_len(ms);
        assert(ps.to_multiset() =~= ms);
    } else {
        let tail = ps.drop_first();
        lemma_max_removal_run_sorted(c, ms.remove(ps[0]), tail);
        assert(tail =~= ps.remove(0));
        assert(tail.to_multiset() == ps.to_multiset().remove(ps[0]));
        assert(ps.contains(ps[0]));
        assert(ps.to_multiset().count(ps[0]) > 0);
        assert forall|x: T| #[trigger] ps.to_multiset().count(x) == ms.count(x) by {
            broadcast use vstd::multiset::group_multiset_axioms;

            assert(tail.to_multiset().count(x) == ms.remove(ps[0]).count(x));
        }
        assert(ps.to_multiset() =~= ms);
        assert forall|i: int, j: int| 0 <= i <= j < ps.len() implies c.le(
            #[trigger] ps[j],
            #[trigger] ps[i],
        ) by {
            if i == 0 {
                if j == 0 {
                    assert(c.le(ps[0], ps[0]));
                } else {
                    assert(tail[j - 1] == ps[j]);
                    assert(tail.contains(ps[j]));
                    assert(tail.to_multiset().count(ps[j]) > 0);
                    assert(ms.count(ps[j]) > 0);
                }
            } else {
                assert(tail[i - 1] == ps[i] && tail[j - 1] == ps[j]);
            }
        }
    }
}


/// Under a total preorder, two ascending arrangements of the same multiset
/// agree position by position (up to order-equivalence of tied items): the
/// sorted order of a heap's contents is unique.
pub proof fn lemma_sorted_unique<T, C: Comparator<T>>(c: C, s1: Seq<T>, s2: Seq<T>)
    requires
        sorted_by(s1, c),
        sorted_by(s2, c),
        s1.to_multiset() == s2.to_multiset(),
    ensures
        s1.len() == s2.len(),
        forall|i: int|
            0 <= i < s1.len() ==> c.le(#[trigger] s1[i], s2[i]) && c.le(s2[i], s1[i]),
    decreases s1.len(),
{
    broadcast use group_to_multiset_ensures;
    broadcast use vstd::multiset::group_multiset_axioms;

    assert(s1.len() == s1.to_multiset().len());
    assert(s2.len() == s2.to_multiset().len());
    if s1.len() == 0 {
    } else {
        let h1 = s1[0];
        let h2 = s2[0];
        // the two heads are order-equivalent: each occurs in the other run
        assert(s1.contains(h1) && s2.contains(h2));
        assert(s2.to_multiset().count(h1) > 0);
        assert(s2.contains(h1));
        let j = choose|j: int| 0 <= j < s2.len() && s2[j] == h1;
        assert(c.le(h2, h1));
        assert(s1.to_multiset().count(h2) > 0);
        assert(s1.contains(h2));
        let j1 = choose|j1: int| 0 <= j1 < s1.len() && s1[j1] == h2;
        assert(c.le(h1, h2));
        // exchange the equivalent items so that the heads agree exactly
        let s3 = s2.update(0, h1).update(j, h2);
        assert(s3.to_multiset() == s2.to_multiset()) by {
            assert(s3 == seq_swap(s2, j, 0) || j == 0) by {
                if j != 0 {
                    assert(s3 =~= seq_swap(s2, j, 0));
                }
            }
            if j == 0 {
                assert(s3 =~= s2);
            } else {
                lemma_swap_multiset(s2, j, 0);
            }
        }
        assert(forall|i: int| 0 <= i < s2.len() && i != 0 && i != j ==> s3[i] == s2[i]);
        assert(s3[0] == h1 && (j == 0 || s3[j] == h2));
        assert forall|a: int, b: int| 0 <= a <= b < s3.len() implies c.le(
            #[trigger] s3[a],
            #[trigger] s3[b],
        ) by {
            if a == 0 {
                if b == 0 || b == j {
                } else {
                    c.transitive(h1, h2, s2[b]);
                }
            } else if b == j {
                assert(c.le(s2[a], s2[j]));
                c.transitive(s2[a], h1, h2);
            } else if a == j {
                assert(c.le(s2[j], s2[b]));
                c.transitive(h2, h1, s2[b]);
            } else {
                assert(c.le(s2[a], s2[b]));
            }
        }
        // the tails carry the same multiset: recurse
        let t1 = s1.drop_first();
        let t3 = s3.drop_first();
        assert(t1 =~= s1.remove(0));
        assert(t3 =~= s3.remove(0));
        assert(t1.to_multiset() == s1.to_multiset().remove(h1));
        assert(t3.to_multiset() == s3.to_multiset().remove(h1));
        assert forall|a: int, b: int| 0 <= a <= b < t1.len() implies c.le(
            #[trigger] t1[a],
            #[trigger] t1[b],
        ) by {
            assert(t1[a] == s1[a + 1] && t1[b] == s1[b + 1]);
        }
        assert forall|a: int, b: int| 0 <= a <= b < t3.len() implies c.le(
            #[trigger] t3[a],
            #[trigger] t3[b],
        ) by {
            assert(t3[a] == s3[a + 1] && t3[b] == s3[b + 1]);
        }
        lemma_sorted_unique(c, t1, t3);
        assert forall|i: int| 0 <= i < s1.len() implies c.le(#[trigger] s1[i], s2[i]) && c.le(
            s2[i],
            s1[i],
        ) by {
            if i == 0 {
            } else {
                assert(t1[i - 1] == s1[i] && t3[i - 1] == s3[i]);
                assert(c.le(s1[i], s3[i]) && c.le(s3[i], s1[i]));
                if i == j {
                    // the exchanged slot holds an order-equivalent item
                    c.transitive(s1[i], s3[i], s2[i]);
                    c.transitive(s2[i], s3[i], s1[i]);
                } else {
                    assert(s3[i] == s2[i]);
                }
            }
        }
    }
}

} // verus!
