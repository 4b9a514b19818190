//! The double-ended priority queue itself: a growable array of items plus
//! an injected ordering rule, kept in interval-heap shape by the repair
//! algorithms, with constant-time access to both extremes.

use vstd::prelude::*;
use vstd::seq_lib::group_to_multiset_ensures;
use vstd::multiset::Multiset;
use crate::order::{Comparator, Natural, NaturallyOrdered};
use crate::algo::{
    heap_valid, is_lower_bound, is_upper_bound, sorted_by, max_repair_pre, hi_slot, within_node,
    lo_in_parent, hi_in_parent, swap_slots, interval_heap_push, update_min, update_max,
    lemma_root_min, lemma_root_max, lemma_refl, lemma_swap_multiset, lemma_swap_remove_multiset,
    lemma_pop_min_pre, lemma_pop_max_pre,
};
use crate::index::spec_parent_left;

verus! {

/// Relies on `Vec::capacity`: the number of items the vector can hold
/// without reallocating, never below its length.
#[verifier::external_body]
fn vec_capacity<T>(v: &Vec<T>) -> (r: usize)
    ensures
        r >= v@.len(),
{
    v.capacity()
}

/// Relies on `Vec::reserve_exact`: it only grows the capacity and leaves
/// the items unchanged.
#[verifier::external_body]
fn vec_reserve_exact<T>(v: &mut Vec<T>, additional: usize)
    ensures
        final(v)@ == old(v)@,
{
    v.reserve_exact(additional);
}

/// Relies on `Vec::shrink_to_fit`: it only shrinks the capacity and leaves
/// the items unchanged.
#[verifier::external_body]
fn vec_shrink_to_fit<T>(v: &mut Vec<T>)
    ensures
        final(v)@ == old(v)@,
{
    v.shrink_to_fit();
}

/// A double-ended priority queue implemented with an interval heap.
///
/// It is a logic error for an item to be modified in such a way that the
/// item's ordering relative to any other item, as determined by the heap's
/// comparator, changes while it is in the heap.
#[derive(Clone)]
pub struct IntervalHeap<T, C: Comparator<T> = Natural> {
    data: Vec<T>,
    cmp: C,
}

/// Which extreme a scoped handle targets.
enum PeekSide {
    Low,
    High,
}

/// A scoped handle on the current min or max: it carries the value read at
/// acquisition, takes caller mutations, and hands them back to the heap on
/// release, which repairs the structure.
pub struct MutPeek<T> {
    side: PeekSide,
    value: T,
}

impl<T> MutPeek<T> {
    /// True iff the handle targets the heap's minimum slot.
    pub closed spec fn targets_min(self) -> bool {
        self.side is Low
    }

    /// The value currently carried by the handle.
    pub closed spec fn val(self) -> T {
        self.value
    }

    /// Reads the carried value.
    pub fn get(&self) -> (r: &T)
        ensures
            *r == self.val(),
    {
        &self.value
    }

    /// Overwrites the carried value; the heap takes it up on release.
    pub fn set(&mut self, v: T)
        ensures
            final(self).val() == v,
            final(self).targets_min() == old(self).targets_min(),
    {
        self.value = v;
    }
}

impl<T, C: Comparator<T>> IntervalHeap<T, C> {
    /// The items of the heap, in array order.
    pub closed spec fn view(self) -> Seq<T> {
        self.data@
    }

    /// The ordering rule the heap was built with.
    pub closed spec fn rule(self) -> C {
        self.cmp
    }

    /// Structural well-formedness: the interval-heap shape holds.
    pub open spec fn wf(self) -> bool {
        heap_valid(self.view(), self.rule())
    }

    /// Returns an empty heap ordered according to the given comparator.
    pub fn with_comparator(cmp: C) -> (r: IntervalHeap<T, C>)
        ensures
            r@ == Seq::<T>::empty(),
            r.rule() == cmp,
            r.wf(),
    {
        IntervalHeap { data: Vec::new(), cmp }
    }

    /// Returns an empty heap with the given capacity and ordered according
    /// to the given comparator.
    pub fn with_capacity_and_comparator(capacity: usize, cmp: C) -> (r: IntervalHeap<T, C>)
        ensures
            r@ == Seq::<T>::empty(),
            r.rule() == cmp,
            r.wf(),
    {
        IntervalHeap { data: Vec::with_capacity(capacity), cmp }
    }

    /// Returns a heap containing all the items of the given vector and
    /// ordered according to the given comparator (bulk build).
    pub fn from_vec_and_comparator(vec: Vec<T>, cmp: C) -> (r: IntervalHeap<T, C>)
        ensures
            r.rule() == cmp,
            r@.len() == vec@.len(),
            r@.to_multiset() == vec@.to_multiset(),
            r.wf(),
    {
        let mut vec = vec;
        let n = vec.len();
        let ghost orig: Seq<T> = vec@;
        let ghost c: C = cmp;
        if n < 2 {
            proof {
                assert forall|k: int| 1 <= k && 2 * k < vec@.len() implies lo_in_parent(vec@, c, k)
                    && hi_in_parent(vec@, c, k) by {
                    assert(false);
                }
            }
            return IntervalHeap { data: vec, cmp };
        }
        let mut built: usize = 1;
        proof {
            let one: int = 1;
            assert forall|k: int| 0 <= k && 2 * k < one implies within_node(vec@.take(1), c, k) by {}
            assert forall|k: int| 1 <= k && 2 * k < one implies lo_in_parent(vec@.take(1), c, k)
                && hi_in_parent(vec@.take(1), c, k) by {
                assert(false);
            }
        }
        while built < n
            invariant
                c == cmp,
                1 <= built <= n,
                n == vec.len(),
                n >= 2,
                vec@.to_multiset() == orig.to_multiset(),
                heap_valid(vec@.take(built as int), c),
            decreases n as int - built as int,
        {
            built = built + 1;
            interval_heap_push(&mut vec, built, &cmp);
        }
        proof {
            assert(vec@.take(built as int) =~= vec@);
        }
        IntervalHeap { data: vec, cmp }
    }

    /// Returns a heap that adopts the given vector as its backing array
    /// without rearranging it; the result is well-formed only if the vector
    /// already has the interval-heap shape (see [`Self::is_valid`]).
    pub fn from_raw_vec_and_comparator(vec: Vec<T>, cmp: C) -> (r: IntervalHeap<T, C>)
        ensures
            r@ == vec@,
            r.rule() == cmp,
    {
        IntervalHeap { data: vec, cmp }
    }

    /// Returns the number of items in the heap.
    pub fn len(&self) -> (r: usize)
        ensures
            r == self@.len(),
    {
        self.data.len()
    }

    /// Returns `true` if the heap contains no items.
    pub fn is_empty(&self) -> (r: bool)
        ensures
            r <==> self@.len() == 0,
    {
        self.data.is_empty()
    }

    /// Returns the number of items the heap can hold without reallocation.
    pub fn capacity(&self) -> (r: usize)
        ensures
            r >= self@.len(),
    {
        vec_capacity(&self.data)
    }

    /// Reserves capacity for at least `additional` more items.
    pub fn reserve(&mut self, additional: usize)
        ensures
            final(self)@ == old(self)@,
            final(self).rule() == old(self).rule(),
    {
        self.data.reserve(additional);
    }

    /// Reserves the minimum capacity for exactly `additional` more items.
    pub fn reserve_exact(&mut self, additional: usize)
        ensures
            final(self)@ == old(self)@,
            final(self).rule() == old(self).rule(),
    {
        vec_reserve_exact(&mut self.data, additional);
    }

    /// Discards as much additional capacity as possible.
    pub fn shrink_to_fit(&mut self)
        ensures
            final(self)@ == old(self)@,
            final(self).rule() == old(self).rule(),
    {
        vec_shrink_to_fit(&mut self.data);
    }

    /// Removes all items from the heap.
    pub fn clear(&mut self)
        ensures
            final(self)@ == Seq::<T>::empty(),
            final(self).rule() == old(self).rule(),
            final(self).wf(),
    {
        self.data.clear();
    }

    /// Returns a reference to the smallest item, or `None` if the heap is
    /// empty.
    pub fn min(&self) -> (r: Option<&T>)
        requires
            self.wf(),
        ensures
            r is Some <==> self@.len() > 0,
            r matches Some(m) ==> *m == self@[0] && is_lower_bound(self@, self.rule(), *m),
    {
        proof {
            if self@.len() > 0 {
                assert forall|i: int| 0 <= i < self@.len() implies self.rule().le(
                    self@[0],
                    self@[i],
                ) by {
                    lemma_root_min(self@, self.rule(), i);
                }
            }
        }
        match self.data.len() {
            0 => None,
            _ => Some(&self.data[0]),
        }
    }

    /// Returns a reference to the greatest item, or `None` if the heap is
    /// empty.
    pub fn max(&self) -> (r: Option<&T>)
        requires
            self.wf(),
        ensures
            r is Some <==> self@.len() > 0,
            r matches Some(m) ==> *m == (if self@.len() == 1 {
                self@[0]
            } else {
                self@[1]
            }) && is_upper_bound(self@, self.rule(), *m),
    {
        proof {
            self.lemma_top_is_upper_bound();
        }
        match self.data.len() {
            0 => None,
            1 => Some(&self.data[0]),
            _ => Some(&self.data[1]),
        }
    }

    /// In a well-formed non-empty heap the max slot bounds every item.
    proof fn lemma_top_is_upper_bound(self)
        requires
            self.wf(),
        ensures
            self@.len() > 0 ==> is_upper_bound(
                self@,
                self.rule(),
                if self@.len() == 1 {
                    self@[0]
                } else {
                    self@[1]
                },
            ),
    {
        if self@.len() == 1 {
            lemma_refl(self.rule(), self@[0]);
        } else if self@.len() > 1 {
            assert forall|i: int| 0 <= i < self@.len() implies self.rule().le(
                self@[i],
                self@[1],
            ) by {
                lemma_root_max(self@, self.rule(), i);
            }
        }
    }

    /// Returns references to the smallest and greatest items, or `None` if
    /// the heap is empty.
    pub fn min_max(&self) -> (r: Option<(&T, &T)>)
        requires
            self.wf(),
        ensures
            r is Some <==> self@.len() > 0,
            r matches Some(mm) ==> *mm.0 == self@[0] && *mm.1 == (if self@.len() == 1 {
                self@[0]
            } else {
                self@[1]
            }) && is_lower_bound(self@, self.rule(), *mm.0) && is_upper_bound(
                self@,
                self.rule(),
                *mm.1,
            ),
    {
        proof {
            if self@.len() > 0 {
                assert forall|i: int| 0 <= i < self@.len() implies self.rule().le(
                    self@[0],
                    self@[i],
                ) by {
                    lemma_root_min(self@, self.rule(), i);
                }
            }
            self.lemma_top_is_upper_bound();
        }
        match self.data.len() {
            0 => None,
            1 => Some((&self.data[0], &self.data[0])),
            _ => Some((&self.data[0], &self.data[1])),
        }
    }

    /// Pushes an item onto the heap.
    pub fn push(&mut self, item: T)
        requires
            old(self).wf(),
        ensures
            final(self).wf(),
            final(self).rule() == old(self).rule(),
            final(self)@.len() == old(self)@.len() + 1,
            final(self)@.to_multiset() == old(self)@.to_multiset().insert(item),
    {
        broadcast use group_to_multiset_ensures;

        self.data.push(item);
        let n = self.data.len();
        proof {
            assert(self.data@.take(n - 1) =~= old(self).data@);
        }
        interval_heap_push(&mut self.data, n, &self.cmp);
        proof {
            assert(self.data@.take(n as int) =~= self.data@);
            assert(old(self).data@.push(item).to_multiset() == old(
                self,
            ).data@.to_multiset().insert(item));
        }
    }

    /// Removes the smallest item from the heap and returns it, or `None`
    /// if the heap was empty.
    pub fn pop_min(&mut self) -> (r: Option<T>)
        requires
            old(self).wf(),
        ensures
            final(self).wf(),
            final(self).rule() == old(self).rule(),
            r is Some <==> old(self)@.len() > 0,
            r is None ==> final(self)@ == old(self)@,
            r matches Some(m) ==> m == old(self)@[0] && is_lower_bound(
                old(self)@,
                old(self).rule(),
                m,
            ) && final(self)@.len() == old(self)@.len() - 1 && final(self)@.to_multiset() == old(
                self,
            )@.to_multiset().remove(m),
    {
        proof {
            if old(self)@.len() > 0 {
                assert forall|i: int| 0 <= i < old(self)@.len() implies old(self).rule().le(
                    old(self)@[0],
                    old(self)@[i],
                ) by {
                    lemma_root_min(old(self)@, old(self).rule(), i);
                }
            }
        }
        let n = self.data.len();
        if n == 0 {
            None
        } else if n <= 2 {
            let x = self.data.swap_remove(0);
            proof {
                lemma_swap_remove_multiset(old(self).data@, 0);
                assert forall|k: int| 0 <= k && 2 * k < self.data@.len() implies within_node(
                    self.data@,
                    self.cmp,
                    k,
                ) by {}
                assert forall|k: int| 1 <= k && 2 * k < self.data@.len() implies lo_in_parent(
                    self.data@,
                    self.cmp,
                    k,
                ) && hi_in_parent(self.data@, self.cmp, k) by {
                    assert(false);
                }
            }
            Some(x)
        } else {
            let x = self.data.swap_remove(0);
            proof {
                lemma_swap_remove_multiset(old(self).data@, 0);
                lemma_pop_min_pre(old(self).data@, self.cmp);
            }
            update_min(&mut self.data, &self.cmp);
            Some(x)
        }
    }

    /// Removes the greatest item from the heap and returns it, or `None`
    /// if the heap was empty.
    pub fn pop_max(&mut self) -> (r: Option<T>)
        requires
            old(self).wf(),
        ensures
            final(self).wf(),
            final(self).rule() == old(self).rule(),
            r is Some <==> old(self)@.len() > 0,
            r is None ==> final(self)@ == old(self)@,
            r matches Some(m) ==> m == (if old(self)@.len() == 1 {
                old(self)@[0]
            } else {
                old(self)@[1]
            }) && is_upper_bound(old(self)@, old(self).rule(), m) && final(self)@.len() == old(
                self,
            )@.len() - 1 && final(self)@.to_multiset() == old(self)@.to_multiset().remove(m),
    {
        broadcast use group_to_multiset_ensures;

        proof {
            self.lemma_top_is_upper_bound();
        }
        let n = self.data.len();
        if n <= 2 {
            let r = self.data.pop();
            proof {
                if n > 0 {
                    let s = old(self).data@;
                    assert(self.data@ =~= s.remove(n - 1));
                    assert forall|k: int| 0 <= k && 2 * k < self.data@.len() implies within_node(
                        self.data@,
                        self.cmp,
                        k,
                    ) by {}
                    assert forall|k: int| 1 <= k && 2 * k < self.data@.len() implies lo_in_parent(
                        self.data@,
                        self.cmp,
                        k,
                    ) && hi_in_parent(self.data@, self.cmp, k) by {
                        assert(false);
                    }
                }
            }
            r
        } else {
            let x = self.data.swap_remove(1);
            proof {
                lemma_swap_remove_multiset(old(self).data@, 1);
                lemma_pop_max_pre(old(self).data@, self.cmp);
                assert(self.data@.take(self.data@.len() as int) =~= self.data@);
            }
            let m = self.data.len();
            update_max(&mut self.data, m, &self.cmp);
            proof {
                assert(self.data@.take(m as int) =~= self.data@);
            }
            Some(x)
        }
    }

    /// Pushes every item of the given vector onto the heap.
    pub fn extend(&mut self, items: Vec<T>)
        requires
            old(self).wf(),
        ensures
            final(self).wf(),
            final(self).rule() == old(self).rule(),
            final(self)@.len() == old(self)@.len() + items@.len(),
            final(self)@.to_multiset() == old(self)@.to_multiset().add(items@.to_multiset()),
    {
        broadcast use group_to_multiset_ensures;

        let mut items = items;
        self.reserve(items.len());
        let ghost c: C = self.cmp;
        let ghost total: Multiset<T> = old(self)@.to_multiset().add(items@.to_multiset());
        let ghost total_len: nat = old(self)@.len() + items@.len();
        while items.len() > 0
            invariant
                self.wf(),
                self.rule() == c,
                self@.to_multiset().add(items@.to_multiset()) == total,
                self@.len() + items@.len() == total_len,
            decreases items@.len(),
        {
            let ghost before: Seq<T> = items@;
            let ghost heap_before: Multiset<T> = self@.to_multiset();
            let x = items.pop().unwrap();
            proof {
                broadcast use group_to_multiset_ensures;

                assert(before =~= items@.push(x));
                assert(before.to_multiset() == items@.push(x).to_multiset());
                assert(items@.push(x).to_multiset() =~= items@.to_multiset().insert(x));
            }
            self.push(x);
            proof {
                assert forall|y: T| #[trigger] self@.to_multiset().add(
                    items@.to_multiset(),
                ).count(y) == total.count(y) by {
                    broadcast use vstd::multiset::group_multiset_axioms;

                }
                assert(self@.to_multiset().add(items@.to_multiset()) =~= total);
            }
        }
        proof {
            broadcast use vstd::multiset::group_multiset_axioms;

            vstd::multiset::lemma_multiset_empty_len(items@.to_multiset());
            assert(self@.to_multiset() =~= total);
        }
    }

    /// Consumes the heap and returns its items as a vector in arbitrary
    /// order.
    pub fn into_vec(self) -> (r: Vec<T>)
        ensures
            r@ == self@,
    {
        self.data
    }

    /// Consumes the heap and returns its items as a vector in ascending
    /// order, reusing the backing array as both shrinking heap and growing
    /// sorted tail.
    pub fn into_sorted_vec(self) -> (r: Vec<T>)
        requires
            self.wf(),
        ensures
            r@.len() == self@.len(),
            r@.to_multiset() == self@.to_multiset(),
            sorted_by(r@, self.rule()),
    {
        let IntervalHeap { data: mut vec, cmp } = self;
        let ghost c: C = cmp;
        let ghost orig: Seq<T> = vec@;
        let n = vec.len();
        if n < 2 {
            proof {
                assert forall|i: int, j: int| 0 <= i <= j < vec@.len() implies c.le(
                    vec@[i],
                    vec@[j],
                ) by {
                    lemma_refl(c, vec@[i]);
                }
            }
            return vec;
        }
        let mut hsize = n;
        proof {
            assert(vec@.take(n as int) =~= vec@);
        }
        while hsize > 2
            invariant
                c == cmp,
                2 <= hsize <= n,
                n == vec.len(),
                n >= 2,
                vec@.to_multiset() == orig.to_multiset(),
                heap_valid(vec@.take(hsize as int), c),
                sorted_by(vec@.skip(hsize as int), c),
                forall|i: int, j: int|
                    0 <= i < hsize as int <= j < n as int ==> c.le(#[trigger] vec@[i], #[trigger] vec@[j]),
            decreases hsize,
        {
            hsize = hsize - 1;
            let ghost v0: Seq<T> = vec@;
            let ghost hs: int = hsize as int;
            let ghost q: Seq<T> = v0.take(hs + 1);
            swap_slots(&mut vec, 1, hsize);
            proof {
                lemma_swap_multiset(v0, 1, hs);
            }
            proof {
                let t = vec@.take(hs);
                assert(forall|i: int| 0 <= i < hs ==> #[trigger] t[i] == vec@[i]);
                assert(forall|i: int| 0 <= i < hs + 1 ==> #[trigger] q[i] == v0[i]);
                assert(t[1] == q[hs]);
                assert(forall|i: int| 0 <= i < hs && i != 1 ==> #[trigger] t[i] == q[i]);
                assert(vec@[hs] == q[1]);
                assert(forall|j: int| hs < j < n as int ==> #[trigger] vec@[j] == v0[j]);
                // the prefix of length hsize meets the max-side repair's precondition
                assert forall|k: int| 0 <= k && 2 * k < hs implies within_node(t, c, k) by {
                    if 2 * k + 1 < hs {
                        if k == 0 {
                            lemma_root_min(q, c, hs);
                        } else {
                            assert(within_node(q, c, k));
                        }
                    }
                }
                assert forall|k: int| 1 <= k && 2 * k < hs implies lo_in_parent(t, c, k) by {
                    crate::algo::lemma_parent_left_bounds(2 * k);
                    assert(lo_in_parent(q, c, k));
                }
                assert forall|k: int|
                    1 <= k && 2 * k < hs && spec_parent_left(2 * k) != 0 implies hi_in_parent(
                    t,
                    c,
                    k,
                ) by {
                    crate::algo::lemma_parent_left_bounds(2 * k);
                    assert(hi_in_parent(q, c, k));
                    assert(within_node(q, c, k));
                    if 2 * k + 1 < hs {
                        assert(hi_slot(hs, k) == 2 * k + 1 && hi_slot(hs + 1, k) == 2 * k + 1);
                    } else {
                        assert(hi_slot(hs, k) == 2 * k);
                        assert(2 * k + 1 == hs);
                        assert(hi_slot(hs + 1, k) == 2 * k + 1);
                        c.transitive(q[2 * k], q[2 * k + 1], q[spec_parent_left(2 * k) + 1]);
                    }
                }
                if hs % 2 == 1 && hs >= 3 {
                    let k = (hs - 1) / 2;
                    assert(2 * k == hs - 1 && 2 * k + 1 == hs);
                    assert(within_node(q, c, k));
                    assert(t[hs - 1] == q[hs - 1]);
                    assert(c.le(t[hs - 1], t[1]));
                }
                assert(max_repair_pre(t, c));
            }
            let ghost v1: Seq<T> = vec@;
            update_max(&mut vec, hsize, &cmp);
            proof {
                broadcast use group_to_multiset_ensures;

                let t = v1.take(hs);
                let u = vec@.take(hs);
                assert(forall|i: int| 0 <= i < hs ==> #[trigger] u[i] == vec@[i]);
                assert(vec@.skip(hs) == v1.skip(hs));
                assert forall|j: int| hs <= j < n as int implies #[trigger] vec@[j] == v0[j]
                    || j == hs by {
                    assert(vec@.skip(hs)[j - hs] == vec@[j]);
                    assert(v1.skip(hs)[j - hs] == v1[j]);
                }
                assert forall|j: int| hs < j < n as int implies #[trigger] vec@[j] == v0[j] by {
                    assert(vec@.skip(hs)[j - hs] == vec@[j]);
                    assert(v1.skip(hs)[j - hs] == v1[j]);
                }
                assert(vec@.skip(hs)[0] == vec@[hs] && v1.skip(hs)[0] == v1[hs]);
                assert(vec@[hs] == q[1]);
                // the multiset of the shrunk prefix is the old prefix minus its max
                assert(t =~= q.update(1, q[hs]).drop_last());
                lemma_swap_remove_multiset(q, 1);
                assert(u.to_multiset() == q.to_multiset().remove(q[1]));
                // every item left in the prefix is bounded by the extracted max
                assert forall|i: int, j: int|
                    0 <= i < hs <= j < n as int implies c.le(#[trigger] vec@[i], #[trigger] vec@[j]) by {
                    assert(u[i] == vec@[i]);
                    assert(u.to_multiset().count(u[i]) > 0);
                    assert(q.to_multiset().count(u[i]) > 0);
                    assert(q.contains(u[i]));
                    let w = choose|w: int| 0 <= w < q.len() && q[w] == u[i];
                    lemma_root_max(q, c, w);
                    if j == hs {
                        assert(vec@[j] == q[1]);
                        assert(c.le(u[i], q[1]));
                    } else {
                        assert(vec@[j] == v0[j]);
                        assert(q[w] == v0[w]);
                        assert(c.le(v0[1], v0[j]));
                        c.transitive(u[i], v0[1], v0[j]);
                    }
                }
                assert forall|i: int, j: int|
                    hs <= i <= j < n as int implies c.le(#[trigger] vec@[i], #[trigger] vec@[j]) by {
                    if i == j {
                        lemma_refl(c, vec@[i]);
                    } else if i == hs {
                        assert(vec@[i] == q[1] && vec@[j] == v0[j]);
                        assert(q[1] == v0[1]);
                        assert(c.le(v0[1], v0[j]));
                    } else {
                        assert(vec@[i] == v0[i] && vec@[j] == v0[j]);
                        assert(v0.skip(hs + 1)[i - hs - 1] == v0[i]);
                        assert(v0.skip(hs + 1)[j - hs - 1] == v0[j]);
                    }
                }
                assert(sorted_by(vec@.skip(hs), c)) by {
                    assert forall|i: int, j: int|
                        0 <= i <= j < vec@.skip(hs).len() implies c.le(
                        #[trigger] vec@.skip(hs)[i],
                        #[trigger] vec@.skip(hs)[j],
                    ) by {
                        assert(vec@.skip(hs)[i] == vec@[hs + i] && vec@.skip(hs)[j] == vec@[hs
                            + j]);
                    }
                }
            }
        }
        proof {
            assert forall|i: int, j: int| 0 <= i <= j < vec@.len() implies c.le(
                #[trigger] vec@[i],
                #[trigger] vec@[j],
            ) by {
                let t = vec@.take(hsize as int);
                if i == j {
                    lemma_refl(c, vec@[i]);
                } else if j < hsize as int {
                    assert(i == 0 && j == 1);
                    assert(within_node(t, c, 0));
                    assert(t[0] == vec@[0] && t[1] == vec@[1]);
                } else if i < hsize as int {
                } else {
                    assert(vec@.skip(hsize as int)[i - hsize as int] == vec@[i]);
                    assert(vec@.skip(hsize as int)[j - hsize as int] == vec@[j]);
                }
            }
        }
        vec
    }

    /// Checks whether the backing array has the interval-heap shape: every
    /// node internally ordered and nested inside its parent's interval.
    pub fn is_valid(&self) -> (r: bool)
        ensures
            r == self.wf(),
    {
        let n = self.data.len();
        if n < 2 {
            proof {
                assert forall|k: int| 1 <= k && 2 * k < n as int implies lo_in_parent(
                    self@,
                    self.rule(),
                    k,
                ) && hi_in_parent(self@, self.rule(), k) by {
                    assert(false);
                }
            }
            return true;
        }
        if !self.cmp.compares_le(&self.data[0], &self.data[1]) {
            proof {
                assert(!within_node(self@, self.rule(), 0));
            }
            return false;
        }
        let mut k: usize = 1;
        while k <= (n - 1) / 2
            invariant
                n == self.data.len(),
                n >= 2,
                1 <= k,
                k as int <= (n as int + 1) / 2,
                within_node(self@, self.rule(), 0),
                forall|j: int| 0 <= j < k as int ==> #[trigger] within_node(self@, self.rule(), j),
                forall|j: int|
                    1 <= j < k as int ==> #[trigger] lo_in_parent(self@, self.rule(), j),
                forall|j: int|
                    1 <= j < k as int ==> #[trigger] hi_in_parent(self@, self.rule(), j),
            decreases n as int - k as int,
        {
            let lo = 2 * k;
            let hi = if lo + 1 < n {
                lo + 1
            } else {
                lo
            };
            proof {
                assert(hi as int == hi_slot(n as int, k as int));
            }
            let pl = crate::index::parent_left(lo);
            proof {
                crate::algo::lemma_parent_left_bounds(lo as int);
            }
            if !self.cmp.compares_le(&self.data[lo], &self.data[hi]) {
                proof {
                    lemma_refl(self.rule(), self@[lo as int]);
                    assert(hi == lo + 1);
                    assert(!within_node(self@, self.rule(), k as int));
                }
                return false;
            }
            if !self.cmp.compares_le(&self.data[pl], &self.data[lo]) {
                proof {
                    assert(!lo_in_parent(self@, self.rule(), k as int));
                }
                return false;
            }
            if !self.cmp.compares_le(&self.data[hi], &self.data[pl + 1]) {
                proof {
                    assert(!hi_in_parent(self@, self.rule(), k as int));
                }
                return false;
            }
            k = k + 1;
        }
        proof {
            assert forall|j: int| 0 <= j && 2 * j < n as int implies within_node(
                self@,
                self.rule(),
                j,
            ) by {}
            assert forall|j: int| 1 <= j && 2 * j < n as int implies lo_in_parent(
                self@,
                self.rule(),
                j,
            ) && hi_in_parent(self@, self.rule(), j) by {
                assert(2 * j <= n as int - 1);
                assert(j < k as int);
            }
        }
        true
    }
}

impl<T: Copy, C: Comparator<T>> IntervalHeap<T, C> {
    /// Returns a scoped handle on the smallest item, or `None` if the heap
    /// is empty; hand the handle back through [`Self::release`].
    pub fn min_mut(&mut self) -> (r: Option<MutPeek<T>>)
        requires
            old(self).wf(),
        ensures
            *final(self) == *old(self),
            r is Some <==> old(self)@.len() > 0,
            r matches Some(pk) ==> pk.targets_min() && pk.val() == old(self)@[0],
    {
        if self.data.len() == 0 {
            None
        } else {
            Some(MutPeek { side: PeekSide::Low, value: self.data[0] })
        }
    }

    /// Returns a scoped handle on the greatest item, or `None` if the heap
    /// is empty; hand the handle back through [`Self::release`].
    pub fn max_mut(&mut self) -> (r: Option<MutPeek<T>>)
        requires
            old(self).wf(),
        ensures
            *final(self) == *old(self),
            r is Some <==> old(self)@.len() > 0,
            r matches Some(pk) ==> !pk.targets_min() && pk.val() == (if old(self)@.len() == 1 {
                old(self)@[0]
            } else {
                old(self)@[1]
            }),
    {
        let n = self.data.len();
        if n == 0 {
            None
        } else if n == 1 {
            Some(MutPeek { side: PeekSide::High, value: self.data[0] })
        } else {
            Some(MutPeek { side: PeekSide::High, value: self.data[1] })
        }
    }

    /// Releases a handle: the targeted extreme is replaced by the handle's
    /// value and the heap is repaired.
    pub fn release(&mut self, peek: MutPeek<T>)
        requires
            old(self).wf(),
            old(self)@.len() > 0,
        ensures
            final(self).wf(),
            final(self).rule() == old(self).rule(),
            final(self)@.len() == old(self)@.len(),
            peek.targets_min() ==> final(self)@.to_multiset() == old(self)@.to_multiset().remove(
                old(self)@[0],
            ).insert(peek.val()),
            !peek.targets_min() ==> final(self)@.to_multiset() == old(self)@.to_multiset().remove(
                if old(self)@.len() == 1 {
                    old(self)@[0]
                } else {
                    old(self)@[1]
                },
            ).insert(peek.val()),
    {
        match peek.side {
            PeekSide::Low => {
                let _ = self.pop_min();
                self.push(peek.value);
            },
            PeekSide::High => {
                let _ = self.pop_max();
                self.push(peek.value);
            },
        }
    }
}

impl<T: Copy> MutPeek<T> {
    /// Consumes the handle and pops the targeted extreme from the heap
    /// instead of repairing it in place; the handle cannot release after.
    pub fn pop<C: Comparator<T>>(self, heap: &mut IntervalHeap<T, C>) -> (r: T)
        requires
            old(heap).wf(),
            old(heap)@.len() > 0,
        ensures
            final(heap).wf(),
            final(heap).rule() == old(heap).rule(),
            final(heap)@.len() == old(heap)@.len() - 1,
            self.targets_min() ==> r == old(heap)@[0] && is_lower_bound(
                old(heap)@,
                old(heap).rule(),
                r,
            ),
            !self.targets_min() ==> r == (if old(heap)@.len() == 1 {
                old(heap)@[0]
            } else {
                old(heap)@[1]
            }) && is_upper_bound(old(heap)@, old(heap).rule(), r),
            final(heap)@.to_multiset() == old(heap)@.to_multiset().remove(r),
    {
        match self.side {
            PeekSide::Low => heap.pop_min().unwrap(),
            PeekSide::High => heap.pop_max().unwrap(),
        }
    }
}

impl<T: NaturallyOrdered> IntervalHeap<T, Natural> {
    /// Returns an empty heap ordered according to the natural order of its
    /// items.
    pub fn new() -> (r: IntervalHeap<T, Natural>)
        ensures
            r@ == Seq::<T>::empty(),
            r.rule() == Natural,
            r.wf(),
    {
        Self::with_comparator(Natural)
    }

    /// Returns an empty heap with the given capacity and ordered according
    /// to the natural order of its items.
    pub fn with_capacity(capacity: usize) -> (r: IntervalHeap<T, Natural>)
        ensures
            r@ == Seq::<T>::empty(),
            r.rule() == Natural,
            r.wf(),
    {
        Self::with_capacity_and_comparator(capacity, Natural)
    }

    /// Returns a heap containing all the items of the given vector and
    /// ordered according to the natural order of its items.
    pub fn from_vec(vec: Vec<T>) -> (r: IntervalHeap<T, Natural>)
        ensures
            r.rule() == Natural,
            r@.len() == vec@.len(),
            r@.to_multiset() == vec@.to_multiset(),
            r.wf(),
    {
        Self::from_vec_and_comparator(vec, Natural)
    }
}

/// An iterator over an `IntervalHeap` in arbitrary order; acquire through
/// [`IntervalHeap::iter`].
pub struct Iter<'a, T> {
    data: &'a Vec<T>,
    pos: usize,
}

impl<'a, T> Iter<'a, T> {
    /// All items being walked, in array order.
    pub closed spec fn items(self) -> Seq<T> {
        self.data@
    }

    /// How many items were already handed out.
    pub closed spec fn at(self) -> int {
        self.pos as int
    }

    /// The next item, or `None` once all have been handed out.
    pub fn next(&mut self) -> (r: Option<&'a T>)
        ensures
            final(self).items() == old(self).items(),
            old(self).at() < old(self).items().len() ==> (r matches Some(x) && *x == old(
                self,
            ).items()[old(self).at()] && final(self).at() == old(self).at() + 1),
            old(self).at() >= old(self).items().len() ==> r is None && final(self).at() == old(
                self,
            ).at(),
    {
        if self.pos < self.data.len() {
            let x = &self.data[self.pos];
            self.pos = self.pos + 1;
            Some(x)
        } else {
            None
        }
    }
}

/// A consuming iterator over an `IntervalHeap` in arbitrary order; acquire
/// through [`IntervalHeap::into_iter`].
pub struct IntoIter<T> {
    data: Vec<T>,
}

impl<T> IntoIter<T> {
    /// The items not yet handed out, in array order.
    pub closed spec fn items(self) -> Seq<T> {
        self.data@
    }

    /// The next item (taken from the back), or `None` when none are left.
    pub fn next(&mut self) -> (r: Option<T>)
        ensures
            old(self).items().len() > 0 ==> (r matches Some(x) && x == old(self).items().last()
                && final(self).items() == old(self).items().drop_last()),
            old(self).items().len() == 0 ==> r is None && final(self).items() == old(
                self,
            ).items(),
    {
        let r = self.data.pop();
        proof {
            if old(self).items().len() > 0 {
                assert(self.data@ =~= old(self).data@.drop_last());
            }
        }
        r
    }
}

/// An iterator that drains an `IntervalHeap` in arbitrary order; acquire
/// through [`IntervalHeap::drain`].
pub struct Drain<T> {
    data: Vec<T>,
}

impl<T> Drain<T> {
    /// The items not yet handed out, in array order.
    pub closed spec fn items(self) -> Seq<T> {
        self.data@
    }

    /// The next drained item (taken from the back), or `None` when none
    /// are left.
    pub fn next(&mut self) -> (r: Option<T>)
        ensures
            old(self).items().len() > 0 ==> (r matches Some(x) && x == old(self).items().last()
                && final(self).items() == old(self).items().drop_last()),
            old(self).items().len() == 0 ==> r is None && final(self).items() == old(
                self,
            ).items(),
    {
        let r = self.data.pop();
        proof {
            if old(self).items().len() > 0 {
                assert(self.data@ =~= old(self).data@.drop_last());
            }
        }
        r
    }
}

impl<T, C: Comparator<T>> IntervalHeap<T, C> {
    /// Returns an iterator visiting all items in the heap in arbitrary
    /// order.
    pub fn iter(&self) -> (r: Iter<T>)
        ensures
            r.items() == self@,
            r.at() == 0,
    {
        Iter { data: &self.data, pos: 0 }
    }

    /// Consumes the heap and returns an iterator over its items in
    /// arbitrary order.
    pub fn into_iter(self) -> (r: IntoIter<T>)
        ensures
            r.items() == self@,
    {
        IntoIter { data: self.data }
    }

    /// Clears the heap, returning an iterator over the removed items in
    /// arbitrary order.
    pub fn drain(&mut self) -> (r: Drain<T>)
        ensures
            final(self)@ == Seq::<T>::empty(),
            final(self).rule() == old(self).rule(),
            final(self).wf(),
            r.items() == old(self)@,
    {
        let mut taken: Vec<T> = Vec::new();
        std::mem::swap(&mut self.data, &mut taken);
        Drain { data: taken }
    }
}

} // verus!
