//! The heap container and its maintenance algorithms.
//!
//! Elements live in a growable array holding a complete binary tree: the
//! children of the element at index `i` sit at indices `2*i + 1` and
//! `2*i + 2`, its parent at `(i - 1) / 2`. The array may be longer than the
//! heap; only the first `count` slots are live, and extraction never shrinks
//! the array. The tree is kept ordered by a [`Comparator`]: no live element
//! has priority over its parent.

use vstd::prelude::*;

use crate::order::lemma_priority_irreflexive;
use crate::order::lemma_priority_transitive;
use crate::order::Comparator;
use crate::order::MaxFirst;
use crate::order::MinFirst;
use crate::order::StrictOrder;

verus! {

/// Index of the parent of the tree node at index `i`.
pub open spec fn parent_of(i: int) -> int {
    (i - 1) / 2
}

/// The child-to-parent edge at index `i` respects the comparator: the child
/// does not have priority over its parent.
pub open spec fn edge_ok<T, C: Comparator<T>>(c: C, s: Seq<T>, i: int) -> bool {
    !c.prior(s[i], s[parent_of(i)])
}

/// The heap property: no element of `s` has priority over its parent.
pub open spec fn heap_ordered<T, C: Comparator<T>>(c: C, s: Seq<T>) -> bool {
    forall|i: int| 1 <= i < s.len() ==> #[trigger] edge_ok(c, s, i)
}

/// Bounds tying a tree index to its parent index.
proof fn lemma_parent_of_bounds(i: int)
    requires
        1 <= i,
    ensures
        0 <= parent_of(i) < i,
        i == 2 * parent_of(i) + 1 || i == 2 * parent_of(i) + 2,
{
    assert(i == 2 * ((i - 1) / 2) + 1 || i == 2 * ((i - 1) / 2) + 2) by (nonlinear_arith)
        requires
            1 <= i,
    ;
    assert(0 <= (i - 1) / 2 < i) by (nonlinear_arith)
        requires
            1 <= i,
    ;
}

/// The two children of the node at index `q` sit at `2q + 1` and `2q + 2`.
proof fn lemma_child_parent(q: int)
    requires
        0 <= q,
    ensures
        parent_of(2 * q + 1) == q,
        parent_of(2 * q + 2) == q,
{
    assert((2 * q + 1 - 1) / 2 == q && (2 * q + 2 - 1) / 2 == q) by (nonlinear_arith)
        requires
            0 <= q,
    ;
}

/// Exchanging two elements of a sequence does not change its multiset.
proof fn lemma_swap_preserves_multiset<T>(s: Seq<T>, i: int, j: int)
    requires
        0 <= i < s.len(),
        0 <= j < s.len(),
    ensures
        s.update(i, s[j]).update(j, s[i]).to_multiset() == s.to_multiset(),
{
    broadcast use vstd::seq_lib::group_to_multiset_ensures;
    broadcast use vstd::multiset::group_multiset_axioms;

    if i == j {
        assert(s.update(i, s[j]).update(j, s[i]) =~= s);
    } else {
        let s1 = s.update(i, s[j]);
        assert(s1.to_multiset() == s.to_multiset().insert(s[j]).remove(s[i]));
        assert(s1[j] == s[j]);
        assert(s1.update(j, s[i]).to_multiset() == s1.to_multiset().insert(s[i]).remove(s1[j]));
        assert(s.contains(s[i]) && s.contains(s[j]));
        assert(s.to_multiset().count(s[i]) > 0 && s.to_multiset().count(s[j]) > 0);
        assert(s1.update(j, s[i]).to_multiset() =~= s.to_multiset());
    }
}

/// Relies on `<[T]>::swap` from std: exchanges the elements at indices `i`
/// and `j` of the vector and changes nothing else.
#[verifier::external_body]
fn swap_elements<T>(v: &mut Vec<T>, i: usize, j: usize)
    requires
        i < old(v)@.len(),
        j < old(v)@.len(),
    ensures
        final(v)@ == old(v)@.update(i as int, old(v)@[j as int]).update(j as int, old(v)@[i as int]),
{
    v.swap(i, j);
}

/// Law: in a heap-ordered sequence, no element has priority over the root.
pub proof fn lemma_root_extreme<T, C: Comparator<T>>(c: C, s: Seq<T>, i: int)
    requires
        heap_ordered(c, s),
        0 <= i < s.len(),
    ensures
        !c.prior(s[i], s[0]),
    decreases i,
{
    if i == 0 {
        lemma_priority_irreflexive(c, s[0]);
    } else {
        lemma_parent_of_bounds(i);
        assert(edge_ok(c, s, i));
        lemma_root_extreme(c, s, parent_of(i));
        c.lemma_no_priority_transitive(s[i], s[parent_of(i)], s[0]);
    }
}

/// Law: in a well-formed heap, no live element has priority over its parent;
/// in a min-first heap every element sorts at or after its parent, in a
/// max-first heap at or before it.
pub proof fn lemma_heap_property<T, C: Comparator<T>>(h: Heap<T, C>, i: int)
    requires
        h.wf(),
        1 <= i < h@.len(),
    ensures
        !h.ordering().prior(h@[i], h@[parent_of(i)]),
{
    assert(edge_ok(h.ordering(), h@, i));
}

/// Law: in a well-formed, non-empty heap, no live element has priority over
/// the root, so extraction hands the extreme element out first.
pub proof fn lemma_top_priority<T, C: Comparator<T>>(h: Heap<T, C>, i: int)
    requires
        h.wf(),
        0 <= i < h@.len(),
    ensures
        !h.ordering().prior(h@[i], h@[0]),
{
    lemma_root_extreme(h.ordering(), h@, i);
}

/// Replacing the root of a sequence by its last element and dropping that
/// last slot removes exactly the old root from the multiset.
proof fn lemma_replace_root_multiset<T>(s0: Seq<T>)
    requires
        s0.len() >= 2,
    ensures
        s0.take(s0.len() - 1).update(0, s0.last()).to_multiset() == s0.to_multiset().remove(
            s0[0],
        ),
{
    broadcast use vstd::seq_lib::group_to_multiset_ensures;
    broadcast use vstd::multiset::group_multiset_axioms;
    broadcast use vstd::multiset::group_multiset_properties;

    let n = s0.len() as int;
    let t = s0.take(n - 1);
    assert(t =~= s0.remove(n - 1));
    assert(t.to_multiset() == s0.to_multiset().remove(s0[n - 1]));
    assert(t.update(0, s0[n - 1]).to_multiset() == t.to_multiset().insert(s0[n - 1]).remove(
        t[0],
    ));
    assert(s0.contains(s0[n - 1]));
    assert(s0.to_multiset().count(s0[n - 1]) > 0);
    assert(t.update(0, s0[n - 1]).to_multiset() =~= s0.to_multiset().remove(s0[0]));
}

/// State during sift-down: the heap property may fail only on the edges from
/// the children of index `q` up to `q`, and those children do not outrank
/// `q`'s parent (so whichever is swapped up keeps its new parent's edge).
spec fn sift_down_ok<T, C: Comparator<T>>(c: C, s: Seq<T>, q: int) -> bool {
    &&& forall|i: int| 1 <= i < s.len() && parent_of(i) != q ==> #[trigger] edge_ok(c, s, i)
    &&& q >= 1 ==> forall|i: int|
        1 <= i < s.len() && parent_of(i) == q ==> !c.prior(#[trigger] s[i], s[parent_of(q)])
}

/// State during sift-up: the heap property may fail only on the edge from
/// index `q` up to its parent, and the children of `q` do not outrank `q`'s
/// parent (so the element moving up may pass over them).
spec fn sift_up_ok<T, C: Comparator<T>>(c: C, s: Seq<T>, q: int) -> bool {
    &&& forall|i: int| 1 <= i < s.len() && i != q ==> #[trigger] edge_ok(c, s, i)
    &&& q >= 1 ==> forall|i: int|
        1 <= i < s.len() && parent_of(i) == q ==> !c.prior(#[trigger] s[i], s[parent_of(q)])
}

/// A binary heap over elements of type `T`, ordered by a comparator of type
/// `C` fixed at construction.
pub struct Heap<T, C: Comparator<T>> {
    count: usize,
    items: Vec<T>,
    comparator: C,
}

impl<T, C: Comparator<T>> View for Heap<T, C> {
    type V = Seq<T>;

    /// The live elements, in storage order.
    closed spec fn view(&self) -> Seq<T> {
        self.items@.take(self.count as int)
    }
}

impl<T, C: Comparator<T>> Heap<T, C> {
    /// The comparator this heap was built with.
    pub closed spec fn ordering(self) -> C {
        self.comparator
    }

    /// Well-formed: the live slots fit in storage and the heap property
    /// holds of the live elements.
    pub open spec fn wf(self) -> bool {
        &&& self.storage_ok()
        &&& heap_ordered(self.ordering(), self@)
    }

    /// The live region fits inside the backing storage.
    pub closed spec fn storage_ok(self) -> bool {
        self.count <= self.items@.len()
    }

    /// Returns an empty heap that orders its elements by `comparator`.
    pub fn new(comparator: C) -> (h: Self)
        ensures
            h.wf(),
            h@ == Seq::<T>::empty(),
            h.ordering() == comparator,
    {
        let h = Heap { count: 0, items: Vec::new(), comparator };
        proof {
            assert(h@ =~= Seq::<T>::empty());
        }
        h
    }

    /// Returns the number of live elements.
    pub fn len(&self) -> (n: usize)
        requires
            self.wf(),
        ensures
            n == self@.len(),
    {
        self.count
    }

    /// Returns whether the heap holds no elements.
    pub fn is_empty(&self) -> (b: bool)
        requires
            self.wf(),
        ensures
            b == (self@.len() == 0),
    {
        self.len() == 0
    }

    /// Index of the parent of the node at `idx`.
    fn parent_idx(&self, idx: usize) -> (r: usize)
        requires
            1 <= idx,
        ensures
            r == parent_of(idx as int),
    {
        (idx - 1) / 2
    }

    /// Inserts `value`, growing the backing storage only when it is full,
    /// then restores the heap property by sifting the new element up.
    pub fn add(&mut self, value: T)
        requires
            old(self).wf(),
            old(self)@.len() < usize::MAX,
        ensures
            final(self).wf(),
            final(self).ordering() == old(self).ordering(),
            final(self)@.len() == old(self)@.len() + 1,
            final(self)@.to_multiset() == old(self)@.to_multiset().insert(value),
    {
        if self.count < self.items.len() {
            self.items.set(self.count, value);
        } else {
            self.items.push(value);
        }
        self.count = self.count + 1;
        let ghost c = self.comparator;
        let ghost base = self@;
        proof {
            assert(base =~= old(self)@.push(value));
            vstd::seq_lib::to_multiset_build(old(self)@, value);
            assert(base.to_multiset() == old(self)@.to_multiset().insert(value));
            // the new element sits at the last index, which has no children
            assert forall|i: int|
                1 <= i < base.len() && i != base.len() - 1 implies #[trigger] edge_ok(
                c,
                base,
                i,
            ) by {
                lemma_parent_of_bounds(i);
                assert(edge_ok(c, old(self)@, i));
            }
            assert forall|i: int|
                1 <= i < base.len() && parent_of(i) == base.len() - 1 implies false by {
                lemma_parent_of_bounds(i);
            }
            assert(sift_up_ok(c, base, base.len() - 1));
        }
        let mut current: usize = self.count - 1;
        loop
            invariant
                self.count == base.len(),
                self.count <= self.items@.len(),
                self.comparator == c,
                (current as int) < base.len(),
                self@.len() == base.len(),
                self@.to_multiset() == base.to_multiset(),
                sift_up_ok(c, self@, current as int),
            ensures
                self.count == base.len(),
                self.count <= self.items@.len(),
                self.comparator == c,
                self@.to_multiset() == base.to_multiset(),
                heap_ordered(c, self@),
            decreases current,
        {
            if current == 0 {
                proof {
                    assert forall|i: int| 1 <= i < self@.len() implies #[trigger] edge_ok(
                        c,
                        self@,
                        i,
                    ) by {
                        assert(i != 0);
                    }
                }
                break;
            }
            let parent = self.parent_idx(current);
            proof {
                lemma_parent_of_bounds(current as int);
            }
            if !self.comparator.outranks(&self.items[current], &self.items[parent]) {
                proof {
                    assert(self@[current as int] == self.items@[current as int]);
                    assert(self@[parent as int] == self.items@[parent as int]);
                    assert(edge_ok(c, self@, current as int));
                    assert forall|i: int| 1 <= i < self@.len() implies #[trigger] edge_ok(
                        c,
                        self@,
                        i,
                    ) by {
                        if i != current as int {
                            assert(edge_ok(c, self@, i));
                        }
                    }
                }
                break;
            }
            let ghost s = self@;
            let ghost q = current as int;
            let ghost p = parent as int;
            swap_elements(&mut self.items, current, parent);
            proof {
                let s2 = self@;
                assert(s2 =~= s.update(q, s[p]).update(p, s[q]));
                lemma_swap_preserves_multiset(s, q, p);
                assert(s2.to_multiset() == base.to_multiset());
                let x = s[q];
                let pv = s[p];
                // every edge other than the one out of `p` still holds
                assert forall|i: int| 1 <= i < s2.len() && i != p implies #[trigger] edge_ok(
                    c,
                    s2,
                    i,
                ) by {
                    lemma_parent_of_bounds(i);
                    if i == q {
                        // the displaced parent value sits below the new element
                        c.lemma_asymmetric(x, pv);
                    } else if parent_of(i) == p {
                        // sibling of the moving element: it already sat below
                        // the old parent value, which the new element outranks
                        assert(edge_ok(c, s, i));
                        if c.prior(s[i], x) {
                            lemma_priority_transitive(c, s[i], x, pv);
                        }
                    } else if parent_of(i) == q {
                        // child of the vacated slot: the bridge says it does
                        // not outrank the old parent value, now sitting there
                        assert(!c.prior(s[i], s[parent_of(q)]));
                    } else {
                        assert(edge_ok(c, s, i));
                    }
                }
                // bridge at `p`: its children do not outrank `p`'s parent
                if p >= 1 {
                    lemma_parent_of_bounds(p);
                    let pp = parent_of(p);
                    assert forall|i: int| 1 <= i < s2.len() && parent_of(i) == p implies !c.prior(
                        #[trigger] s2[i],
                        s2[pp],
                    ) by {
                        lemma_parent_of_bounds(i);
                        assert(edge_ok(c, s, p));
                        if i == q {
                        } else {
                            assert(edge_ok(c, s, i));
                            c.lemma_no_priority_transitive(s[i], pv, s[pp]);
                        }
                    }
                }
                assert(sift_up_ok(c, s2, p));
            }
            current = parent;
        }
        proof {
            assert(self@.to_multiset() == old(self)@.to_multiset().insert(value));
            assert(self@.len() == self@.to_multiset().len() && base.len()
                == base.to_multiset().len()) by {
                broadcast use vstd::seq_lib::group_to_multiset_ensures;

            }
        }
    }

    /// Whether the node at `idx` has at least a left child.
    fn children_present(&self, idx: usize) -> (r: bool)
        requires
            idx < self.count,
        ensures
            r == (2 * idx + 1 < self.count),
    {
        self.count - idx > idx + 1
    }

    /// Index of the left child of the node at `idx`.
    fn left_child_idx(&self, idx: usize) -> (r: usize)
        requires
            2 * idx + 1 <= usize::MAX,
        ensures
            r == 2 * idx + 1,
    {
        2 * idx + 1
    }

    /// Index of the right child of the node at `idx`.
    fn right_child_idx(&self, idx: usize) -> (r: usize)
        requires
            2 * idx + 2 <= usize::MAX,
        ensures
            r == 2 * idx + 2,
    {
        self.left_child_idx(idx) + 1
    }

    /// Picks the slot the node at `idx` should descend into: the child with
    /// priority over its sibling, provided that child also has priority over
    /// the node itself; `idx` when no descent is warranted.
    fn smallest_child_idx(&self, idx: usize) -> (r: usize)
        requires
            self.storage_ok(),
            idx < self.count,
        ensures
            r == idx || (parent_of(r as int) == idx as int && (r as int) < self.count),
            r != idx ==> self.ordering().prior(self@[r as int], self@[idx as int]),
            forall|j: int|
                0 <= j < self@.len() && parent_of(j) == idx as int && j != r as int
                    ==> !self.ordering().prior(#[trigger] self@[j], self@[r as int]),
    {
        if !self.children_present(idx) {
            proof {
                assert forall|j: int| 0 <= j < self@.len() && parent_of(j) == idx as int implies
                    false by {
                    if j >= 1 {
                        lemma_parent_of_bounds(j);
                    }
                }
            }
            return idx;
        }
        let left = self.left_child_idx(idx);
        let right = self.right_child_idx(idx);
        proof {
            lemma_child_parent(idx as int);
            assert forall|j: int|
                0 <= j < self@.len() && parent_of(j) == idx as int implies j == left as int || j
                == right as int by {
                if j >= 1 {
                    lemma_parent_of_bounds(j);
                }
            }
            assert(self@[left as int] == self.items@[left as int]);
            assert(self@[idx as int] == self.items@[idx as int]);
        }
        if right >= self.count {
            // only the left child exists
            if self.comparator.outranks(&self.items[left], &self.items[idx]) {
                left
            } else {
                idx
            }
        } else {
            proof {
                assert(self@[right as int] == self.items@[right as int]);
            }
            let winner = if self.comparator.outranks(&self.items[left], &self.items[right]) {
                left
            } else {
                right
            };
            if self.comparator.outranks(&self.items[winner], &self.items[idx]) {
                proof {
                    let c = self.ordering();
                    if winner == left {
                        // the right child does not outrank the winning left one
                        c.lemma_asymmetric(self@[left as int], self@[right as int]);
                    }
                }
                winner
            } else {
                proof {
                    let c = self.ordering();
                    let l = self@[left as int];
                    let rv = self@[right as int];
                    let x = self@[idx as int];
                    if winner == left {
                        // neither child outranks the node: the right child
                        // outranking it would make the left one outrank it too
                        if c.prior(rv, x) {
                            lemma_priority_transitive(c, l, rv, x);
                        }
                    } else {
                        c.lemma_no_priority_transitive(l, rv, x);
                    }
                }
                idx
            }
        }
    }
}

impl<T: Copy, C: Comparator<T>> Heap<T, C> {
    /// Removes and returns the element with priority over every other live
    /// element (the root), or signals exhaustion with `None` when the heap
    /// is empty; an empty heap is left untouched.
    pub fn next(&mut self) -> (r: Option<T>)
        requires
            old(self).wf(),
        ensures
            final(self).wf(),
            final(self).ordering() == old(self).ordering(),
            old(self)@.len() == 0 ==> r is None && final(self)@ == old(self)@,
            old(self)@.len() > 0 ==> r == Some(old(self)@[0]) && final(self)@.len() == old(
                self,
            )@.len() - 1 && final(self)@.to_multiset() == old(self)@.to_multiset().remove(
                old(self)@[0],
            ),
            forall|i: int|
                0 <= i < old(self)@.len() ==> !old(self).ordering().prior(
                    #[trigger] old(self)@[i],
                    old(self)@[0],
                ),
    {
        if self.count == 0 {
            return None;
        }
        let ghost c = self.comparator;
        let ghost s0 = self@;
        proof {
            assert forall|i: int| 0 <= i < s0.len() implies !c.prior(#[trigger] s0[i], s0[0]) by {
                lemma_root_extreme(c, s0, i);
            }
        }
        let res = self.items[0];
        let last = self.items[self.count - 1];
        self.items.set(0, last);
        self.count = self.count - 1;
        let ghost entry = self@;
        if self.count == 0 {
            proof {
                broadcast use vstd::seq_lib::group_to_multiset_ensures;
                broadcast use vstd::multiset::group_multiset_axioms;

                assert(entry =~= Seq::<T>::empty());
                assert(s0 =~= Seq::<T>::empty().push(s0[0]));
                assert(s0.to_multiset() == Seq::<T>::empty().to_multiset().insert(s0[0]));
                assert(entry.to_multiset() =~= s0.to_multiset().remove(s0[0]));
            }
            return Some(res);
        }
        proof {
            assert(entry =~= s0.take(s0.len() - 1).update(0, s0.last()));
            lemma_replace_root_multiset(s0);
            // at the start of the descent only the root's own edges may fail
            assert forall|i: int| 1 <= i < entry.len() && parent_of(i) != 0 implies #[trigger]
                edge_ok(c, entry, i) by {
                lemma_parent_of_bounds(i);
                assert(edge_ok(c, s0, i));
            }
            assert(sift_down_ok(c, entry, 0));
        }
        let mut current: usize = 0;
        loop
            invariant
                self.count == entry.len(),
                self.count <= self.items@.len(),
                self.comparator == c,
                (current as int) < self.count,
                self@.to_multiset() == entry.to_multiset(),
                sift_down_ok(c, self@, current as int),
            ensures
                self.count == entry.len(),
                self.count <= self.items@.len(),
                self.comparator == c,
                self@.to_multiset() == entry.to_multiset(),
                heap_ordered(c, self@),
            decreases self.count - current,
        {
            let exchange = self.smallest_child_idx(current);
            if exchange == current {
                proof {
                    assert forall|i: int| 1 <= i < self@.len() implies #[trigger] edge_ok(
                        c,
                        self@,
                        i,
                    ) by {
                        if parent_of(i) == current as int {
                            assert(!c.prior(self@[i], self@[current as int]));
                        } else {
                            assert(edge_ok(c, self@, i));
                        }
                    }
                }
                break;
            }
            let ghost s = self@;
            let ghost q = current as int;
            let ghost w = exchange as int;
            proof {
                lemma_parent_of_bounds(w);
            }
            swap_elements(&mut self.items, current, exchange);
            proof {
                let s2 = self@;
                assert(s2 =~= s.update(q, s[w]).update(w, s[q]));
                lemma_swap_preserves_multiset(s, q, w);
                assert(s2.to_multiset() == entry.to_multiset());
                let x = s[q];
                let wv = s[w];
                // every edge not pointing up to the vacated slot still holds
                assert forall|i: int| 1 <= i < s2.len() && parent_of(i) != w implies #[trigger]
                    edge_ok(c, s2, i) by {
                    lemma_parent_of_bounds(i);
                    if i == w {
                        // the displaced element sits below the winning child
                        c.lemma_asymmetric(wv, x);
                    } else if i == q {
                        // the winning child does not outrank the old parent
                        // of the vacated slot, by the bridge
                        assert(q >= 1);
                        assert(!c.prior(s[w], s[parent_of(q)]));
                    } else if parent_of(i) == q {
                        // sibling of the winning child: it does not outrank it
                        assert(!c.prior(s[i], s[w]));
                    } else {
                        assert(edge_ok(c, s, i));
                    }
                }
                // bridge at the new slot: its children sat below the winner
                assert forall|i: int| 1 <= i < s2.len() && parent_of(i) == w implies !c.prior(
                    #[trigger] s2[i],
                    s2[parent_of(w)],
                ) by {
                    lemma_parent_of_bounds(i);
                    assert(edge_ok(c, s, i));
                }
                assert(sift_down_ok(c, s2, w));
            }
            current = exchange;
        }
        Some(res)
    }
}

impl<T: StrictOrder> Heap<T, MinFirst> {
    /// Returns an empty heap that hands out its least element first.
    pub fn new_min() -> (h: Self)
        ensures
            h.wf(),
            h@ == Seq::<T>::empty(),
            h.ordering() == MinFirst,
    {
        Self::new(MinFirst)
    }
}

impl<T: StrictOrder> Heap<T, MaxFirst> {
    /// Returns an empty heap that hands out its greatest element first.
    pub fn new_max() -> (h: Self)
        ensures
            h.wf(),
            h@ == Seq::<T>::empty(),
            h.ordering() == MaxFirst,
    {
        Self::new(MaxFirst)
    }
}

/// Factory for heaps that hand out their least element first.
pub struct MinHeap;

impl MinHeap {
    /// Returns an empty min-heap over `T`.
    pub fn new<T: StrictOrder>() -> (h: Heap<T, MinFirst>)
        ensures
            h.wf(),
            h@ == Seq::<T>::empty(),
            h.ordering() == MinFirst,
    {
        Heap::new(MinFirst)
    }
}

/// Factory for heaps that hand out their greatest element first.
pub struct MaxHeap;

impl MaxHeap {
    /// Returns an empty max-heap over `T`.
    pub fn new<T: StrictOrder>() -> (h: Heap<T, MaxFirst>)
        ensures
            h.wf(),
            h@ == Seq::<T>::empty(),
            h.ordering() == MaxFirst,
    {
        Heap::new(MaxFirst)
    }
}

} // verus!
