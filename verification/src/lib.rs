//! A min-priority queue backed by a binary heap in a growable array.
//!
//! The heap stores elements of any type with a total order (the
//! [`order::TotalOrder`] trait) and offers `insert` and `extract_min`,
//! each restoring the min-heap invariant over the implicit complete
//! binary tree that the array encodes.

use vstd::prelude::*;

pub mod order;

verus! {

use crate::order::TotalOrder;
use vstd::multiset::Multiset;

/// Index of the parent of the node at index `i` (meaningful for `i >= 1`).
pub open spec fn parent_of(i: int) -> int {
    (i - 1) / 2
}

/// Index of the left child of the node at index `i`.
pub open spec fn left_child_of(i: int) -> int {
    2 * i + 1
}

/// Index of the right child of the node at index `i`.
pub open spec fn right_child_of(i: int) -> int {
    2 * i + 2
}

/// The min-heap invariant: every node with a parent is greater than or
/// equal to that parent.
pub open spec fn is_min_heap<T: TotalOrder>(s: Seq<T>) -> bool {
    forall|i: int| 1 <= i < s.len() ==> s[parent_of(i)].le_spec(#[trigger] s[i])
}

/// The min-heap invariant, except that nothing is demanded of the edge
/// between the node at index `j` and its parent; in exchange, if `j` has
/// both a parent and children, the children are bounded below by `j`'s
/// parent. This is the state a heap is in while an element sifts up.
spec fn is_min_heap_except_up<T: TotalOrder>(s: Seq<T>, j: int) -> bool {
    &&& forall|i: int| 1 <= i < s.len() && i != j ==> s[parent_of(i)].le_spec(#[trigger] s[i])
    &&& (j >= 1 ==> forall|c: int|
        1 <= c < s.len() && parent_of(c) == j ==> s[parent_of(j)].le_spec(#[trigger] s[c]))
}

/// The min-heap invariant, except that nothing is demanded of the edges
/// between the node at index `j` and its children; in exchange, if `j`
/// has both a parent and children, the children are bounded below by
/// `j`'s parent. This is the state a heap is in while an element sifts
/// down.
spec fn is_min_heap_except_down<T: TotalOrder>(s: Seq<T>, j: int) -> bool {
    &&& forall|i: int|
        1 <= i < s.len() && parent_of(i) != j ==> s[parent_of(i)].le_spec(#[trigger] s[i])
    &&& (j >= 1 ==> forall|c: int|
        1 <= c < s.len() && parent_of(c) == j ==> s[parent_of(j)].le_spec(#[trigger] s[c]))
}

/// In a min-heap, the root is a minimum: it compares less than or equal
/// to the element at any index `i`.
pub proof fn lemma_root_is_min<T: TotalOrder>(s: Seq<T>, i: int)
    requires
        is_min_heap(s),
        0 <= i < s.len(),
    ensures
        s[0].le_spec(s[i]),
    decreases i,
{
    if i == 0 {
        T::lemma_le_total(s[0], s[0]);
    } else {
        lemma_parent_of(i);
        lemma_root_is_min(s, parent_of(i));
        T::lemma_le_transitive(s[0], s[parent_of(i)], s[i]);
    }
}

/// The implicit tree's index arithmetic: each non-root index is one of the
/// two children of its parent, and the parent lies strictly before it.
proof fn lemma_parent_of(i: int)
    requires
        1 <= i,
    ensures
        0 <= parent_of(i) < i,
        left_child_of(parent_of(i)) == i || right_child_of(parent_of(i)) == i,
        forall|j: int| #![trigger parent_of(j)] left_child_of(i) <= j <= right_child_of(i)
            ==> parent_of(j) == i,
{
}

/// `s` is non-decreasing under the element order.
pub open spec fn sorted<T: TotalOrder>(s: Seq<T>) -> bool {
    forall|i: int, j: int| #![trigger s[i], s[j]] 0 <= i <= j < s.len() ==> s[i].le_spec(s[j])
}

/// Along a chain of states in which each next state is the previous one
/// with one element removed, whatever a later state holds the first
/// state held already.
proof fn lemma_remove_chain_count<T: TotalOrder>(
    states: Seq<Multiset<T>>,
    out: Seq<T>,
    k: int,
    x: T,
)
    requires
        states.len() == out.len() + 1,
        forall|q: int| 0 <= q < out.len() ==> states[q + 1] == #[trigger] states[q].remove(
            out[q],
        ),
        0 <= k < states.len(),
        states[k].count(x) > 0,
    ensures
        states[0].count(x) > 0,
    decreases k,
{
    broadcast use vstd::multiset::group_multiset_axioms;

    if k > 0 {
        assert(states[k] == states[k - 1].remove(out[k - 1]));
        assert(states[k - 1].count(x) >= states[k].count(x));
        lemma_remove_chain_count(states, out, k - 1, x);
    }
}

/// The sorted-output law: repeatedly removing a minimum drains a
/// multiset into a non-decreasing sequence holding exactly its elements.
///
/// If at each step `k` the element `out[k]` belongs to `states[k]` and is
/// less than or equal to everything in `states[k]`, and `states[k + 1]`
/// is `states[k]` with that one occurrence removed, until nothing is
/// left, then `out` is sorted and its multiset is the starting state.
/// Each hypothesis is an `ensures` clause of `extract_min`, so inserting
/// any elements and then extracting until the heap is empty yields their
/// multiset in sorted order.
pub proof fn lemma_drain_sorted<T: TotalOrder>(states: Seq<Multiset<T>>, out: Seq<T>)
    requires
        states.len() == out.len() + 1,
        forall|k: int| 0 <= k < out.len() ==> #[trigger] states[k].count(out[k]) > 0,
        forall|k: int, x: T|
            0 <= k < out.len() && #[trigger] states[k].count(x) > 0 ==> out[k].le_spec(x),
        forall|q: int| 0 <= q < out.len() ==> states[q + 1] == #[trigger] states[q].remove(
            out[q],
        ),
        states[out.len() as int] == Multiset::<T>::empty(),
    ensures
        sorted(out),
        out.to_multiset() == states[0],
    decreases out.len(),
{
    broadcast use vstd::multiset::group_multiset_axioms;
    broadcast use vstd::seq_lib::group_to_multiset_ensures;

    if out.len() == 0 {
        assert(out.to_multiset() =~= states[0]);
    } else {
        let states2 = states.drop_first();
        let out2 = out.drop_first();
        assert forall|k: int| 0 <= k < out2.len() implies #[trigger] states2[k].count(out2[k])
            > 0 by {
            assert(states2[k] == states[k + 1]);
        }
        assert forall|k: int, x: T|
            0 <= k < out2.len() && #[trigger] states2[k].count(x) > 0
            implies out2[k].le_spec(x) by {
            assert(states2[k] == states[k + 1]);
        }
        assert forall|q: int| 0 <= q < out2.len()
            implies states2[q + 1] == #[trigger] states2[q].remove(out2[q]) by {
            assert(states2[q] == states[q + 1]);
            assert(states2[q + 1] == states[q + 2]);
            assert(states[q + 2] == states[q + 1].remove(out[q + 1]));
        }
        assert(states2[out2.len() as int] == states[out.len() as int]);
        lemma_drain_sorted(states2, out2);

        // The multisets agree: removing the first output from each side
        // leaves equal multisets, and both contain that first output.
        let a = out[0];
        let m = out.to_multiset();
        let n = states[0];
        assert(states2[0] == states[1]);
        assert(states[1] == states[0].remove(a));
        assert(out.remove(0) =~= out2);
        assert(out.remove(0).to_multiset() == m.remove(a));
        assert(m.count(a) > 0) by {
            assert(out.contains(a));
        }
        assert(n.count(a) > 0);
        assert forall|y: T| m.count(y) == n.count(y) by {
            assert(m.remove(a).count(y) == n.remove(a).count(y));
        }
        assert(m =~= n);

        // Sortedness: the first output is below everything the first
        // state holds, and every later output was still held then.
        assert forall|i: int, j: int| #![trigger out[i], out[j]] 0 <= i <= j < out.len()
            implies out[i].le_spec(out[j]) by {
            if i == 0 {
                if j > 0 {
                    lemma_remove_chain_count(states, out, j, out[j]);
                }
            } else {
                assert(out2[i - 1] == out[i]);
                assert(out2[j - 1] == out[j]);
                assert(out2[i - 1].le_spec(out2[j - 1]));
            }
        }
    }
}

/// Exchanging two elements of a sequence leaves its multiset unchanged.
proof fn lemma_swap_multiset<T>(s: Seq<T>, a: int, b: int)
    requires
        0 <= a < s.len(),
        0 <= b < s.len(),
    ensures
        s.update(a, s[b]).update(b, s[a]).to_multiset() == s.to_multiset(),
        s.update(a, s[b]).update(b, s[a]).len() == s.len(),
{
    broadcast use vstd::seq_lib::group_to_multiset_ensures;
    broadcast use vstd::multiset::group_multiset_axioms;

    let u = s.update(a, s[b]);
    let t = u.update(b, s[a]);
    assert(s.to_multiset().count(s[a]) > 0) by {
        assert(s.contains(s[a]));
    }
    assert(u.to_multiset().count(u[b]) > 0) by {
        assert(u.contains(u[b]));
    }
    assert(t.to_multiset() =~= s.to_multiset());
}

/// Swaps the elements at `a` and `b` of the vector.
///
/// Relies on `<[T]>::swap`: it exchanges the elements at the two indices
/// and panics only when an index is out of bounds.
#[verifier::external_body]
fn vec_swap<T>(v: &mut Vec<T>, a: usize, b: usize)
    requires
        a < old(v)@.len(),
        b < old(v)@.len(),
    ensures
        final(v)@ == old(v)@.update(a as int, old(v)@[b as int]).update(
            b as int,
            old(v)@[a as int],
        ),
{
    v.swap(a, b);
}

/// A min-priority queue implemented with a binary heap.
///
/// The elements of the queue are of a type which implements the
/// [`order::TotalOrder`] trait, i.e. the type forms a total order.
pub struct MinBinaryHeap<T: TotalOrder> {
    tree: Vec<T>,
}

impl<T: TotalOrder> View for MinBinaryHeap<T> {
    type V = Seq<T>;

    closed spec fn view(&self) -> Seq<T> {
        self.tree@
    }
}

impl<T: TotalOrder> MinBinaryHeap<T> {
    /// Well-formedness: the stored sequence satisfies the min-heap invariant.
    pub open spec fn wf(&self) -> bool {
        is_min_heap(self@)
    }

    /// Creates an empty binary min-heap.
    pub fn new() -> (r: MinBinaryHeap<T>)
        ensures
            r@ == Seq::<T>::empty(),
            r@.len() == 0,
            r.wf(),
    {
        MinBinaryHeap { tree: Vec::new() }
    }

    /// Returns the number of elements present inside the binary heap (queue).
    pub fn size(&self) -> (r: usize)
        ensures
            r == self@.len(),
    {
        self.tree.len()
    }

    /// Returns the index of the parent node of a given node with index
    /// `of_index`, which must be a valid non-root position.
    pub fn parent_index(&self, of_index: usize) -> (r: usize)
        requires
            1 <= of_index < self@.len(),
        ensures
            r == parent_of(of_index as int),
            r < of_index,
    {
        proof {
            let i = of_index as int;
            assert(i % 2 == 0 ==> i >= 2 && (i - 2) / 2 == (i - 1) / 2) by (nonlinear_arith)
                requires
                    i >= 1,
            ;
            assert((i - 1) / 2 < i) by (nonlinear_arith)
                requires
                    i >= 1,
            ;
        }
        if of_index % 2 == 0 {
            (of_index - 2) / 2
        } else {
            (of_index - 1) / 2
        }
    }

    /// The index `child_index_min` returns when the node at `i` has at
    /// least one child: the left child if it is the only one or compares
    /// strictly smaller than the right child, the right child otherwise.
    pub open spec fn spec_child_index_min(s: Seq<T>, i: int) -> int
        recommends
            left_child_of(i) < s.len(),
    {
        if right_child_of(i) >= s.len() {
            left_child_of(i)
        } else if !s[right_child_of(i)].le_spec(s[left_child_of(i)]) {
            left_child_of(i)
        } else {
            right_child_of(i)
        }
    }

    /// Returns the index of the smallest child node of a given parent node
    /// with index `of_index`, or `None` if no children exist.
    pub fn child_index_min(&self, of_index: usize) -> (r: Option<usize>)
        ensures
            match r {
                Some(c) => {
                    &&& left_child_of(of_index as int) < self@.len()
                    &&& c == Self::spec_child_index_min(self@, of_index as int)
                    &&& of_index < c < self@.len()
                    &&& parent_of(c as int) == of_index
                    &&& self@[c as int].le_spec(self@[left_child_of(of_index as int)])
                    &&& right_child_of(of_index as int) < self@.len()
                        ==> self@[c as int].le_spec(self@[right_child_of(of_index as int)])
                },
                None => left_child_of(of_index as int) >= self@.len(),
            },
    {
        if of_index >= self.tree.len() / 2 {
            // The left child's index would be at or past the end,
            // so no child exists (this also keeps `2 * of_index + 1`
            // within bounds below).
            return None;
        }
        let left_child_index: usize = 2 * of_index + 1;
        let right_child_index: usize = left_child_index + 1;
        proof {
            lemma_parent_of(left_child_index as int);
            T::lemma_le_total(self@[left_child_index as int], self@[left_child_index as int]);
            if right_child_index < self@.len() {
                T::lemma_le_total(
                    self@[right_child_index as int],
                    self@[right_child_index as int],
                );
                T::lemma_le_total(
                    self@[left_child_index as int],
                    self@[right_child_index as int],
                );
            }
        }
        if right_child_index < self.tree.len() {
            if self.tree[left_child_index].less(&self.tree[right_child_index]) {
                Some(left_child_index)
            } else {
                Some(right_child_index)
            }
        } else {
            Some(left_child_index)
        }
    }

    /// Removes the smallest item from the binary heap and returns it, or
    /// `None` if heap is empty.
    ///
    /// On a non-empty heap the root is returned, the last leaf takes its
    /// place, and the moved element is sifted down: while it is strictly
    /// greater than its smallest child the two are swapped.
    pub fn extract_min(&mut self) -> (r: Option<T>)
        requires
            old(self).wf(),
        ensures
            final(self).wf(),
            old(self)@.len() == 0 ==> r is None && final(self)@ == old(self)@,
            old(self)@.len() > 0 ==> ({
                &&& r == Some(old(self)@[0])
                &&& final(self)@.len() == old(self)@.len() - 1
                &&& old(self)@.to_multiset() == final(self)@.to_multiset().insert(old(self)@[0])
                &&& forall|i: int|
                    0 <= i < old(self)@.len() ==> old(self)@[0].le_spec(#[trigger] old(self)@[i])
            }),
    {
        if self.tree.len() < 1 {
            // Attempted 'extract_min' on empty tree.
            return None;
        } else if self.tree.len() < 2 {
            // There is only one element.
            let ghost s0 = self@;
            let minimum = self.tree.pop().unwrap();
            proof {
                broadcast use vstd::seq_lib::group_to_multiset_ensures;

                assert(s0 =~= self@.push(minimum));
                T::lemma_le_total(s0[0], s0[0]);
            }
            return Some(minimum);
        }
        // Remove root and replace it with last node given by BFS.
        let last_node_index: usize = self.tree.len() - 1;
        let ghost s0 = self@;
        vec_swap(&mut self.tree, 0, last_node_index);
        let ghost u = self@;
        let minimum = self.tree.pop().unwrap();
        proof {
            broadcast use vstd::seq_lib::group_to_multiset_ensures;

            lemma_swap_multiset(s0, 0, last_node_index as int);
            assert(u =~= self@.push(s0[0]));
            assert(s0.to_multiset() == self@.to_multiset().insert(s0[0]));
            assert forall|i: int| 1 <= i < self@.len() && parent_of(i) != 0
                implies self@[parent_of(i)].le_spec(self@[i]) by {
                lemma_parent_of(i);
            }
            assert forall|i: int| 0 <= i < s0.len() implies s0[0].le_spec(s0[i]) by {
                lemma_root_is_min(s0, i);
            }
        }

        if self.tree.len() > 1 {
            let ghost n1 = self@.len();
            let ghost m1 = self@.to_multiset();
            let mut current_index: usize = 0;
            // Trickle root down tree.
            loop
                invariant
                    self@.len() == n1,
                    self@.to_multiset() == m1,
                    current_index < self@.len(),
                    is_min_heap_except_down(self@, current_index as int),
                ensures
                    self@.len() == n1,
                    self@.to_multiset() == m1,
                    is_min_heap(self@),
                decreases self@.len() - current_index,
            {
                let child_index_min = match self.child_index_min(current_index) {
                    Some(child_index) => child_index,
                    None => {
                        proof {
                            assert forall|i: int| 1 <= i < self@.len()
                                implies self@[parent_of(i)].le_spec(self@[i]) by {
                                lemma_parent_of(i);
                            }
                        }
                        break;
                    },
                };
                if self.tree[child_index_min].less(&self.tree[current_index]) {
                    let ghost s = self@;
                    let ghost j = current_index as int;
                    let ghost c = child_index_min as int;
                    vec_swap(&mut self.tree, current_index, child_index_min);
                    proof {
                        let t = self@;
                        lemma_parent_of(c);
                        lemma_swap_multiset(s, j, c);
                        T::lemma_le_total(s[j], s[c]);
                        assert forall|i: int| 1 <= i < t.len() && parent_of(i) != c
                            implies t[parent_of(i)].le_spec(t[i]) by {
                            lemma_parent_of(i);
                            if i == c {
                                // the moved-down element now sits below the child
                            } else if parent_of(i) == j {
                                // the other child of `j`, now under the smallest child
                            } else if i == j {
                                // the hole's old parent still bounds the child moved up
                                assert(s[parent_of(j)].le_spec(s[c]));
                            }
                        }
                        if c >= 1 {
                            assert forall|d: int| 1 <= d < t.len() && parent_of(d) == c
                                implies t[parent_of(c)].le_spec(t[d]) by {
                                lemma_parent_of(d);
                            }
                        }
                    }
                    current_index = child_index_min;
                } else {
                    proof {
                        let s = self@;
                        let j = current_index as int;
                        let c = child_index_min as int;
                        assert forall|i: int| 1 <= i < s.len()
                            implies s[parent_of(i)].le_spec(s[i]) by {
                            lemma_parent_of(i);
                            if parent_of(i) == j && i != c {
                                T::lemma_le_transitive(s[j], s[c], s[i]);
                            }
                        }
                    }
                    break;
                }
            }
        }
        // Return the old root.
        Some(minimum)
    }

    /// Insert elements into the binary heap.
    ///
    /// The new element is appended as the next leaf and then sifted up:
    /// while it is strictly smaller than its parent the two are swapped.
    pub fn insert(&mut self, new_node: T)
        requires
            old(self).wf(),
        ensures
            final(self).wf(),
            final(self)@.len() == old(self)@.len() + 1,
            final(self)@.to_multiset() == old(self)@.to_multiset().insert(new_node),
    {
        self.tree.push(new_node);
        proof {
            broadcast use vstd::seq_lib::group_to_multiset_ensures;

            assert forall|i: int| 1 <= i < self@.len() && i != self@.len() - 1
                implies self@[parent_of(i)].le_spec(self@[i]) by {
                lemma_parent_of(i);
            }
            assert forall|c: int| #![trigger parent_of(c)]
                1 <= c < self@.len() && parent_of(c) == self@.len() - 1
                implies self@[parent_of(self@.len() - 1)].le_spec(self@[c]) by {
                lemma_parent_of(c);
            }
        }
        let ghost n0 = self@.len();
        let ghost m0 = self@.to_multiset();

        if self.tree.len() > 1 {
            let mut current_index: usize = self.tree.len() - 1;
            while current_index > 0 && self.tree[current_index].less(
                &self.tree[self.parent_index(current_index)],
            )
                invariant
                    self@.len() == n0,
                    self@.to_multiset() == m0,
                    current_index < self@.len(),
                    is_min_heap_except_up(self@, current_index as int),
                decreases current_index,
            {
                let par: usize = self.parent_index(current_index);
                let ghost s = self@;
                let ghost j = current_index as int;
                let ghost p = par as int;
                vec_swap(&mut self.tree, current_index, par);
                proof {
                    let t = self@;
                    lemma_parent_of(j);
                    lemma_swap_multiset(s, j, p);
                    T::lemma_le_total(s[p], s[j]);
                    assert forall|i: int| 1 <= i < t.len() && i != p
                        implies t[parent_of(i)].le_spec(t[i]) by {
                        lemma_parent_of(i);
                        if i == j {
                            // the moved-up element is now below its old parent
                        } else if parent_of(i) == j {
                            // a child of the hole: bounded by the hole's old parent
                            assert(s[parent_of(j)].le_spec(s[i]));
                        } else if parent_of(i) == p {
                            // the hole's sibling, now under the moved-up element
                            T::lemma_le_transitive(s[j], s[p], s[i]);
                        }
                    }
                    if p >= 1 {
                        assert forall|c: int| 1 <= c < t.len() && parent_of(c) == p
                            implies t[parent_of(p)].le_spec(t[c]) by {
                            lemma_parent_of(c);
                            lemma_parent_of(p);
                            if c != j {
                                T::lemma_le_transitive(s[parent_of(p)], s[p], s[c]);
                            }
                        }
                    }
                }
                current_index = par;
            }
            proof {
                if current_index > 0 {
                    lemma_parent_of(current_index as int);
                }
                assert forall|i: int| 1 <= i < self@.len()
                    implies self@[parent_of(i)].le_spec(self@[i]) by {
                    lemma_parent_of(i);
                }
            }
        }
    }
}

} // verus!
