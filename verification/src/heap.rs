//! A binary heap driven by a caller-supplied ordering predicate.
//!
//! The heap owns a dense, zero-based backing vector together with the
//! comparator that defines priority. Index arithmetic is offset-free: the
//! parent of node `c` is `(c - 1) / 2` and the children of node `i` are
//! `2 i + 1` and `2 i + 2`, so no placeholder slot is needed and element types
//! need no default value.
//!
//! The structural invariant (`heap_seq`) says that no node outranks its
//! parent. Insertion restores it by bubbling the new leaf up; extraction
//! moves the last leaf into the root and bubbles it down. Extraction is a
//! resumable protocol: `next` yields the root and signals exhaustion, by
//! returning nothing, once the heap is empty — and keeps signalling it on
//! every further call.

use vstd::multiset::Multiset;
use vstd::prelude::*;

use crate::order::lemma_lt_asymmetric;
use crate::order::lemma_lt_negative_transitive;
use crate::order::Ordered;

verus! {

broadcast use {vstd::seq_lib::group_to_multiset_ensures, vstd::multiset::group_multiset_axioms};

/// A priority predicate: a strict weak ordering supplied by the caller.
///
/// `prio(a, b)` reads "`a` takes priority over `b`", i.e. `a` belongs closer
/// to the root. The two laws — asymmetry and transitivity of the complement —
/// are exactly what a strict weak ordering guarantees, and are what the heap
/// needs to maintain its invariant.
pub trait Comparator<T>: Sized {
    /// Does `a` take priority over `b`?
    spec fn prio(self, a: T, b: T) -> bool;

    /// Two values never each take priority over the other.
    proof fn lemma_asymmetric(self, a: T, b: T)
        requires
            self.prio(a, b),
        ensures
            !self.prio(b, a),
    ;

    /// "Does not outrank" is transitive.
    proof fn lemma_negative_transitive(self, a: T, b: T, c: T)
        requires
            !self.prio(a, b),
            !self.prio(b, c),
        ensures
            !self.prio(a, c),
    ;

    /// Executable comparison, agreeing with `prio`.
    fn prefers(&self, a: &T, b: &T) -> (r: bool)
        ensures
            r == self.prio(*a, *b),
    ;
}

/// Smallest-first priority: `a` outranks `b` when `a` comes before `b`.
pub struct MinCmp;

/// Largest-first priority: `a` outranks `b` when `b` comes before `a`.
pub struct MaxCmp;

impl<T: Ordered> Comparator<T> for MinCmp {
    open spec fn prio(self, a: T, b: T) -> bool {
        a.lt_spec(b)
    }

    proof fn lemma_asymmetric(self, a: T, b: T) {
        lemma_lt_asymmetric(a, b);
    }

    proof fn lemma_negative_transitive(self, a: T, b: T, c: T) {
        lemma_lt_negative_transitive(a, b, c);
    }

    fn prefers(&self, a: &T, b: &T) -> (r: bool) {
        a.less_than(b)
    }
}

impl<T: Ordered> Comparator<T> for MaxCmp {
    open spec fn prio(self, a: T, b: T) -> bool {
        b.lt_spec(a)
    }

    proof fn lemma_asymmetric(self, a: T, b: T) {
        lemma_lt_asymmetric(b, a);
    }

    proof fn lemma_negative_transitive(self, a: T, b: T, c: T) {
        lemma_lt_negative_transitive(c, b, a);
    }

    fn prefers(&self, a: &T, b: &T) -> (r: bool) {
        b.less_than(a)
    }
}

/// The parent slot of node `c` in the zero-based layout.
pub open spec fn parent_of(c: int) -> int {
    (c - 1) / 2
}

/// The heap invariant on a backing sequence: no node outranks its parent.
///
/// Equivalently, for every parent/child pair the parent takes priority over
/// the child or the two are tied under the comparator.
pub open spec fn heap_seq<T, C: Comparator<T>>(cmp: C, s: Seq<T>) -> bool {
    forall|c: int| 1 <= c < s.len() ==> !cmp.prio(#[trigger] s[c], s[parent_of(c)])
}

/// The heap invariant, except that node `skip` may outrank its parent.
pub open spec fn ordered_except_at<T, C: Comparator<T>>(cmp: C, s: Seq<T>, skip: int) -> bool {
    forall|c: int| 1 <= c < s.len() && c != skip ==> !cmp.prio(#[trigger] s[c], s[parent_of(c)])
}

/// The heap invariant, except that the children of node `skip` may outrank it.
pub open spec fn ordered_except_below<T, C: Comparator<T>>(cmp: C, s: Seq<T>, skip: int) -> bool {
    forall|c: int| 1 <= c < s.len() && parent_of(c) != skip ==> !cmp.prio(
        #[trigger] s[c],
        s[parent_of(c)],
    )
}

/// Every child of node `j` already fails to outrank `j`'s own parent — the
/// fact that lets a repair procedure swap `j` with a neighbour.
pub open spec fn children_clear_grandparent<T, C: Comparator<T>>(
    cmp: C,
    s: Seq<T>,
    j: int,
) -> bool {
    forall|c: int| 1 <= c < s.len() && parent_of(c) == j ==> !cmp.prio(
        #[trigger] s[c],
        s[parent_of(j)],
    )
}

/// The child of `i` that the comparator ranks highest: the right child when it
/// exists and outranks the left one, otherwise the left child.
pub open spec fn preferred_child<T, C: Comparator<T>>(cmp: C, s: Seq<T>, i: int) -> int {
    if 2 * i + 2 < s.len() && cmp.prio(s[2 * i + 2], s[2 * i + 1]) {
        2 * i + 2
    } else {
        2 * i + 1
    }
}

/// An extraction transcript is sorted: no element outranks an earlier one.
pub open spec fn extraction_sorted<T, C: Comparator<T>>(cmp: C, s: Seq<T>) -> bool {
    forall|i: int, j: int| 0 <= i < j < s.len() ==> !cmp.prio(#[trigger] s[j], #[trigger] s[i])
}

/// Swapping two slots of a sequence leaves its multiset of elements unchanged.
proof fn lemma_swap_preserves_multiset<T>(s: Seq<T>, i: int, j: int)
    requires
        0 <= i < s.len(),
        0 <= j < s.len(),
    ensures
        s.update(i, s[j]).update(j, s[i]).to_multiset() == s.to_multiset(),
{
    let t = s.update(i, s[j]);
    let u = t.update(j, s[i]);
    if i == j {
        assert(u =~= s);
    } else {
        assert(t[j] == s[j]);
        assert(s.contains(s[i]));
        assert(s.contains(s[j]));
        assert(u.to_multiset() =~= s.to_multiset());
    }
}

/// In a well-formed heap the root outranks, or ties with, every element.
pub proof fn lemma_root_outranks_all<T, C: Comparator<T>>(cmp: C, s: Seq<T>)
    requires
        heap_seq(cmp, s),
        s.len() > 0,
    ensures
        forall|i: int| 0 <= i < s.len() ==> !cmp.prio(#[trigger] s[i], s[0]),
{
    assert forall|i: int| 0 <= i < s.len() implies !cmp.prio(#[trigger] s[i], s[0]) by {
        lemma_ancestor_chain(cmp, s, i);
    }
}

proof fn lemma_ancestor_chain<T, C: Comparator<T>>(cmp: C, s: Seq<T>, i: int)
    requires
        heap_seq(cmp, s),
        0 <= i < s.len(),
    ensures
        !cmp.prio(s[i], s[0]),
    decreases i,
{
    if i == 0 {
        if cmp.prio(s[0], s[0]) {
            cmp.lemma_asymmetric(s[0], s[0]);
        }
    } else {
        let p = parent_of(i);
        assert(0 <= p < i);
        lemma_ancestor_chain(cmp, s, p);
        assert(!cmp.prio(s[i], s[p]));
        cmp.lemma_negative_transitive(s[i], s[p], s[0]);
    }
}

/// A multiset that holds exactly one value determines a one-element sequence:
/// a heap holding a single value yields exactly that value.
pub proof fn lemma_singleton_extract<T>(s: Seq<T>, v: T)
    requires
        s.len() == 1,
        s.to_multiset() == Multiset::<T>::empty().insert(v),
    ensures
        s[0] == v,
{
    assert(s.contains(s[0]));
    assert(s.to_multiset().count(s[0]) > 0);
}

/// Relies on the standard library's slice `swap`: it exchanges the elements at
/// the two given positions and leaves every other slot unchanged.
#[verifier::external_body]
fn swap_entries<T>(items: &mut Vec<T>, i: usize, j: usize)
    requires
        i < old(items)@.len(),
        j < old(items)@.len(),
    ensures
        final(items)@ == old(items)@.update(i as int, old(items)@[j as int]).update(
            j as int,
            old(items)@[i as int],
        ),
{
    items.swap(i, j);
}

/// A binary heap over elements of `T`, ordered by a comparator of type `C`.
pub struct Heap<T, C: Comparator<T>> {
    items: Vec<T>,
    comparator: C,
}

impl<T, C: Comparator<T>> View for Heap<T, C> {
    type V = Seq<T>;

    closed spec fn view(&self) -> Seq<T> {
        self.items@
    }
}

impl<T, C: Comparator<T>> Heap<T, C> {
    /// The comparator this heap was built with.
    pub closed spec fn cmp(self) -> C {
        self.comparator
    }

    /// The heap invariant: no node outranks its parent.
    pub open spec fn heap_ordered(self) -> bool {
        heap_seq(self.cmp(), self@)
    }

    /// An empty heap bound permanently to `comparator`.
    pub fn new(comparator: C) -> (h: Self)
        ensures
            h@ == Seq::<T>::empty(),
            h.cmp() == comparator,
            h.heap_ordered(),
    {
        Heap { items: Vec::new(), comparator }
    }

    /// How many elements the heap currently holds.
    pub fn len(&self) -> (n: usize)
        ensures
            n == self@.len(),
    {
        self.items.len()
    }

    /// Does the heap hold no elements?
    pub fn is_empty(&self) -> (e: bool)
        ensures
            e == (self@.len() == 0),
    {
        self.items.len() == 0
    }

    /// Read-only access to the backing storage, root first; exposed so that
    /// callers can audit the invariant slot by slot.
    pub fn storage(&self) -> (v: &Vec<T>)
        ensures
            v@ == self@,
    {
        &self.items
    }

    fn parent_idx(&self, idx: usize) -> (p: usize)
        requires
            idx >= 1,
        ensures
            p == parent_of(idx as int),
    {
        (idx - 1) / 2
    }

    fn left_child_idx(&self, idx: usize) -> (l: usize)
        requires
            2 * idx + 1 < self@.len(),
        ensures
            l == 2 * idx + 1,
    {
        let n = self.items.len();
        proof {
            assert(2 * idx + 1 < n);
        }
        2 * idx + 1
    }

    fn right_child_idx(&self, idx: usize) -> (r: usize)
        requires
            2 * idx + 1 < self@.len(),
        ensures
            r == 2 * idx + 2,
    {
        let n = self.items.len();
        proof {
            assert(2 * idx + 1 < n);
        }
        2 * idx + 2
    }

    fn children_present(&self, idx: usize) -> (b: bool)
        requires
            idx < self@.len(),
        ensures
            b == (2 * idx + 1 < self@.len()),
    {
        self.items.len() - 1 - idx > idx
    }

    fn smallest_child_idx(&self, idx: usize) -> (r: usize)
        requires
            idx < self@.len(),
            2 * idx + 1 < self@.len(),
        ensures
            r == preferred_child(self.cmp(), self@, idx as int),
            idx < r < self@.len(),
    {
        let left = self.left_child_idx(idx);
        let right = self.right_child_idx(idx);
        if right < self.items.len() && self.comparator.prefers(&self.items[right], &self.items[left])
        {
            right
        } else {
            left
        }
    }

    /// Insert `value`; the invariant is restored by bubbling the new leaf up.
    pub fn add(&mut self, value: T)
        requires
            old(self).heap_ordered(),
        ensures
            final(self).heap_ordered(),
            final(self).cmp() == old(self).cmp(),
            final(self)@.len() == old(self)@.len() + 1,
            final(self)@.to_multiset() == old(self)@.to_multiset().insert(value),
    {
        self.items.push(value);
        let idx = self.items.len() - 1;
        proof {
            let s = self.items@;
            assert forall|c: int| 1 <= c < s.len() && c != idx as int implies !self.cmp().prio(
                #[trigger] s[c],
                s[parent_of(c)],
            ) by {
                assert(s[c] == old(self)@[c]);
                assert(s[parent_of(c)] == old(self)@[parent_of(c)]);
            }
        }
        self.bubble_up(idx);
    }

    fn bubble_up(&mut self, idx: usize)
        requires
            idx < old(self)@.len(),
            ordered_except_at(old(self).cmp(), old(self)@, idx as int),
            idx >= 1 ==> children_clear_grandparent(old(self).cmp(), old(self)@, idx as int),
        ensures
            final(self).cmp() == old(self).cmp(),
            final(self)@.len() == old(self)@.len(),
            final(self)@.to_multiset() == old(self)@.to_multiset(),
            heap_seq(final(self).cmp(), final(self)@),
    {
        let ghost cmp = self.comparator;
        let mut current = idx;
        while current > 0
            invariant
                current < self.items@.len(),
                self.items@.len() == old(self)@.len(),
                self.items@.to_multiset() == old(self)@.to_multiset(),
                self.comparator == cmp,
                cmp == old(self).cmp(),
                ordered_except_at(cmp, self.items@, current as int),
                current >= 1 ==> children_clear_grandparent(cmp, self.items@, current as int),
            decreases current,
        {
            let parent = self.parent_idx(current);
            if self.comparator.prefers(&self.items[parent], &self.items[current]) {
                proof {
                    let s = self.items@;
                    cmp.lemma_asymmetric(s[parent as int], s[current as int]);
                    assert(heap_seq(cmp, s));
                }
                return ;
            }
            let ghost prev = self.items@;
            swap_entries(&mut self.items, parent, current);
            proof {
                let s = self.items@;
                let p = parent as int;
                let cur = current as int;
                lemma_swap_preserves_multiset(prev, p, cur);
                assert(s[p] == prev[cur]);
                assert(s[cur] == prev[p]);
                assert forall|c: int| 1 <= c < s.len() && c != p implies !cmp.prio(
                    #[trigger] s[c],
                    s[parent_of(c)],
                ) by {
                    if c == cur {
                        assert(parent_of(cur) == p);
                    } else if parent_of(c) == p {
                        assert(s[c] == prev[c]);
                        assert(!cmp.prio(prev[c], prev[p]));
                        cmp.lemma_negative_transitive(prev[c], prev[p], prev[cur]);
                    } else if parent_of(c) == cur {
                        assert(s[c] == prev[c]);
                        assert(!cmp.prio(prev[c], prev[p]));
                    } else {
                        assert(s[c] == prev[c]);
                        assert(s[parent_of(c)] == prev[parent_of(c)]);
                    }
                }
                if p >= 1 {
                    let pp = parent_of(p);
                    assert(0 <= pp < p);
                    assert(!cmp.prio(prev[p], prev[pp]));
                    assert forall|c: int| 1 <= c < s.len() && parent_of(c) == p implies !cmp.prio(
                        #[trigger] s[c],
                        s[parent_of(p)],
                    ) by {
                        assert(s[pp] == prev[pp]);
                        if c == cur {
                            assert(s[cur] == prev[p]);
                        } else {
                            assert(s[c] == prev[c]);
                            assert(!cmp.prio(prev[c], prev[p]));
                            cmp.lemma_negative_transitive(prev[c], prev[p], prev[pp]);
                        }
                    }
                }
            }
            current = parent;
        }
        proof {
            assert(heap_seq(cmp, self.items@));
        }
    }

    fn bubble_down(&mut self, idx: usize)
        requires
            idx < old(self)@.len(),
            ordered_except_below(old(self).cmp(), old(self)@, idx as int),
            idx >= 1 ==> children_clear_grandparent(old(self).cmp(), old(self)@, idx as int),
        ensures
            final(self).cmp() == old(self).cmp(),
            final(self)@.len() == old(self)@.len(),
            final(self)@.to_multiset() == old(self)@.to_multiset(),
            heap_seq(final(self).cmp(), final(self)@),
    {
        let ghost cmp = self.comparator;
        let mut current = idx;
        while self.children_present(current)
            invariant
                current < self.items@.len(),
                self.items@.len() == old(self)@.len(),
                self.items@.to_multiset() == old(self)@.to_multiset(),
                self.comparator == cmp,
                cmp == old(self).cmp(),
                ordered_except_below(cmp, self.items@, current as int),
                current >= 1 ==> children_clear_grandparent(cmp, self.items@, current as int),
            decreases self.items@.len() - current,
        {
            let child = self.smallest_child_idx(current);
            let ghost cur = current as int;
            let ghost ch = child as int;
            let ghost left = 2 * cur + 1;
            let ghost right = 2 * cur + 2;
            proof {
                assert(parent_of(left) == cur);
                assert(parent_of(right) == cur);
            }
            if self.comparator.prefers(&self.items[current], &self.items[child]) {
                proof {
                    let s = self.items@;
                    cmp.lemma_asymmetric(s[cur], s[ch]);
                    assert forall|c: int| 1 <= c < s.len() implies !cmp.prio(
                        #[trigger] s[c],
                        s[parent_of(c)],
                    ) by {
                        if parent_of(c) == cur {
                            if c != ch {
                                // `c` is the non-preferred child; the preferred
                                // one fails to outrank it, and `cur` outranks
                                // the preferred one.
                                if ch == right {
                                    assert(c == left);
                                    cmp.lemma_asymmetric(s[right], s[left]);
                                    if cmp.prio(s[c], s[cur]) {
                                        cmp.lemma_negative_transitive(s[left], s[right], s[cur]);
                                        assert(!cmp.prio(s[left], s[cur]));
                                    }
                                } else {
                                    assert(c == right);
                                    assert(!cmp.prio(s[right], s[left]));
                                    cmp.lemma_asymmetric(s[cur], s[left]);
                                    if cmp.prio(s[c], s[cur]) {
                                        cmp.lemma_negative_transitive(s[right], s[left], s[cur]);
                                    }
                                }
                            }
                        }
                    }
                }
                return ;
            }
            let ghost prev = self.items@;
            swap_entries(&mut self.items, current, child);
            proof {
                let s = self.items@;
                lemma_swap_preserves_multiset(prev, cur, ch);
                assert(s[cur] == prev[ch]);
                assert(s[ch] == prev[cur]);
                assert forall|c: int| 1 <= c < s.len() && parent_of(c) != ch implies !cmp.prio(
                    #[trigger] s[c],
                    s[parent_of(c)],
                ) by {
                    if c == ch {
                        assert(!cmp.prio(prev[cur], prev[ch]));
                    } else if parent_of(c) == cur {
                        // `c` is the other child of `cur`; the preferred child
                        // fails to be outranked by it.
                        assert(s[c] == prev[c]);
                        if ch == right {
                            assert(c == left);
                            cmp.lemma_asymmetric(prev[right], prev[left]);
                        } else {
                            assert(c == right);
                            assert(!cmp.prio(prev[right], prev[left]));
                        }
                    } else if c == cur {
                        // `cur`'s new value came from its child; the children of
                        // `cur` already cleared `cur`'s parent.
                        assert(cur >= 1);
                        assert(parent_of(ch) == cur);
                        assert(!cmp.prio(prev[ch], prev[parent_of(cur)]));
                        assert(s[parent_of(cur)] == prev[parent_of(cur)]);
                    } else {
                        assert(s[c] == prev[c]);
                        assert(s[parent_of(c)] == prev[parent_of(c)]);
                    }
                }
                assert forall|c: int| 1 <= c < s.len() && parent_of(c) == ch implies !cmp.prio(
                    #[trigger] s[c],
                    s[parent_of(ch)],
                ) by {
                    assert(parent_of(ch) == cur);
                    assert(s[c] == prev[c]);
                    assert(!cmp.prio(prev[c], prev[ch]));
                    assert(s[cur] == prev[ch]);
                }
            }
            current = child;
        }
        proof {
            let s = self.items@;
            assert forall|c: int| 1 <= c < s.len() implies !cmp.prio(
                #[trigger] s[c],
                s[parent_of(c)],
            ) by {
                assert(parent_of(c) != current as int);
            }
        }
    }

    /// Extract the highest-priority element, or signal exhaustion.
    ///
    /// On a non-empty heap this yields the root — which outranks, or ties
    /// with, every element the heap held — and shrinks the heap by exactly
    /// that element. On an empty heap it yields nothing and leaves the heap
    /// unchanged, so repeated calls keep signalling exhaustion.
    pub fn next(&mut self) -> (r: Option<T>)
        requires
            old(self).heap_ordered(),
        ensures
            final(self).heap_ordered(),
            final(self).cmp() == old(self).cmp(),
            (r is None) <==> old(self)@.len() == 0,
            old(self)@.len() == 0 ==> final(self)@ == old(self)@,
            old(self)@.len() > 0 ==> {
                &&& r == Some(old(self)@[0])
                &&& final(self)@.len() == old(self)@.len() - 1
                &&& old(self)@.to_multiset() == final(self)@.to_multiset().insert(old(self)@[0])
                &&& forall|i: int|
                    0 <= i < old(self)@.len() ==> !old(self).cmp().prio(
                        #[trigger] old(self)@[i],
                        old(self)@[0],
                    )
            },
    {
        let n = self.items.len();
        if n == 0 {
            return None;
        }
        let ghost cmp = self.comparator;
        let ghost s0 = self.items@;
        proof {
            lemma_root_outranks_all(cmp, s0);
        }
        swap_entries(&mut self.items, 0, n - 1);
        let ghost swapped = self.items@;
        let result = self.items.pop().unwrap();
        proof {
            lemma_swap_preserves_multiset(s0, 0, n - 1);
            assert(result == s0[0]);
            assert(self.items@ =~= swapped.remove(n - 1));
            assert(self.items@.to_multiset() == swapped.to_multiset().remove(swapped[n - 1]));
            assert(swapped[n - 1] == s0[0]);
            assert(s0.contains(s0[0]));
            assert(s0.to_multiset() =~= self.items@.to_multiset().insert(s0[0]));
        }
        if self.items.len() > 0 {
            proof {
                let t = self.items@;
                assert forall|c: int| 1 <= c < t.len() && parent_of(c) != 0 implies !cmp.prio(
                    #[trigger] t[c],
                    t[parent_of(c)],
                ) by {
                    assert(t[c] == s0[c]);
                    assert(1 <= parent_of(c) < t.len());
                    assert(t[parent_of(c)] == s0[parent_of(c)]);
                }
            }
            self.bubble_down(0);
        }
        Some(result)
    }

    /// Extract every element: the transcript is sorted under the comparator
    /// (no element outranks an earlier one) and holds exactly the elements
    /// the heap held, leaving the heap empty.
    pub fn drain(&mut self) -> (out: Vec<T>)
        requires
            old(self).heap_ordered(),
        ensures
            final(self).heap_ordered(),
            final(self).cmp() == old(self).cmp(),
            final(self)@.len() == 0,
            out@.to_multiset() == old(self)@.to_multiset(),
            extraction_sorted(old(self).cmp(), out@),
    {
        let ghost cmp = self.comparator;
        let ghost total = self.items@.to_multiset();
        let mut out: Vec<T> = Vec::new();
        while self.len() > 0
            invariant
                self.heap_ordered(),
                self.cmp() == cmp,
                cmp == old(self).cmp(),
                out@.to_multiset().add(self@.to_multiset()) == total,
                total == old(self)@.to_multiset(),
                extraction_sorted(cmp, out@),
                forall|i: int, j: int|
                    0 <= i < out@.len() && 0 <= j < self@.len() ==> !cmp.prio(
                        #[trigger] self@[j],
                        #[trigger] out@[i],
                    ),
            decreases self@.len(),
        {
            let ghost before = self@;
            let v = self.next().unwrap();
            proof {
                let after = self@;
                assert(v == before[0]);
                assert(before.to_multiset() == after.to_multiset().insert(before[0]));
                assert forall|j: int| 0 <= j < after.len() implies before.contains(
                    #[trigger] after[j],
                ) by {
                    assert(after.contains(after[j]));
                    assert(after.to_multiset().count(after[j]) > 0);
                    assert(before.to_multiset().count(after[j]) > 0);
                }
                assert(out@.push(v).to_multiset().add(after.to_multiset()) =~= total);
                assert forall|i: int, j: int|
                    0 <= i < out@.push(v).len() && 0 <= j < after.len() implies !cmp.prio(
                    #[trigger] after[j],
                    #[trigger] out@.push(v)[i],
                ) by {
                    let k = choose|k: int| 0 <= k < before.len() && before[k] == after[j];
                    assert(!cmp.prio(before[k], before[0]));
                    if i < out@.len() {
                        assert(out@.push(v)[i] == out@[i]);
                        assert(!cmp.prio(before[k], out@[i]));
                    } else {
                        assert(out@.push(v)[i] == v);
                    }
                }
                assert forall|i: int, j: int|
                    0 <= i < j < out@.push(v).len() implies !cmp.prio(
                    #[trigger] out@.push(v)[j],
                    #[trigger] out@.push(v)[i],
                ) by {
                    if j == out@.len() {
                        assert(out@.push(v)[i] == out@[i]);
                        assert(!cmp.prio(before[0], out@[i]));
                    }
                }
            }
            out.push(v);
        }
        proof {
            assert(out@.to_multiset().add(self@.to_multiset()) =~= out@.to_multiset());
        }
        out
    }
}

impl<T: Ordered> Heap<T, MinCmp> {
    /// An empty heap that extracts its smallest element first.
    pub fn new_min() -> (h: Self)
        ensures
            h@ == Seq::<T>::empty(),
            h.cmp() == MinCmp,
            h.heap_ordered(),
    {
        Heap::new(MinCmp)
    }
}

impl<T: Ordered> Heap<T, MaxCmp> {
    /// An empty heap that extracts its largest element first.
    pub fn new_max() -> (h: Self)
        ensures
            h@ == Seq::<T>::empty(),
            h.cmp() == MaxCmp,
            h.heap_ordered(),
    {
        Heap::new(MaxCmp)
    }
}

/// Convenience constructor type for smallest-first heaps.
pub struct MinHeap;

/// Convenience constructor type for largest-first heaps.
pub struct MaxHeap;

impl MinHeap {
    /// An empty heap that extracts its smallest element first.
    pub fn new<T: Ordered>() -> (h: Heap<T, MinCmp>)
        ensures
            h@ == Seq::<T>::empty(),
            h.cmp() == MinCmp,
            h.heap_ordered(),
    {
        Heap::new(MinCmp)
    }
}

impl MaxHeap {
    /// An empty heap that extracts its largest element first.
    pub fn new<T: Ordered>() -> (h: Heap<T, MaxCmp>)
        ensures
            h@ == Seq::<T>::empty(),
            h.cmp() == MaxCmp,
            h.heap_ordered(),
    {
        Heap::new(MaxCmp)
    }
}

} // verus!
