//! A singly linked list with append, positional lookup and whole-list merge.
//!
//! `merge` and `merge_recursive` combine two lists into one whose contents are
//! pinned exactly by the spec function `merge_seqs`; when both inputs are
//! sorted the result is sorted and holds the elements of both
//! (`lemma_merge_seqs_sorted`, `lemma_merge_seqs_multiset`).

use vstd::multiset::Multiset;
use vstd::prelude::*;

use crate::order::lemma_lt_asymmetric;
use crate::order::lemma_lt_negative_transitive;
use crate::order::Ordered;

verus! {

broadcast use {vstd::seq_lib::group_to_multiset_ensures, vstd::multiset::group_multiset_axioms};

/// One list node: a value and the rest of the list.
pub struct Node<T> {
    pub val: T,
    pub next: Option<Box<Node<T>>>,
}

/// A singly linked list, counting its nodes.
pub struct LinkedList<T> {
    pub length: u32,
    pub start: Option<Box<Node<T>>>,
}

impl<T> Node<T> {
    /// The values held by an optional chain of nodes, front first.
    pub open spec fn optional_seq(node: Option<Box<Node<T>>>) -> Seq<T>
        decreases node,
    {
        match node {
            None => Seq::empty(),
            Some(n) => n.as_seq(),
        }
    }

    /// The values held from this node on, front first.
    pub open spec fn as_seq(self) -> Seq<T>
        decreases self,
    {
        seq![self.val] + Self::optional_seq(self.next)
    }

    /// A node holding `t` with no successor.
    pub fn new(t: T) -> (n: Node<T>)
        ensures
            n.val == t,
            n.next is None,
            n.as_seq() == seq![t],
    {
        let n = Node { val: t, next: None };
        proof {
            assert(n.as_seq() =~= seq![t]);
        }
        n
    }

    fn push_back(node: &mut Option<Box<Node<T>>>, value: T)
        ensures
            Self::optional_seq(*final(node)) == Self::optional_seq(*old(node)).push(value),
        decreases *old(node),
    {
        match node.take() {
            None => {
                *node = Some(Box::new(Node::new(value)));
                proof {
                    assert(Self::optional_seq(*node) =~= Seq::<T>::empty().push(value));
                }
            },
            Some(mut boxed) => {
                Self::push_back(&mut boxed.next, value);
                *node = Some(boxed);
                proof {
                    assert(Self::optional_seq(*node) =~= Self::optional_seq(*old(node)).push(
                        value,
                    ));
                }
            },
        }
    }

    fn get_ith<'a>(node: &'a Option<Box<Node<T>>>, index: i32) -> (r: Option<&'a T>)
        ensures
            (r is Some) <==> (0 <= index && (index as int) < Self::optional_seq(*node).len()),
            r is Some ==> *r.unwrap() == Self::optional_seq(*node)[index as int],
        decreases node,
    {
        match node {
            None => None,
            Some(n) => {
                if index == 0 {
                    Some(&n.val)
                } else if index < 0 {
                    None
                } else {
                    Self::get_ith(&n.next, index - 1)
                }
            },
        }
    }
}

impl<T> LinkedList<T> {
    /// The values held by the list, front first.
    pub open spec fn as_seq(self) -> Seq<T> {
        Node::optional_seq(self.start)
    }

    /// The stored length matches the number of nodes.
    pub open spec fn well_formed(self) -> bool {
        self.length == self.as_seq().len()
    }

    /// An empty list.
    pub fn new() -> (l: Self)
        ensures
            l.as_seq() == Seq::<T>::empty(),
            l.well_formed(),
    {
        LinkedList { length: 0, start: None }
    }

    /// Append `obj` at the back of the list.
    pub fn add(&mut self, obj: T)
        requires
            old(self).well_formed(),
            old(self).as_seq().len() < u32::MAX,
        ensures
            final(self).well_formed(),
            final(self).as_seq() == old(self).as_seq().push(obj),
    {
        Node::push_back(&mut self.start, obj);
        self.length = self.length + 1;
    }

    /// The value at position `index` from the front, if any; a negative or
    /// too-large index yields nothing.
    pub fn get(&self, index: i32) -> (r: Option<&T>)
        ensures
            (r is Some) <==> (0 <= index && (index as int) < self.as_seq().len()),
            r is Some ==> *r.unwrap() == self.as_seq()[index as int],
    {
        Node::get_ith(&self.start, index)
    }
}

impl<T> Default for LinkedList<T> {
    fn default() -> (l: Self)
        ensures
            l.as_seq() == Seq::<T>::empty(),
            l.well_formed(),
    {
        Self::new()
    }
}

/// The two sequences interleaved front to front: whichever head the order
/// ranks no later is taken first, the first sequence winning ties.
pub open spec fn merge_seqs<T: Ordered>(a: Seq<T>, b: Seq<T>) -> Seq<T>
    decreases a.len() + b.len(),
{
    if a.len() == 0 {
        b
    } else if b.len() == 0 {
        a
    } else if !b[0].lt_spec(a[0]) {
        seq![a[0]] + merge_seqs(a.drop_first(), b)
    } else {
        seq![b[0]] + merge_seqs(a, b.drop_first())
    }
}

/// Non-decreasing under the element order: no entry comes strictly before an
/// earlier one.
pub open spec fn sorted_le<T: Ordered>(s: Seq<T>) -> bool {
    forall|i: int, j: int| 0 <= i < j < s.len() ==> !(#[trigger] s[j]).lt_spec(#[trigger] s[i])
}

/// Merging keeps exactly the elements of both inputs.
pub proof fn lemma_merge_seqs_multiset<T: Ordered>(a: Seq<T>, b: Seq<T>)
    ensures
        merge_seqs(a, b).to_multiset() == a.to_multiset().add(b.to_multiset()),
        merge_seqs(a, b).len() == a.len() + b.len(),
    decreases a.len() + b.len(),
{
    if a.len() == 0 {
        assert(a.to_multiset() =~= Multiset::<T>::empty());
        assert(merge_seqs(a, b).to_multiset() =~= a.to_multiset().add(b.to_multiset()));
    } else if b.len() == 0 {
        assert(b.to_multiset() =~= Multiset::<T>::empty());
        assert(merge_seqs(a, b).to_multiset() =~= a.to_multiset().add(b.to_multiset()));
    } else if !b[0].lt_spec(a[0]) {
        lemma_merge_seqs_multiset(a.drop_first(), b);
        vstd::seq_lib::lemma_multiset_commutative(seq![a[0]], merge_seqs(a.drop_first(), b));
        assert(seq![a[0]] =~= Seq::<T>::empty().push(a[0]));
        assert(a.drop_first() =~= a.remove(0));
        assert(a.contains(a[0]));
        assert(merge_seqs(a, b).to_multiset() =~= a.to_multiset().add(b.to_multiset()));
    } else {
        lemma_merge_seqs_multiset(a, b.drop_first());
        vstd::seq_lib::lemma_multiset_commutative(seq![b[0]], merge_seqs(a, b.drop_first()));
        assert(seq![b[0]] =~= Seq::<T>::empty().push(b[0]));
        assert(b.drop_first() =~= b.remove(0));
        assert(b.contains(b[0]));
        assert(merge_seqs(a, b).to_multiset() =~= a.to_multiset().add(b.to_multiset()));
    }
}

/// Merging two sorted sequences yields a sorted sequence.
pub proof fn lemma_merge_seqs_sorted<T: Ordered>(a: Seq<T>, b: Seq<T>)
    requires
        sorted_le(a),
        sorted_le(b),
    ensures
        sorted_le(merge_seqs(a, b)),
    decreases a.len() + b.len(),
{
    if a.len() == 0 || b.len() == 0 {
    } else {
        let m = merge_seqs(a, b);
        if !b[0].lt_spec(a[0]) {
            let rest = merge_seqs(a.drop_first(), b);
            assert(sorted_le(a.drop_first())) by {
                assert forall|i: int, j: int|
                    0 <= i < j < a.drop_first().len() implies !(#[trigger] a.drop_first()[j]).lt_spec(
                    #[trigger] a.drop_first()[i],
                ) by {
                    assert(a.drop_first()[i] == a[i + 1]);
                    assert(a.drop_first()[j] == a[j + 1]);
                }
            }
            lemma_merge_seqs_sorted(a.drop_first(), b);
            lemma_merge_seqs_multiset(a.drop_first(), b);
            assert forall|i: int, j: int|
                0 <= i < j < m.len() implies !(#[trigger] m[j]).lt_spec(#[trigger] m[i]) by {
                if i == 0 {
                    let x = rest[j - 1];
                    assert(m[j] == x);
                    assert(rest.contains(x));
                    assert(rest.to_multiset().count(x) > 0);
                    if a.drop_first().to_multiset().count(x) > 0 {
                        assert(a.drop_first().contains(x));
                        let w = choose|w: int|
                            0 <= w < a.drop_first().len() && a.drop_first()[w] == x;
                        assert(a[w + 1] == x);
                        assert(!x.lt_spec(a[0]));
                    } else {
                        assert(b.to_multiset().count(x) > 0);
                        assert(b.contains(x));
                        let w = choose|w: int| 0 <= w < b.len() && b[w] == x;
                        if w == 0 {
                            assert(!x.lt_spec(a[0]));
                        } else {
                            assert(!x.lt_spec(b[0]));
                            lemma_lt_negative_transitive(x, b[0], a[0]);
                        }
                    }
                } else {
                    assert(m[i] == rest[i - 1]);
                    assert(m[j] == rest[j - 1]);
                }
            }
        } else {
            let rest = merge_seqs(a, b.drop_first());
            assert(sorted_le(b.drop_first())) by {
                assert forall|i: int, j: int|
                    0 <= i < j < b.drop_first().len() implies !(#[trigger] b.drop_first()[j]).lt_spec(
                    #[trigger] b.drop_first()[i],
                ) by {
                    assert(b.drop_first()[i] == b[i + 1]);
                    assert(b.drop_first()[j] == b[j + 1]);
                }
            }
            lemma_merge_seqs_sorted(a, b.drop_first());
            lemma_merge_seqs_multiset(a, b.drop_first());
            lemma_lt_asymmetric(b[0], a[0]);
            assert forall|i: int, j: int|
                0 <= i < j < m.len() implies !(#[trigger] m[j]).lt_spec(#[trigger] m[i]) by {
                if i == 0 {
                    let x = rest[j - 1];
                    assert(m[j] == x);
                    assert(rest.contains(x));
                    assert(rest.to_multiset().count(x) > 0);
                    if a.to_multiset().count(x) > 0 {
                        assert(a.contains(x));
                        let w = choose|w: int| 0 <= w < a.len() && a[w] == x;
                        if w == 0 {
                            assert(!x.lt_spec(b[0]));
                        } else {
                            assert(!x.lt_spec(a[0]));
                            lemma_lt_negative_transitive(x, a[0], b[0]);
                        }
                    } else {
                        assert(b.drop_first().to_multiset().count(x) > 0);
                        assert(b.drop_first().contains(x));
                        let w = choose|w: int|
                            0 <= w < b.drop_first().len() && b.drop_first()[w] == x;
                        assert(b[w + 1] == x);
                        assert(!x.lt_spec(b[0]));
                    }
                } else {
                    assert(m[i] == rest[i - 1]);
                    assert(m[j] == rest[j - 1]);
                }
            }
        }
    }
}

impl<T: Ordered + Copy> LinkedList<T> {
    /// Merge two lists front to front, the order deciding which head goes
    /// first (the first list winning ties): two sorted lists merge into one
    /// sorted list holding the elements of both.
    pub fn merge(list_a: LinkedList<T>, list_b: LinkedList<T>) -> (r: Self)
        requires
            list_a.well_formed(),
            list_b.well_formed(),
            list_a.as_seq().len() + list_b.as_seq().len() <= u32::MAX,
        ensures
            r.well_formed(),
            r.as_seq() == merge_seqs(list_a.as_seq(), list_b.as_seq()),
    {
        let ghost a0 = list_a.as_seq();
        let ghost b0 = list_b.as_seq();
        proof {
            lemma_merge_seqs_multiset(a0, b0);
        }
        let mut a_cur = list_a.start;
        let mut b_cur = list_b.start;
        let mut result = LinkedList::new();
        while a_cur.is_some() && b_cur.is_some()
            invariant
                result.well_formed(),
                result.as_seq().len() + Node::optional_seq(a_cur).len() + Node::optional_seq(
                    b_cur,
                ).len() == a0.len() + b0.len(),
                a0.len() + b0.len() <= u32::MAX,
                result.as_seq() + merge_seqs(Node::optional_seq(a_cur), Node::optional_seq(b_cur))
                    == merge_seqs(a0, b0),
            decreases Node::optional_seq(a_cur).len() + Node::optional_seq(b_cur).len(),
        {
            let ghost ra = Node::optional_seq(a_cur);
            let ghost rb = Node::optional_seq(b_cur);
            proof {
                lemma_merge_seqs_multiset(ra, rb);
            }
            let a_node = a_cur.take().unwrap();
            let b_node = b_cur.take().unwrap();
            if !b_node.val.less_than(&a_node.val) {
                proof {
                    assert(Node::optional_seq(a_node.next) =~= ra.drop_first());
                }
                result.add(a_node.val);
                a_cur = a_node.next;
                b_cur = Some(b_node);
                proof {
                    assert(merge_seqs(ra, rb) == seq![ra[0]] + merge_seqs(ra.drop_first(), rb));
                    assert(result.as_seq() + merge_seqs(
                        Node::optional_seq(a_cur),
                        Node::optional_seq(b_cur),
                    ) =~= merge_seqs(a0, b0));
                }
            } else {
                proof {
                    assert(Node::optional_seq(b_node.next) =~= rb.drop_first());
                }
                result.add(b_node.val);
                b_cur = b_node.next;
                a_cur = Some(a_node);
                proof {
                    assert(merge_seqs(ra, rb) == seq![rb[0]] + merge_seqs(ra, rb.drop_first()));
                    assert(result.as_seq() + merge_seqs(
                        Node::optional_seq(a_cur),
                        Node::optional_seq(b_cur),
                    ) =~= merge_seqs(a0, b0));
                }
            }
        }
        while a_cur.is_some()
            invariant
                result.well_formed(),
                result.as_seq().len() + Node::optional_seq(a_cur).len() + Node::optional_seq(
                    b_cur,
                ).len() <= a0.len() + b0.len(),
                a0.len() + b0.len() <= u32::MAX,
                Node::optional_seq(a_cur).len() == 0 || Node::optional_seq(b_cur).len() == 0,
                result.as_seq() + merge_seqs(Node::optional_seq(a_cur), Node::optional_seq(b_cur))
                    == merge_seqs(a0, b0),
            decreases Node::optional_seq(a_cur).len(),
        {
            let ghost ra = Node::optional_seq(a_cur);
            let ghost rb = Node::optional_seq(b_cur);
            let a_node = a_cur.take().unwrap();
            proof {
                assert(ra.len() >= 1);
                assert(rb.len() == 0);
                assert(Node::optional_seq(a_node.next) =~= ra.drop_first());
                assert(merge_seqs(ra, rb) == ra);
                assert(merge_seqs(ra.drop_first(), rb) == ra.drop_first());
            }
            result.add(a_node.val);
            a_cur = a_node.next;
            proof {
                assert(result.as_seq() + merge_seqs(
                    Node::optional_seq(a_cur),
                    Node::optional_seq(b_cur),
                ) =~= merge_seqs(a0, b0));
            }
        }
        while b_cur.is_some()
            invariant
                result.well_formed(),
                result.as_seq().len() + Node::optional_seq(b_cur).len() <= a0.len() + b0.len(),
                a0.len() + b0.len() <= u32::MAX,
                Node::optional_seq(a_cur).len() == 0,
                result.as_seq() + merge_seqs(Node::optional_seq(a_cur), Node::optional_seq(b_cur))
                    == merge_seqs(a0, b0),
            decreases Node::optional_seq(b_cur).len(),
        {
            let ghost ra = Node::optional_seq(a_cur);
            let ghost rb = Node::optional_seq(b_cur);
            let b_node = b_cur.take().unwrap();
            proof {
                assert(Node::optional_seq(b_node.next) =~= rb.drop_first());
                assert(merge_seqs(ra, rb) == rb);
                assert(merge_seqs(ra, rb.drop_first()) == rb.drop_first());
            }
            result.add(b_node.val);
            b_cur = b_node.next;
            proof {
                assert(result.as_seq() + merge_seqs(
                    Node::optional_seq(a_cur),
                    Node::optional_seq(b_cur),
                ) =~= merge_seqs(a0, b0));
            }
        }
        proof {
            assert(result.as_seq() =~= merge_seqs(a0, b0));
        }
        result
    }

    /// As `merge`, by structural recursion over the two lists.
    pub fn merge_recursive(list_a: LinkedList<T>, list_b: LinkedList<T>) -> (r: Self)
        requires
            list_a.well_formed(),
            list_b.well_formed(),
            list_a.as_seq().len() + list_b.as_seq().len() <= u32::MAX,
        ensures
            r.well_formed(),
            r.as_seq() == merge_seqs(list_a.as_seq(), list_b.as_seq()),
    {
        let mut result = LinkedList::new();
        merge_nodes(&mut result, list_a.start, list_b.start);
        result
    }
}

fn merge_nodes<T: Ordered + Copy>(
    result: &mut LinkedList<T>,
    node_a: Option<Box<Node<T>>>,
    node_b: Option<Box<Node<T>>>,
)
    requires
        old(result).well_formed(),
        old(result).as_seq().len() + Node::optional_seq(node_a).len() + Node::optional_seq(
            node_b,
        ).len() <= u32::MAX,
    ensures
        final(result).well_formed(),
        final(result).as_seq() == old(result).as_seq() + merge_seqs(
            Node::optional_seq(node_a),
            Node::optional_seq(node_b),
        ),
    decreases Node::optional_seq(node_a).len() + Node::optional_seq(node_b).len(),
{
    let ghost ra = Node::optional_seq(node_a);
    let ghost rb = Node::optional_seq(node_b);
    proof {
        lemma_merge_seqs_multiset(ra, rb);
    }
    match (node_a, node_b) {
        (None, None) => {
            proof {
                assert(result.as_seq() =~= old(result).as_seq() + merge_seqs(ra, rb));
            }
        },
        (None, Some(b_node)) => {
            proof {
                assert(Node::optional_seq(b_node.next) =~= rb.drop_first());
                assert(merge_seqs(ra, rb) == rb);
            }
            result.add(b_node.val);
            merge_nodes(result, None, b_node.next);
            proof {
                assert(merge_seqs(Seq::<T>::empty(), rb.drop_first()) == rb.drop_first());
                assert(result.as_seq() =~= old(result).as_seq() + merge_seqs(ra, rb));
            }
        },
        (Some(a_node), None) => {
            proof {
                assert(Node::optional_seq(a_node.next) =~= ra.drop_first());
                assert(merge_seqs(ra, rb) == ra);
            }
            result.add(a_node.val);
            merge_nodes(result, a_node.next, None);
            proof {
                assert(merge_seqs(ra.drop_first(), Seq::<T>::empty()) == ra.drop_first());
                assert(result.as_seq() =~= old(result).as_seq() + merge_seqs(ra, rb));
            }
        },
        (Some(a_node), Some(b_node)) => {
            if !b_node.val.less_than(&a_node.val) {
                proof {
                    assert(Node::optional_seq(a_node.next) =~= ra.drop_first());
                    assert(merge_seqs(ra, rb) == seq![ra[0]] + merge_seqs(ra.drop_first(), rb));
                }
                result.add(a_node.val);
                merge_nodes(result, a_node.next, Some(b_node));
                proof {
                    assert(result.as_seq() =~= old(result).as_seq() + merge_seqs(ra, rb));
                }
            } else {
                proof {
                    assert(Node::optional_seq(b_node.next) =~= rb.drop_first());
                    assert(merge_seqs(ra, rb) == seq![rb[0]] + merge_seqs(ra, rb.drop_first()));
                }
                result.add(b_node.val);
                merge_nodes(result, Some(a_node), b_node.next);
                proof {
                    assert(result.as_seq() =~= old(result).as_seq() + merge_seqs(ra, rb));
                }
            }
        },
    }
}

} // verus!
