//! A binary search tree holding a set of ordered values.
//!
//! The tree supports insertion and membership search only. Inserting a value
//! that is already present leaves the tree untouched, so the tree always holds
//! a set: every node's left subtree holds strictly smaller values and its
//! right subtree strictly larger ones.

use vstd::prelude::*;

use crate::order::lemma_lt_asymmetric;
use crate::order::Ordered;

verus! {

/// One node of the tree: a value and its two optional subtrees.
pub struct TreeNode<T: Ordered> {
    pub value: T,
    pub left: Option<Box<TreeNode<T>>>,
    pub right: Option<Box<TreeNode<T>>>,
}

/// A binary search tree: an optional root node.
pub struct BinarySearchTree<T: Ordered> {
    pub root: Option<Box<TreeNode<T>>>,
}

impl<T: Ordered> TreeNode<T> {
    /// The set of values held by an optional subtree.
    pub open spec fn optional_set(node: Option<Box<TreeNode<T>>>) -> Set<T>
        decreases node,
    {
        match node {
            None => Set::empty(),
            Some(n) => n.as_set(),
        }
    }

    /// The set of values held by this subtree.
    pub open spec fn as_set(self) -> Set<T>
        decreases self,
    {
        Self::optional_set(self.left).insert(self.value).union(Self::optional_set(self.right))
    }

    /// The search-tree ordering: smaller values left, larger values right,
    /// recursively.
    pub open spec fn well_formed(self) -> bool
        decreases self,
    {
        &&& forall|x: T|
            #[trigger] Self::optional_set(self.left).contains(x) ==> x.lt_spec(self.value)
        &&& forall|x: T|
            #[trigger] Self::optional_set(self.right).contains(x) ==> self.value.lt_spec(x)
        &&& match self.left {
            Some(n) => n.well_formed(),
            None => true,
        }
        &&& match self.right {
            Some(n) => n.well_formed(),
            None => true,
        }
    }

    /// The exact shape binary-search insertion gives: `post` is `pre` with
    /// `value` grafted as a new leaf at the unique search position, or `pre`
    /// itself when it already holds `value`.
    pub open spec fn insert_shape(
        pre: Option<Box<TreeNode<T>>>,
        value: T,
        post: Option<Box<TreeNode<T>>>,
    ) -> bool
        decreases pre,
    {
        match (pre, post) {
            (None, Some(n)) => n.value == value && n.left is None && n.right is None,
            (Some(p), Some(n)) => Self::insert_shape_node(*p, value, *n),
            _ => false,
        }
    }

    /// `insert_shape` between two present nodes: the root value stays, and the
    /// insertion descends left or right as the order directs.
    pub open spec fn insert_shape_node(pre: TreeNode<T>, value: T, post: TreeNode<T>) -> bool
        decreases pre,
    {
        if value == pre.value {
            post == pre
        } else if value.lt_spec(pre.value) {
            post.value == pre.value && post.right == pre.right && Self::insert_shape(
                pre.left,
                value,
                post.left,
            )
        } else {
            post.value == pre.value && post.left == pre.left && Self::insert_shape(
                pre.right,
                value,
                post.right,
            )
        }
    }

    /// A leaf node holding `value` alone.
    pub fn new(value: T) -> (n: Self)
        ensures
            n.as_set() == Set::<T>::empty().insert(value),
            n.well_formed(),
            n.value == value,
            n.left is None,
            n.right is None,
    {
        let n = TreeNode { value, left: None, right: None };
        proof {
            assert(n.as_set() =~= Set::<T>::empty().insert(value));
        }
        n
    }

    fn insert_into_optional(node: &mut Option<Box<TreeNode<T>>>, value: T)
        requires
            old(node).is_some() ==> old(node).unwrap().well_formed(),
        ensures
            final(node).is_some() ==> final(node).unwrap().well_formed(),
            Self::optional_set(*final(node)) == Self::optional_set(*old(node)).insert(value),
            Self::optional_set(*old(node)).contains(value) ==> *final(node) == *old(node),
            Self::insert_shape(*old(node), value, *final(node)),
        decreases *old(node),
    {
        match node.take() {
            None => {
                *node = Some(Box::new(TreeNode::new(value)));
                proof {
                    assert(Self::optional_set(*node) =~= Self::optional_set(None).insert(value));
                }
            },
            Some(mut boxed) => {
                let ghost pre = *boxed;
                (&mut *boxed).insert(value);
                *node = Some(boxed);
                proof {
                    assert(Self::insert_shape_node(pre, value, *boxed));
                }
            },
        }
    }

    /// Insert `value` into this subtree as a new leaf at its unique search
    /// position, keeping the search-tree ordering; a value already present
    /// leaves the subtree untouched.
    pub fn insert(&mut self, value: T)
        requires
            old(self).well_formed(),
        ensures
            final(self).well_formed(),
            final(self).as_set() == old(self).as_set().insert(value),
            old(self).as_set().contains(value) ==> *final(self) == *old(self),
            Self::insert_shape_node(*old(self), value, *final(self)),
        decreases *old(self),
    {
        proof {
            if value != self.value {
                T::lemma_connected(value, self.value);
            } else {
                T::lemma_irreflexive(value);
            }
        }
        if value.less_than(&self.value) {
            proof {
                lemma_lt_asymmetric(value, self.value);
                if Self::optional_set(self.right).contains(value) {
                    assert(false);
                }
            }
            let ghost pre = *self;
            Self::insert_into_optional(&mut self.left, value);
            proof {
                assert(self.as_set() =~= pre.as_set().insert(value));
                if pre.as_set().contains(value) {
                    assert(Self::optional_set(pre.left).contains(value));
                }
            }
        } else if self.value.less_than(&value) {
            proof {
                lemma_lt_asymmetric(self.value, value);
                if Self::optional_set(self.left).contains(value) {
                    assert(false);
                }
            }
            let ghost pre = *self;
            Self::insert_into_optional(&mut self.right, value);
            proof {
                assert(self.as_set() =~= pre.as_set().insert(value));
                if pre.as_set().contains(value) {
                    assert(Self::optional_set(pre.right).contains(value));
                }
            }
        } else {
            proof {
                assert(value == self.value);
                assert(self.as_set().contains(value));
                assert(self.as_set() =~= self.as_set().insert(value));
            }
        }
    }

    fn search_optional(node: &Option<Box<TreeNode<T>>>, value: &T) -> (found: bool)
        requires
            node.is_some() ==> node.unwrap().well_formed(),
        ensures
            found == Self::optional_set(*node).contains(*value),
        decreases node,
    {
        match node {
            None => false,
            Some(n) => n.search(value),
        }
    }

    /// Does this subtree hold `value`?
    pub fn search(&self, value: &T) -> (found: bool)
        requires
            self.well_formed(),
        ensures
            found == self.as_set().contains(*value),
        decreases *self,
    {
        proof {
            if *value != self.value {
                T::lemma_connected(*value, self.value);
            } else {
                T::lemma_irreflexive(*value);
            }
        }
        if value.less_than(&self.value) {
            proof {
                lemma_lt_asymmetric(*value, self.value);
                if Self::optional_set(self.right).contains(*value) {
                    assert(false);
                }
            }
            Self::search_optional(&self.left, value)
        } else if self.value.less_than(value) {
            proof {
                lemma_lt_asymmetric(self.value, *value);
                if Self::optional_set(self.left).contains(*value) {
                    assert(false);
                }
            }
            Self::search_optional(&self.right, value)
        } else {
            proof {
                assert(*value == self.value);
            }
            true
        }
    }
}

impl<T: Ordered> BinarySearchTree<T> {
    /// The set of values held by the tree.
    pub open spec fn as_set(self) -> Set<T> {
        TreeNode::optional_set(self.root)
    }

    /// The search-tree ordering holds throughout.
    pub open spec fn well_formed(self) -> bool {
        match self.root {
            Some(n) => n.well_formed(),
            None => true,
        }
    }

    /// An empty tree.
    pub fn new() -> (t: Self)
        ensures
            t.root is None,
            t.as_set() == Set::<T>::empty(),
            t.well_formed(),
    {
        BinarySearchTree { root: None }
    }

    /// Insert `value` as a new leaf at its unique search position; inserting a
    /// value already present leaves the tree untouched.
    pub fn insert(&mut self, value: T)
        requires
            old(self).well_formed(),
        ensures
            final(self).well_formed(),
            final(self).as_set() == old(self).as_set().insert(value),
            old(self).as_set().contains(value) ==> *final(self) == *old(self),
            TreeNode::insert_shape(old(self).root, value, final(self).root),
    {
        TreeNode::insert_into_optional(&mut self.root, value);
    }

    /// Does the tree hold `value`?
    pub fn search(&self, value: T) -> (found: bool)
        requires
            self.well_formed(),
        ensures
            found == self.as_set().contains(value),
    {
        TreeNode::search_optional(&self.root, &value)
    }
}

} // verus!
