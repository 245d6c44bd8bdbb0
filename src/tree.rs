//! The tree: a root slot, and the operations on it.
use crate::node::{
    collect_in_order, count_nodes, height_of, measure_height, ordered, size_of, values_of,
    with_inserted, TreeNode,
};
use vstd::prelude::*;
use vstd::std_specs::cmp::PartialOrdSpec;

verus! {

/// An unbalanced binary search tree. Its shape follows from the order in
/// which values were inserted; equal values go right.
pub struct BinaryTree<T> {
    root: Option<Box<TreeNode<T>>>,
}

impl<T> BinaryTree<T> {
    /// The nodes of the tree, as the subtree that hangs from the root slot.
    pub closed spec fn shape(self) -> Option<Box<TreeNode<T>>> {
        self.root
    }

    /// The number of nodes reachable from the root.
    pub open spec fn node_count(self) -> nat {
        size_of(self.shape())
    }

    /// The number of nodes on the longest path from the root.
    pub open spec fn depth(self) -> nat {
        height_of(self.shape())
    }
}

impl<T> View for BinaryTree<T> {
    type V = Seq<T>;

    /// The values in order.
    open spec fn view(&self) -> Seq<T> {
        values_of(self.shape())
    }
}

impl<T: PartialOrd> BinaryTree<T> {
    /// Creates an empty tree: it has no root.
    pub fn new() -> (r: Self)
        ensures
            r.shape() is None,
            ordered(r.shape()),
            r@ == Seq::<T>::empty(),
            r.node_count() == 0,
    {
        BinaryTree { root: None }
    }

    /// Whether the tree has no root.
    pub fn is_empty(&self) -> (r: bool)
        ensures
            r == (self.shape() is None),
            r == (self@.len() == 0),
    {
        self.root.is_none()
    }

    /// The tree's values by reference, in order: left subtree, node, right subtree.
    /// Calling it again on the same tree gives the same sequence.
    pub fn in_order_values(&self) -> (r: Vec<&T>)
        ensures
            r@.map_values(|v: &T| *v) == self@,
    {
        let mut out: Vec<&T> = Vec::new();
        collect_in_order(&self.root, &mut out);
        assert(out@.map_values(|v: &T| *v) =~= self@);
        out
    }

    /// Calls `callback` once on each value, in the order of `in_order_values`.
    /// An empty tree makes no call.
    pub fn in_order_traversal<F: Fn(&T)>(&self, callback: &F)
        requires
            forall|v: &T| callback.requires((v,)),
        ensures
            forall|i: int| 0 <= i < self@.len() ==> callback.ensures((&self@[i],), ()),
    {
        let values = self.in_order_values();
        let n = values.len();
        let mut i: usize = 0;
        while i < n
            invariant
                n == values@.len(),
                values@.map_values(|v: &T| *v) == self@,
                forall|v: &T| callback.requires((v,)),
                0 <= i <= n,
                forall|k: int| 0 <= k < i ==> callback.ensures((&self@[k],), ()),
            decreases n - i,
        {
            let v = values[i];
            callback(v);
            assert(self@[i as int] == *values@[i as int]);
            i = i + 1;
        }
    }

    /// The number of nodes in the tree.
    pub fn len(&self) -> (r: usize)
        requires
            self.node_count() <= usize::MAX,
        ensures
            r == self.node_count(),
    {
        count_nodes(&self.root)
    }

    /// The number of nodes on the longest path from the root; zero when empty.
    pub fn height(&self) -> (r: usize)
        requires
            self.node_count() <= usize::MAX,
        ensures
            r == self.depth(),
    {
        measure_height(&self.root)
    }

    /// Inserts `value`: it becomes the root of an empty tree, or is attached
    /// below the node where the search for it ends. Nothing is rebalanced.
    pub fn insert(&mut self, value: T)
        requires
            T::obeys_partial_cmp_spec(),
        ensures
            final(self).shape() == with_inserted(old(self).shape(), value),
            final(self)@.to_multiset() == old(self)@.to_multiset().insert(value),
            final(self).node_count() == old(self).node_count() + 1,
            ordered(old(self).shape()) ==> ordered(final(self).shape()),
    {
        proof {
            crate::node::lemma_inserted_contents(self.root, value);
            if ordered(self.root) {
                crate::node::lemma_inserted_ordered(self.root, value);
            }
        }
        let new_node = TreeNode::new(value);
        match self.root.take() {
            None => {
                self.root = Some(new_node);
            },
            Some(mut node) => {
                Self::insert_node(&mut node, new_node);
                self.root = Some(node);
            },
        }
    }

    /// Attaches `new_node` below `node`: left where its value is less than
    /// the node's, right otherwise, descending until that slot is empty.
    pub fn insert_node(node: &mut Box<TreeNode<T>>, new_node: Box<TreeNode<T>>)
        requires
            T::obeys_partial_cmp_spec(),
            *new_node == TreeNode::leaf(new_node.value),
        ensures
            Some(*final(node)) == with_inserted(Some(*old(node)), new_node.value),
        decreases *old(node),
    {
        let ghost before = **node;
        if new_node.value < node.value {
            match node.left.take() {
                None => {
                    node.left = Some(new_node);
                },
                Some(mut child) => {
                    Self::insert_node(&mut child, new_node);
                    node.left = Some(child);
                },
            }
            assert(**node == TreeNode {
                value: before.value,
                left: with_inserted(before.left, new_node.value),
                right: before.right,
            });
        } else {
            match node.right.take() {
                None => {
                    node.right = Some(new_node);
                },
                Some(mut child) => {
                    Self::insert_node(&mut child, new_node);
                    node.right = Some(child);
                },
            }
            assert(**node == TreeNode {
                value: before.value,
                left: before.left,
                right: with_inserted(before.right, new_node.value),
            });
        }
    }
}

} // verus!
