//! Tree nodes, and the spec functions that describe a subtree.
use crate::order::{less, lawful_order, lemma_less_laws, non_decreasing};
use vstd::prelude::*;

verus! {

/// One node: a value and the subtrees that hang to its left and right.
/// Each node is owned by exactly one slot: the tree's root or a parent's child.
pub struct TreeNode<T> {
    pub value: T,
    pub left: Option<Box<TreeNode<T>>>,
    pub right: Option<Box<TreeNode<T>>>,
}

/// The values of a subtree, left subtree first, then the node, then the right subtree.
pub open spec fn values_of<T>(link: Option<Box<TreeNode<T>>>) -> Seq<T>
    decreases link,
{
    match link {
        None => Seq::empty(),
        Some(n) => values_of(n.left) + seq![n.value] + values_of(n.right),
    }
}

/// The number of nodes in a subtree.
pub open spec fn size_of<T>(link: Option<Box<TreeNode<T>>>) -> nat
    decreases link,
{
    match link {
        None => 0,
        Some(n) => size_of(n.left) + 1 + size_of(n.right),
    }
}

/// The number of nodes on the longest path down from the subtree's root.
pub open spec fn height_of<T>(link: Option<Box<TreeNode<T>>>) -> nat
    decreases link,
{
    match link {
        None => 0,
        Some(n) => {
            let l = height_of(n.left);
            let r = height_of(n.right);
            1 + if l >= r { l } else { r }
        },
    }
}

/// The search-tree order: below each node, every value on the left is less
/// than the node's value, and no value on the right is.
pub open spec fn ordered<T: PartialOrd>(link: Option<Box<TreeNode<T>>>) -> bool
    decreases link,
{
    match link {
        None => true,
        Some(n) => {
            &&& forall|x: T| values_of(n.left).contains(x) ==> less(x, n.value)
            &&& forall|x: T| values_of(n.right).contains(x) ==> !less(x, n.value)
            &&& ordered(n.left)
            &&& ordered(n.right)
        },
    }
}

/// Every node lacks a left child: the subtree is a chain that leans right.
pub open spec fn right_chain<T>(link: Option<Box<TreeNode<T>>>) -> bool
    decreases link,
{
    match link {
        None => true,
        Some(n) => n.left is None && right_chain(n.right),
    }
}

/// The subtree after a node holding `value` has been attached: below each node,
/// a value less than the node's goes left, any other goes right, and the new
/// node takes the first empty slot on that path.
pub open spec fn with_inserted<T: PartialOrd>(link: Option<Box<TreeNode<T>>>, value: T) -> Option<
    Box<TreeNode<T>>,
>
    decreases link,
{
    match link {
        None => Some(Box::new(TreeNode::leaf(value))),
        Some(n) => if less(value, n.value) {
            Some(
                Box::new(
                    TreeNode { value: n.value, left: with_inserted(n.left, value), right: n.right },
                ),
            )
        } else {
            Some(
                Box::new(
                    TreeNode { value: n.value, left: n.left, right: with_inserted(n.right, value) },
                ),
            )
        },
    }
}

impl<T> TreeNode<T> {
    /// A node without children.
    pub open spec fn leaf(value: T) -> TreeNode<T> {
        TreeNode { value, left: None, right: None }
    }

    /// Creates a node that holds `value` and has no children.
    pub fn new(value: T) -> (r: Box<TreeNode<T>>)
        ensures
            *r == TreeNode::leaf(value),
    {
        Box::new(TreeNode { value, left: None, right: None })
    }
}

/// A subtree has as many values as nodes.
pub proof fn lemma_size_is_len<T>(link: Option<Box<TreeNode<T>>>)
    ensures
        size_of(link) == values_of(link).len(),
    decreases link,
{
    if let Some(n) = link {
        lemma_size_is_len(n.left);
        lemma_size_is_len(n.right);
    }
}

/// A subtree is no taller than it has nodes.
pub proof fn lemma_height_within_size<T>(link: Option<Box<TreeNode<T>>>)
    ensures
        height_of(link) <= size_of(link),
    decreases link,
{
    if let Some(n) = link {
        lemma_height_within_size(n.left);
        lemma_height_within_size(n.right);
    }
}

/// Attaching a value adds exactly that value, and one node.
pub proof fn lemma_inserted_contents<T: PartialOrd>(link: Option<Box<TreeNode<T>>>, value: T)
    ensures
        values_of(with_inserted(link, value)).to_multiset() =~= values_of(link).to_multiset().insert(
            value,
        ),
        size_of(with_inserted(link, value)) == size_of(link) + 1,
    decreases link,
{
    broadcast use vstd::seq_lib::lemma_multiset_commutative, vstd::multiset::group_multiset_axioms;

    match link {
        None => {
            assert(values_of(with_inserted(link, value)) =~= seq![value]);
            assert(seq![value] =~= Seq::<T>::empty().push(value));
            vstd::seq_lib::to_multiset_build(Seq::<T>::empty(), value);
        },
        Some(n) => {
            lemma_inserted_contents(n.left, value);
            lemma_inserted_contents(n.right, value);
        },
    }
}

/// Attaching a value keeps the search-tree order.
pub proof fn lemma_inserted_ordered<T: PartialOrd>(link: Option<Box<TreeNode<T>>>, value: T)
    requires
        ordered(link),
    ensures
        ordered(with_inserted(link, value)),
    decreases link,
{
    broadcast use vstd::seq_lib::to_multiset_contains, vstd::multiset::group_multiset_axioms;

    if let Some(n) = link {
        if less(value, n.value) {
            let grown = values_of(with_inserted(n.left, value));
            lemma_inserted_contents(n.left, value);
            lemma_inserted_ordered(n.left, value);
            assert forall|x: T| grown.contains(x) implies less(x, n.value) by {
                assert(grown.to_multiset().count(x) > 0);
                if x != value {
                    assert(values_of(n.left).to_multiset().count(x) > 0);
                }
            }
        } else {
            let grown = values_of(with_inserted(n.right, value));
            lemma_inserted_contents(n.right, value);
            lemma_inserted_ordered(n.right, value);
            assert forall|x: T| grown.contains(x) implies !less(x, n.value) by {
                assert(grown.to_multiset().count(x) > 0);
                if x != value {
                    assert(values_of(n.right).to_multiset().count(x) > 0);
                }
            }
        }
    }
}

/// Under a lawful order, the values of a search tree come out non-decreasing.
pub proof fn lemma_ordered_sorted<T: PartialOrd>(link: Option<Box<TreeNode<T>>>)
    requires
        lawful_order::<T>(),
        ordered(link),
    ensures
        non_decreasing(values_of(link)),
    decreases link,
{
    if let Some(n) = link {
        lemma_ordered_sorted(n.left);
        lemma_ordered_sorted(n.right);
        lemma_less_laws::<T>();
        let l = values_of(n.left);
        let r = values_of(n.right);
        let s = values_of(link);
        assert(s =~= l + seq![n.value] + r);
        assert forall|i: int, j: int| 0 <= i < j < s.len() implies !less(
            #[trigger] s[j],
            #[trigger] s[i],
        ) by {
            let a = l.len() as int;
            if j < a {
                assert(s[i] == l[i] && s[j] == l[j]);
            } else if i > a {
                assert(s[i] == r[i - a - 1] && s[j] == r[j - a - 1]);
            } else if i == a {
                assert(s[j] == r[j - a - 1]);
                assert(r.contains(s[j]));
            } else if j == a {
                assert(s[i] == l[i]);
                assert(l.contains(s[i]));
            } else {
                assert(s[i] == l[i]);
                assert(s[j] == r[j - a - 1]);
                assert(l.contains(s[i]));
                assert(r.contains(s[j]));
                assert(less(s[i], n.value));
                assert(!less(s[j], n.value));
                if less(s[j], s[i]) {
                    assert(less(s[j], n.value));
                }
            }
        }
    }
}

/// Appends the values of a subtree, in order, to `out`.
pub fn collect_in_order<'a, T>(link: &'a Option<Box<TreeNode<T>>>, out: &mut Vec<&'a T>)
    ensures
        final(out)@.map_values(|r: &T| *r) =~= old(out)@.map_values(|r: &T| *r) + values_of(*link),
    decreases *link,
{
    if let Some(n) = link {
        let ghost start = out@.map_values(|r: &T| *r);
        collect_in_order(&n.left, out);
        let ghost mid = out@;
        out.push(&n.value);
        assert(out@.map_values(|r: &T| *r) =~= mid.map_values(|r: &T| *r).push(n.value));
        collect_in_order(&n.right, out);
        assert(values_of(*link) =~= values_of(n.left) + seq![n.value] + values_of(n.right));
        assert(out@.map_values(|r: &T| *r) =~= start + values_of(*link));
    }
}

/// Counts the nodes of a subtree.
pub fn count_nodes<T>(link: &Option<Box<TreeNode<T>>>) -> (r: usize)
    requires
        size_of(*link) <= usize::MAX,
    ensures
        r == size_of(*link),
    decreases *link,
{
    match link {
        None => 0,
        Some(n) => count_nodes(&n.left) + 1 + count_nodes(&n.right),
    }
}

/// Measures the height of a subtree.
pub fn measure_height<T>(link: &Option<Box<TreeNode<T>>>) -> (r: usize)
    requires
        size_of(*link) <= usize::MAX,
    ensures
        r == height_of(*link),
    decreases *link,
{
    match link {
        None => 0,
        Some(n) => {
            proof {
                lemma_height_within_size(n.left);
                lemma_height_within_size(n.right);
            }
            let l = measure_height(&n.left);
            let r = measure_height(&n.right);
            1 + if l >= r { l } else { r }
        },
    }
}

} // verus!
