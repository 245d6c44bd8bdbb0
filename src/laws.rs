//! What holds of every tree that a sequence of insertions builds.
use crate::node::{
    height_of, lemma_inserted_contents, lemma_inserted_ordered, lemma_ordered_sorted,
    lemma_size_is_len, ordered, right_chain, size_of, values_of, with_inserted, TreeNode,
};
use crate::tree::BinaryTree;
use crate::order::{less, lawful_order, non_decreasing};
use vstd::prelude::*;

verus! {

/// The tree that inserting `values` one by one, first to last, into an empty
/// tree builds.
pub open spec fn built_from<T: PartialOrd>(values: Seq<T>) -> Option<Box<TreeNode<T>>>
    decreases values.len(),
{
    if values.len() == 0 {
        None
    } else {
        with_inserted(built_from(values.drop_last()), values.last())
    }
}

/// Inserting any sequence of values gives a search tree whose in-order
/// values are exactly the inserted ones, non-decreasing.
pub proof fn lemma_inserts_sorted<T: PartialOrd>(values: Seq<T>)
    requires
        lawful_order::<T>(),
    ensures
        ordered(built_from(values)),
        values_of(built_from(values)).to_multiset() == values.to_multiset(),
        non_decreasing(values_of(built_from(values))),
    decreases values.len(),
{
    if values.len() > 0 {
        let rest = values.drop_last();
        lemma_inserts_sorted(rest);
        lemma_inserted_ordered(built_from(rest), values.last());
    }
    lemma_inserts_contents(values);
    lemma_ordered_sorted(built_from(values));
}

/// The in-order values of a search tree never step down: each traversal of
/// a tree that insertions built visits its values in non-decreasing order.
pub proof fn lemma_traversal_sorted<T: PartialOrd>(tree: BinaryTree<T>)
    requires
        lawful_order::<T>(),
        ordered(tree.shape()),
    ensures
        non_decreasing(tree@),
{
    lemma_ordered_sorted(tree.shape());
}

/// Inserting `n` values gives exactly `n` nodes, and `n` values in order.
pub proof fn lemma_inserts_count<T: PartialOrd>(values: Seq<T>)
    ensures
        size_of(built_from(values)) == values.len(),
        values_of(built_from(values)).len() == values.len(),
    decreases values.len(),
{
    if values.len() > 0 {
        lemma_inserts_count(values.drop_last());
        lemma_inserted_contents(built_from(values.drop_last()), values.last());
    }
    lemma_size_is_len(built_from(values));
}

/// A value that is less than none of a right-leaning chain's values goes to
/// its end, lengthening the chain by one.
proof fn lemma_chain_grows<T: PartialOrd>(link: Option<Box<TreeNode<T>>>, value: T)
    requires
        right_chain(link),
        forall|x: T| values_of(link).contains(x) ==> !less(value, x),
    ensures
        right_chain(with_inserted(link, value)),
        height_of(with_inserted(link, value)) == height_of(link) + 1,
    decreases link,
{
    if let Some(n) = link {
        assert(values_of(link) =~= values_of(n.left) + seq![n.value] + values_of(n.right));
        assert(values_of(link)[values_of(n.left).len() as int] == n.value);
        assert forall|x: T| values_of(n.right).contains(x) implies !less(value, x) by {
            let k = choose|k: int| 0 <= k < values_of(n.right).len() && values_of(n.right)[k] == x;
            assert(values_of(link)[values_of(n.left).len() + 1 + k] == x);
        }
        lemma_chain_grows(n.right, value);
    }
}

/// Inserting values in non-decreasing order (equal values included) gives a
/// chain that leans right, as deep as the number of values.
pub proof fn lemma_non_decreasing_inserts_chain<T: PartialOrd>(values: Seq<T>)
    requires
        non_decreasing(values),
    ensures
        right_chain(built_from(values)),
        height_of(built_from(values)) == values.len(),
    decreases values.len(),
{
    broadcast use vstd::seq_lib::to_multiset_contains;

    if values.len() > 0 {
        let rest = values.drop_last();
        let tree = built_from(rest);
        assert(non_decreasing(rest)) by {
            assert forall|i: int, j: int| 0 <= i < j < rest.len() implies !less(
                #[trigger] rest[j],
                #[trigger] rest[i],
            ) by {
                assert(rest[i] == values[i] && rest[j] == values[j]);
            }
        }
        lemma_non_decreasing_inserts_chain(rest);
        lemma_inserts_contents(rest);
        assert forall|x: T| values_of(tree).contains(x) implies !less(values.last(), x) by {
            assert(values_of(tree).to_multiset().count(x) > 0);
            assert(rest.contains(x));
            let k = choose|k: int| 0 <= k < rest.len() && rest[k] == x;
            assert(values[k] == x);
        }
        lemma_chain_grows(tree, values.last());
    }
}

/// The in-order values of a built tree are the inserted values, counted alike.
proof fn lemma_inserts_contents<T: PartialOrd>(values: Seq<T>)
    ensures
        values_of(built_from(values)).to_multiset() == values.to_multiset(),
    decreases values.len(),
{
    broadcast use vstd::seq_lib::group_to_multiset_ensures, vstd::multiset::group_multiset_axioms;

    if values.len() > 0 {
        let rest = values.drop_last();
        lemma_inserts_contents(rest);
        lemma_inserted_contents(built_from(rest), values.last());
        assert(values =~= rest.push(values.last()));
        assert(values_of(built_from(values)).to_multiset() =~= values.to_multiset());
    } else {
        assert(values.to_multiset().len() == 0);
        assert(values_of(built_from(values)) =~= Seq::<T>::empty());
        assert(values_of(built_from(values)).to_multiset().len() == 0);
        assert(values_of(built_from(values)).to_multiset() =~= values.to_multiset());
    }
}

} // verus!
