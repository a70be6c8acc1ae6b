use vstd::prelude::*;
use vstd::multiset::Multiset;
use coitrees::IntervalTree;

verus! {

/// A static interval tree of coitrees over closed `i32` intervals carrying a
/// `u32` payload. Held opaquely: what it stores is `tree_items`.
#[verifier::external_body]
pub struct CoiTree {
    tree: coitrees::BasicCOITree<u32, u32>,
}

/// The intervals a tree holds, each as `(first, last, payload)`.
pub uninterp spec fn tree_items(t: CoiTree) -> Multiset<(i32, i32, u32)>;

/// Whether a stored interval touches the closed query range `[first, last]`.
pub open spec fn touches(first: i32, last: i32, item: (i32, i32, u32)) -> bool {
    item.0 <= last && item.1 >= first
}

/// Relies on coitrees' BasicCOITree::new, which stores each given interval once.
/// It panics when there are `u32::MAX` or more intervals, and its layout pass
/// computes spans `last - first + 1` in `i32`, which stay in range when every
/// interval has `0 <= first <= last < i32::MAX`.
#[verifier::external_body]
pub(crate) fn build_tree(items: &Vec<(i32, i32, u32)>) -> (r: CoiTree)
    requires
        items@.len() < u32::MAX,
        forall|i: int| 0 <= i < items@.len() ==> 0 <= (#[trigger] items@[i]).0 <= items@[i].1 < i32::MAX,
    ensures
        tree_items(r) == items@.to_multiset(),
{
    let nodes: Vec<coitrees::Interval<u32>> = items.iter().map(
        |&(first, last, payload)| coitrees::Interval::new(first, last, payload),
    ).collect();
    CoiTree { tree: coitrees::BasicCOITree::new(nodes.iter()) }
}

/// Relies on coitrees' BasicCOITree::query, which visits once each stored interval
/// overlapping the closed range `[first, last]`.
#[verifier::external_body]
pub(crate) fn stab_tree(t: &CoiTree, first: i32, last: i32) -> (r: Vec<
    (i32, i32, u32),
>)
    ensures
        r@.to_multiset() == tree_items(*t).filter(|item: (i32, i32, u32)| touches(first, last, item)),
{
    let mut out: Vec<(i32, i32, u32)> = Vec::new();
    t.tree.query(first, last, |node| out.push((node.first, node.last, node.metadata)));
    out
}

/// Relies on coitrees' BasicCOITree::iter, which yields each stored interval once.
#[verifier::external_body]
pub(crate) fn tree_contents(t: &CoiTree) -> (r: Vec<(i32, i32, u32)>)
    ensures
        r@.to_multiset() == tree_items(*t),
{
    t.tree.iter().map(|node| (node.first, node.last, *node.metadata)).collect()
}

} // verus!
