//! The order in which a directory is listed decides the order of the children
//! in the tree of a scan, and nothing else.

use vstd::prelude::*;
use crate::model::{FrameView, ScanState};
use crate::node::{lemma_total_size_push, total_size, NodeView};
use crate::throttle::Throttle;
use crate::walk::{lemma_scan_computes, run, Walk};

verus! {

impl NodeView {
    /// The two trees are equal up to the order of the children of each node.
    pub open spec fn alike(self, other: NodeView) -> bool
        decreases self, 1nat,
    {
        &&& self.name == other.name
        &&& self.size == other.size
        &&& NodeView::alike_all(self.children, other.children)
    }

    /// `others` holds, in some order, one tree alike each tree of `nodes`, and
    /// no other.
    pub open spec fn alike_all(nodes: Seq<NodeView>, others: Seq<NodeView>) -> bool
        decreases nodes, 0nat,
    {
        if nodes.len() == 0 {
            others.len() == 0
        } else {
            exists|j: int|
                0 <= j < others.len() && nodes.last().alike(others[j]) && NodeView::alike_all(
                    nodes.drop_last(),
                    #[trigger] others.remove(j),
                )
        }
    }
}

impl Walk {
    /// The two records are of the same tree: the same entries were found under
    /// the same paths, directories listed in any order and completed at any time.
    pub open spec fn same_tree(self, other: Walk) -> bool
        decreases self, 1nat,
    {
        match self {
            Walk::Directory { path, entries, .. } => {
                &&& other is Directory
                &&& other.path() == path
                &&& Walk::same_entries(entries, other->entries)
            },
            _ => other == self,
        }
    }

    /// `others` holds, in some order, one record of the same tree for each
    /// record of `entries`, and no other.
    pub open spec fn same_entries(entries: Seq<Walk>, others: Seq<Walk>) -> bool
        decreases entries, 0nat,
    {
        if entries.len() == 0 {
            others.len() == 0
        } else {
            exists|j: int|
                0 <= j < others.len() && entries.last().same_tree(others[j])
                    && Walk::same_entries(entries.drop_last(), #[trigger] others.remove(j))
        }
    }
}

/// The sum over a concatenation is the sum of the sums.
pub proof fn lemma_total_size_concat(first: Seq<NodeView>, second: Seq<NodeView>)
    ensures
        total_size(first + second) == total_size(first) + total_size(second),
    decreases second.len(),
{
    if second.len() == 0 {
        assert(first + second =~= first);
    } else {
        assert((first + second).drop_last() =~= first + second.drop_last());
        lemma_total_size_concat(first, second.drop_last());
    }
}

/// What is kept of a concatenation is what is kept of its parts.
pub proof fn lemma_kept_concat(first: Seq<Walk>, second: Seq<Walk>, threshold: nat)
    ensures
        Walk::kept(first + second, threshold) == Walk::kept(first, threshold) + Walk::kept(
            second,
            threshold,
        ),
    decreases second.len(),
{
    if second.len() == 0 {
        assert(first + second =~= first);
        assert(Walk::kept(first, threshold) + Seq::<NodeView>::empty() =~= Walk::kept(
            first,
            threshold,
        ));
    } else {
        assert((first + second).drop_last() =~= first + second.drop_last());
        assert((first + second).last() == second.last());
        lemma_kept_concat(first, second.drop_last(), threshold);
        let node = second.last().scan(threshold);
        if FrameView::keeps(node.size, threshold) {
            assert((Walk::kept(first, threshold) + Walk::kept(second.drop_last(), threshold)).push(
                node,
            ) =~= Walk::kept(first, threshold) + Walk::kept(second.drop_last(), threshold).push(
                node,
            ));
        }
    }
}

/// Leaving one entry out of a listing leaves its tree out of what is kept, at
/// the place where it stood, if it was kept at all.
proof fn lemma_kept_remove(entries: Seq<Walk>, j: int, threshold: nat)
    requires
        0 <= j < entries.len(),
    ensures
        ({
            let node = entries[j].scan(threshold);
            let all = Walk::kept(entries, threshold);
            let others = Walk::kept(entries.remove(j), threshold);
            let at = Walk::kept(entries.take(j), threshold).len() as int;
            if FrameView::keeps(node.size, threshold) {
                &&& 0 <= at < all.len()
                &&& all[at] == node
                &&& all.remove(at) == others
                &&& total_size(all) == total_size(others) + node.size
            } else {
                all == others
            }
        }),
{
    let node = entries[j].scan(threshold);
    let head = entries.take(j);
    let tail = entries.skip(j + 1);
    let one = seq![entries[j]];
    assert(entries =~= head + one + tail);
    assert(entries.remove(j) =~= head + tail);
    lemma_kept_concat(head + one, tail, threshold);
    lemma_kept_concat(head, one, threshold);
    lemma_kept_concat(head, tail, threshold);
    let kept_head = Walk::kept(head, threshold);
    let kept_tail = Walk::kept(tail, threshold);
    assert(one.drop_last() =~= Seq::empty());
    assert(Walk::kept(one.drop_last(), threshold) =~= Seq::empty());
    if FrameView::keeps(node.size, threshold) {
        assert(Walk::kept(one, threshold) =~= seq![node]);
        let all = kept_head + seq![node] + kept_tail;
        assert(all.remove(kept_head.len() as int) =~= kept_head + kept_tail);
        lemma_total_size_concat(kept_head + seq![node], kept_tail);
        lemma_total_size_concat(kept_head, seq![node]);
        lemma_total_size_concat(kept_head, kept_tail);
        assert(total_size(seq![node]) == node.size) by {
            lemma_total_size_push(Seq::empty(), node);
            assert(Seq::<NodeView>::empty().push(node) =~= seq![node]);
        }
    } else {
        assert(Walk::kept(one, threshold) =~= Seq::empty());
        assert(kept_head + Seq::<NodeView>::empty() + kept_tail =~= kept_head + kept_tail);
    }
}

/// Two scans of the same tree give trees that are equal up to the order of
/// the children of each node, whatever the order in which each scan found the
/// entries of each directory.
pub proof fn lemma_scan_same_tree(walk: Walk, other: Walk, threshold: nat)
    requires
        walk.same_tree(other),
    ensures
        walk.scan(threshold).alike(other.scan(threshold)),
    decreases walk, 1nat,
{
    match walk {
        Walk::Directory { entries, .. } => {
            lemma_kept_same_entries(entries, other->entries, threshold);
        },
        _ => {},
    }
}

/// What two scans keep of the same entries is the same up to order, and sums
/// to the same size.
pub proof fn lemma_kept_same_entries(entries: Seq<Walk>, others: Seq<Walk>, threshold: nat)
    requires
        Walk::same_entries(entries, others),
    ensures
        NodeView::alike_all(Walk::kept(entries, threshold), Walk::kept(others, threshold)),
        total_size(Walk::kept(entries, threshold)) == total_size(Walk::kept(others, threshold)),
    decreases entries, 0nat,
{
    if entries.len() > 0 {
        let j = choose|j: int|
            0 <= j < others.len() && entries.last().same_tree(others[j]) && Walk::same_entries(
                entries.drop_last(),
                #[trigger] others.remove(j),
            );
        let node = entries.last().scan(threshold);
        let twin = others[j].scan(threshold);
        lemma_scan_same_tree(entries.last(), others[j], threshold);
        lemma_kept_same_entries(entries.drop_last(), others.remove(j), threshold);
        lemma_kept_remove(others, j, threshold);
        let before = Walk::kept(entries.drop_last(), threshold);
        let mine = Walk::kept(entries, threshold);
        let theirs = Walk::kept(others, threshold);
        if FrameView::keeps(node.size, threshold) {
            let at = Walk::kept(others.take(j), threshold).len() as int;
            lemma_total_size_push(before, node);
            assert(mine.drop_last() =~= before);
            assert(mine.last().alike(theirs[at]));
            assert(NodeView::alike_all(mine.drop_last(), theirs.remove(at)));
        }
    } else {
        assert(others =~= Seq::empty());
    }
}

/// Every tree is alike itself.
pub proof fn lemma_alike_reflexive(node: NodeView)
    ensures
        node.alike(node),
    decreases node, 1nat,
{
    lemma_alike_all_reflexive(node.children);
}

/// Every sequence of trees is alike itself.
pub proof fn lemma_alike_all_reflexive(nodes: Seq<NodeView>)
    ensures
        NodeView::alike_all(nodes, nodes),
    decreases nodes, 0nat,
{
    if nodes.len() > 0 {
        let j = nodes.len() - 1;
        lemma_alike_reflexive(nodes.last());
        lemma_alike_all_reflexive(nodes.drop_last());
        assert(nodes.remove(j) =~= nodes.drop_last());
    }
}

/// Every record is of the same tree as itself.
pub proof fn lemma_same_tree_reflexive(walk: Walk)
    ensures
        walk.same_tree(walk),
    decreases walk, 1nat,
{
    match walk {
        Walk::Directory { entries, .. } => {
            lemma_same_entries_reflexive(entries);
        },
        _ => {},
    }
}

/// Every listing holds the same entries as itself.
pub proof fn lemma_same_entries_reflexive(entries: Seq<Walk>)
    ensures
        Walk::same_entries(entries, entries),
    decreases entries, 0nat,
{
    if entries.len() > 0 {
        let j = entries.len() - 1;
        lemma_same_tree_reflexive(entries.last());
        lemma_same_entries_reflexive(entries.drop_last());
        assert(entries.remove(j) =~= entries.drop_last());
    }
}

/// If no directory of one record sums beyond a `u64`, none does in another
/// record of the same tree.
pub proof fn lemma_fits_same_tree(walk: Walk, other: Walk, threshold: nat)
    requires
        walk.same_tree(other),
        walk.fits(threshold),
    ensures
        other.fits(threshold),
    decreases walk, 1nat,
{
    match walk {
        Walk::Directory { entries, .. } => {
            lemma_kept_same_entries(entries, other->entries, threshold);
            lemma_fit_same_entries(entries, other->entries, threshold);
        },
        _ => {},
    }
}

/// If every entry of one listing fits, every entry of another listing of the
/// same entries does.
pub proof fn lemma_fit_same_entries(entries: Seq<Walk>, others: Seq<Walk>, threshold: nat)
    requires
        Walk::same_entries(entries, others),
        forall|i: int| 0 <= i < entries.len() ==> (#[trigger] entries[i]).fits(threshold),
    ensures
        forall|i: int| 0 <= i < others.len() ==> (#[trigger] others[i]).fits(threshold),
    decreases entries, 0nat,
{
    if entries.len() > 0 {
        let j = choose|j: int|
            0 <= j < others.len() && entries.last().same_tree(others[j]) && Walk::same_entries(
                entries.drop_last(),
                #[trigger] others.remove(j),
            );
        let rest = others.remove(j);
        lemma_fits_same_tree(entries.last(), others[j], threshold);
        assert forall|i: int| 0 <= i < entries.drop_last().len() implies (
        #[trigger] entries.drop_last()[i]).fits(threshold) by {
            assert(entries.drop_last()[i] == entries[i]);
        }
        lemma_fit_same_entries(entries.drop_last(), rest, threshold);
        assert forall|i: int| 0 <= i < others.len() implies (#[trigger] others[i]).fits(
            threshold,
        ) by {
            if i < j {
                assert(others[i] == rest[i]);
            } else if i > j {
                assert(others[i] == rest[i - 1]);
            }
        }
    }
}

/// Scanning the same tree twice gives two trees that are equal up to the
/// order of children: both scans accept every answer and end with a result,
/// whatever the listing orders, the clock and the rate limiter of each.
pub proof fn lemma_rescan_alike(
    walk: Walk,
    other: Walk,
    threshold: nat,
    throttle: Throttle,
    other_throttle: Throttle,
)
    requires
        threshold <= u64::MAX,
        walk.fits(threshold),
        walk.same_tree(other),
    ensures
        ({
            let first = run(ScanState::start(walk.path(), threshold, throttle), walk.events());
            let second = run(
                ScanState::start(other.path(), threshold, other_throttle),
                other.events(),
            );
            &&& first.accepted && second.accepted
            &&& first.state.result() matches Some(tree) && second.state.result() matches Some(
                twin,
            ) && tree.alike(twin)
        }),
{
    lemma_fits_same_tree(walk, other, threshold);
    lemma_scan_computes(walk, threshold, throttle);
    lemma_scan_computes(other, threshold, other_throttle);
    lemma_scan_same_tree(walk, other, threshold);
}

} // verus!
