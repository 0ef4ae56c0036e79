//! The result tree: one node per filesystem entry that was kept.

use vstd::prelude::*;

verus! {

/// Default size, in bytes, below which an entry is left out of its parent: 5 MiB.
pub const DEFAULT_THRESHOLD: u64 = 5 * 1024 * 1024;

/// One filesystem entry with the bytes it accounts for and the entries kept below it.
#[derive(Debug, PartialEq, Eq)]
pub struct Node {
    /// Path of the entry, as it was handed to the scanner or listed by the host.
    pub name: String,
    /// Length of a file; for a directory, the sum over `children`.
    pub size: u64,
    /// Entries of a directory that were kept, in listing order.
    pub children: Vec<Node>,
}

/// Mathematical value of a [`Node`].
pub struct NodeView {
    pub name: Seq<char>,
    pub size: nat,
    pub children: Seq<NodeView>,
}

/// Sum of the sizes of `nodes`.
pub open spec fn total_size(nodes: Seq<NodeView>) -> nat
    decreases nodes.len(),
{
    if nodes.len() == 0 {
        0
    } else {
        total_size(nodes.drop_last()) + nodes.last().size
    }
}

/// The values of a sequence of nodes, one for one.
pub open spec fn node_views(nodes: Seq<Node>) -> Seq<NodeView> {
    Seq::new(nodes.len(), |i: int| nodes[i]@)
}

impl NodeView {
    /// A childless node.
    pub open spec fn leaf(name: Seq<char>, size: nat) -> NodeView {
        NodeView { name, size, children: Seq::empty() }
    }

    /// Every node of the tree that has children accounts for exactly their sum.
    pub open spec fn aggregated(self) -> bool
        decreases self,
    {
        &&& self.children.len() > 0 ==> self.size == total_size(self.children)
        &&& forall|i: int|
            0 <= i < self.children.len() ==> (#[trigger] self.children[i]).aggregated()
    }

    /// Every node listed as a child anywhere in the tree is at least `threshold` bytes.
    pub open spec fn retained(self, threshold: nat) -> bool
        decreases self,
    {
        forall|i: int|
            0 <= i < self.children.len() ==> {
                &&& (#[trigger] self.children[i]).size >= threshold
                &&& self.children[i].retained(threshold)
            }
    }
}

impl Node {
    /// The tree as a mathematical value.
    pub open spec fn model(self) -> NodeView
        decreases self,
    {
        NodeView {
            name: self.name@,
            size: self.size as nat,
            children: Seq::new(
                self.children@.len(),
                |i: int|
                    if 0 <= i < self.children@.len() {
                        self.children@[i].model()
                    } else {
                        arbitrary()
                    },
            ),
        }
    }
}

impl View for Node {
    type V = NodeView;

    open spec fn view(&self) -> NodeView {
        self.model()
    }
}

/// Appending a node adds its size to the sum.
pub proof fn lemma_total_size_push(nodes: Seq<NodeView>, node: NodeView)
    ensures
        total_size(nodes.push(node)) == total_size(nodes) + node.size,
{
    assert(nodes.push(node).drop_last() =~= nodes);
}

/// The children of a node's value are the values of its children.
pub proof fn lemma_view_children(node: Node)
    ensures
        node@.children == node_views(node.children@),
        node@.name == node.name@,
        node@.size == node.size,
{
    assert(node@.children =~= node_views(node.children@));
}

impl Node {
    /// A childless node of the given size.
    pub fn leaf(name: String, size: u64) -> (node: Node)
        ensures
            node@ == NodeView::leaf(name@, size as nat),
    {
        let node = Node { name, size, children: Vec::new() };
        proof {
            lemma_view_children(node);
            assert(node@.children =~= Seq::empty());
        }
        node
    }
}

impl Clone for Node {
    /// A copy of the whole tree.
    fn clone(&self) -> (copy: Node)
        ensures
            copy@ == self@,
        decreases self,
    {
        let children = clone_nodes(&self.children);
        let copy = Node { name: self.name.clone(), size: self.size, children };
        proof {
            lemma_view_children(copy);
            lemma_view_children(*self);
        }
        copy
    }
}

/// Copies of the trees in `nodes`, in the same order.
pub fn clone_nodes(nodes: &Vec<Node>) -> (copies: Vec<Node>)
    ensures
        node_views(copies@) == node_views(nodes@),
    decreases nodes,
{
    let mut copies: Vec<Node> = Vec::new();
    let mut i: usize = 0;
    while i < nodes.len()
        invariant
            i <= nodes.len(),
            copies.len() == i,
            forall|j: int| 0 <= j < i ==> copies@[j]@ == nodes@[j]@,
        decreases nodes.len() - i,
    {
        let copy = nodes[i].clone();
        copies.push(copy);
        i = i + 1;
    }
    assert(node_views(copies@) =~= node_views(nodes@));
    copies
}

} // verus!
