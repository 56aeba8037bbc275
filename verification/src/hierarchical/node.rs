use vstd::prelude::*;

verus! {

/// A node of a dendrogram.
///
/// Leaves carry no children and a zero distance; a merged node names the
/// labels of the two nodes it joins and the distance at which they joined.
#[derive(Debug, Clone, Copy, PartialEq, Eq, Structural)]
pub struct Node {
    /// The label of this node.
    pub label: usize,
    /// The label of the 1st child node.
    pub node1: Option<usize>,
    /// The label of the 2nd child node.
    pub node2: Option<usize>,
    /// The distance between the 1st and 2nd child node.
    pub distance: u64,
}

impl Node {
    /// Creates a new `Node` instance.
    pub fn new(label: usize, node1: Option<usize>, node2: Option<usize>, distance: u64) -> (node:
        Self)
        ensures
            node == (Node { label, node1, node2, distance }),
    {
        Node { label, node1, node2, distance }
    }

    /// Whether `x` is one of the two children of this node.
    pub open spec fn has_child(self, x: int) -> bool {
        self.node1 == Some(x as usize) || self.node2 == Some(x as usize)
    }

    /// Whether this node lacks at least one child, as a leaf does.
    pub open spec fn lacks_child(self) -> bool {
        self.node1 is None || self.node2 is None
    }
}

} // verus!
