use vstd::prelude::*;

verus! {

/// One grid cell. Cells are stored in a flat arena, so the tree edges are
/// arena indices: `target` is the parent (toward the root) and `paths` the
/// children, in the order they were attached.
#[derive(Debug, Clone, PartialEq, Eq)]
pub struct Node {
    pub x: u32,
    pub y: u32,
    /// Set once the cell has been taken into the tree by the randomized walk.
    pub conn: bool,
    pub paths: Vec<usize>,
    pub target: Option<usize>,
}

impl Node {
    /// A cell at `(x, y)` that is unvisited and has no edges.
    pub fn new(x: u32, y: u32) -> (r: Node)
        ensures
            r.x == x,
            r.y == y,
            !r.conn,
            r.paths@.len() == 0,
            r.target is None,
    {
        let paths = Vec::new();
        Node { x, y, conn: false, paths, target: None }
    }
}

} // verus!
