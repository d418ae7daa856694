//! The mesh interface consumed by the hydrological core.
//!
//! An external collaborator supplies the tessellation; the core needs only
//! the cell count, each cell's unordered neighbour list, and which cells
//! touch the map border.

use vstd::prelude::*;

verus! {

/// Per-cell adjacency and border flags of a planar mesh.
pub struct Mesh {
    /// Unordered neighbour lists; `adjacent[i]` are the cells sharing an
    /// edge with cell `i`. Stable for the lifetime of the mesh.
    pub adjacent: Vec<Vec<usize>>,
    /// `border[i]` is true when cell `i` touches the map's outer boundary.
    pub border: Vec<bool>,
}

impl Mesh {
    /// Number of cells in the mesh.
    pub open spec fn cell_count(&self) -> int {
        self.adjacent@.len() as int
    }

    /// Well-formedness: the two per-cell tables agree in length, every
    /// neighbour index is a cell, and no cell is isolated.
    pub open spec fn wf(&self) -> bool {
        &&& self.border@.len() == self.adjacent@.len()
        &&& forall|i: int, j: int|
            0 <= i < self.adjacent@.len() && 0 <= j < self.adjacent@[i].len()
                ==> (#[trigger] self.adjacent@[i][j]) < self.adjacent@.len()
        &&& forall|i: int| 0 <= i < self.adjacent@.len() ==> #[trigger] self.adjacent@[i].len() >= 1
    }

    pub fn cells(&self) -> (n: usize)
        ensures
            n == self.cell_count(),
    {
        self.adjacent.len()
    }

    /// True when cell `i` touches the unit square's boundary.
    pub fn is_on_map_border(&self, i: usize) -> (r: bool)
        requires
            self.wf(),
            i < self.cell_count(),
        ensures
            r == self.border@[i as int],
    {
        self.border[i]
    }
}

} // verus!
