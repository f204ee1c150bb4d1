use vstd::prelude::*;

verus! {

/// What a maze cell is: untouched, a numbered waypoint of the carved
/// route, a cell the route slid through, or the route's end.
#[derive(Clone, Copy, Debug, PartialEq, Eq, Structural)]
pub enum GridCellKind {
    Empty,
    Path(usize),
    PathIntermediate,
    End,
}

/// The four-valued state of one wall: undecided, held open, tentatively
/// raised during randomization, or finally raised.
#[derive(Clone, Copy, Debug, PartialEq, Eq, Structural)]
pub enum EdgeState {
    Unset,
    Off,
    ProvisionallyOn,
    On,
}

/// One cell of the maze grid. Each cell owns two walls: the one on its
/// left, shared with `(x - 1, y)`, and the one below it, shared with
/// `(x, y - 1)`.
#[derive(Clone, Copy, Debug, PartialEq, Eq, Structural)]
pub struct GridCell {
    pub kind: GridCellKind,
    pub left_edge: EdgeState,
    pub bottom_edge: EdgeState,
}

/// A wall counts as present while it is raised, finally or tentatively.
pub open spec fn edge_present(e: EdgeState) -> bool {
    e is On || e is ProvisionallyOn
}

/// Whether a cell lies on the carved route.
pub open spec fn is_route_kind(k: GridCellKind) -> bool {
    k is Path || k is PathIntermediate || k is End
}

impl GridCell {
    /// A blank cell: empty, both walls undecided.
    pub fn new() -> (r: GridCell)
        ensures
            r.kind is Empty,
            r.left_edge is Unset,
            r.bottom_edge is Unset,
    {
        GridCell {
            kind: GridCellKind::Empty,
            left_edge: EdgeState::Unset,
            bottom_edge: EdgeState::Unset,
        }
    }

    /// Whether the wall to the cell's left is present.
    pub fn has_left_edge(&self) -> (r: bool)
        ensures
            r == edge_present(self.left_edge),
    {
        match self.left_edge {
            EdgeState::On | EdgeState::ProvisionallyOn => true,
            _ => false,
        }
    }

    /// Whether the wall below the cell is present.
    pub fn has_bottom_edge(&self) -> (r: bool)
        ensures
            r == edge_present(self.bottom_edge),
    {
        match self.bottom_edge {
            EdgeState::On | EdgeState::ProvisionallyOn => true,
            _ => false,
        }
    }
}

} // verus!
