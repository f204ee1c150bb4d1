use vstd::prelude::*;

use crate::cell::{EdgeState, GridCell, GridCellKind, edge_present, is_route_kind};
use crate::grid::{Grid, XY};
use crate::rng::{rng_below, rng_from_seed, rng_ratio};

verus! {

/// A command handed to the engine by its host between frames.
#[derive(Clone, Copy, Debug, PartialEq, Eq, Structural)]
pub enum Command {
    Exit,
    Refresh,
}

/// The stage the generation currently sits in. `TimedTransition` holds a
/// pacing delay in milliseconds and the stage that follows once the delay
/// has elapsed.
#[derive(Debug)]
pub enum GenStage {
    Borders,
    Path,
    EnableEdgesRandomly,
    EraseInvalidEdges(usize),
    Rest,
    Done,
    TimedTransition(u64, Box<GenStage>),
}

/// The active stage together with the instant, in host milliseconds, at
/// which it was entered.
pub struct GenState {
    pub stage: GenStage,
    pub entry_ms: u64,
}

/// How long, in milliseconds, each pacing pause before the named stage
/// lasts.
pub const PATH_DELAY_MS: u64 = 1000;
pub const ENABLE_EDGES_DELAY_MS: u64 = 1000;
pub const ERASE_EDGES_DELAY_MS: u64 = 250;
pub const REST_DELAY_MS: u64 = 500;

/// How many tentative walls the density filler proposes out of how many
/// candidates: every undecided wall is proposed.
pub const EDGE_ENABLED_NUM: u32 = 1;
pub const EDGE_ENABLED_DEN: u32 = 1;

/// How many random candidate draws one carving tick may spend before it
/// gives up and lets a later tick retry the path stage.
pub const CARVE_FUEL: u64 = 1000000;

/// The grid of cells the maze is generated in.
pub type CellGrid = Grid<GridCell>;

/// The maze-generation engine: the grid, the random source, the committed
/// route, the pending host command and the active stage. All mutation
/// happens inside `update`, one unit of work per call.
pub struct GridState {
    pub rng: rand::rngs::StdRng,
    pub grid: CellGrid,
    pub path: Vec<XY>,
    pub next_command: Option<Command>,
    pub state: GenState,
    pub path_point_count: usize,
}

/// The four candidate internal walls of the 2-by-2 block of conceptual
/// cells whose lower-left corner is `(x, y)`: at least one must be
/// present for the block to count as walled.
pub open spec fn block_has_wall(g: CellGrid, x: int, y: int) -> bool {
    ||| edge_present(g.at(x + 1, y).left_edge)
    ||| edge_present(g.at(x, y + 1).bottom_edge)
    ||| edge_present(g.at(x + 1, y + 1).left_edge)
    ||| edge_present(g.at(x + 1, y + 1).bottom_edge)
}

/// The density invariant: every 2-by-2 block of conceptual cells keeps at
/// least one of its internal walls.
pub open spec fn density_ok(g: CellGrid) -> bool {
    forall|x: int, y: int|
        0 <= x < g.spec_width() - 1 && 0 <= y < g.spec_height() - 1
            ==> #[trigger] block_has_wall(g, x, y)
}

/// The left wall a freshly bordered grid gives the cell at `(x, y)`.
pub open spec fn border_left_state(w: int, h: int, x: int, y: int) -> EdgeState {
    if y != h - 1 && (x == 0 || x == w - 1) {
        EdgeState::On
    } else {
        EdgeState::Unset
    }
}

/// The bottom wall a freshly bordered grid gives the cell at `(x, y)`.
pub open spec fn border_bottom_state(w: int, h: int, x: int, y: int) -> EdgeState {
    if x != w - 1 && (y == 0 || y == h - 1) {
        EdgeState::On
    } else {
        EdgeState::Unset
    }
}

/// Every cell is empty of route marks.
pub open spec fn all_cells_empty(g: CellGrid) -> bool {
    forall|x: int, y: int|
        g.in_bounds(x, y) ==> (#[trigger] g.at(x, y)).kind is Empty
}

/// Every cell is blank: empty and with both walls undecided.
pub open spec fn all_cells_blank(g: CellGrid) -> bool {
    forall|x: int, y: int|
        g.in_bounds(x, y) ==> #[trigger] g.at(x, y) == (GridCell {
            kind: GridCellKind::Empty,
            left_edge: EdgeState::Unset,
            bottom_edge: EdgeState::Unset,
        })
}

/// The grid exactly as `fill_borders` leaves it: all cells empty, the
/// conceptual maze's outer boundary walled `On`, every other wall
/// undecided.
pub open spec fn borders_just_filled(g: CellGrid) -> bool {
    forall|x: int, y: int|
        g.in_bounds(x, y) ==> #[trigger] g.at(x, y) == (GridCell {
            kind: GridCellKind::Empty,
            left_edge: border_left_state(g.spec_width(), g.spec_height(), x, y),
            bottom_edge: border_bottom_state(g.spec_width(), g.spec_height(), x, y),
        })
}

/// A tentative wall made final; any other state is kept.
pub open spec fn finalize_edge(e: EdgeState) -> EdgeState {
    if e is ProvisionallyOn {
        EdgeState::On
    } else {
        e
    }
}

/// A cell with both of its walls made final.
pub open spec fn finalize_cell(c: GridCell) -> GridCell {
    GridCell {
        kind: c.kind,
        left_edge: finalize_edge(c.left_edge),
        bottom_edge: finalize_edge(c.bottom_edge),
    }
}

/// Making tentative walls final never changes which walls are present,
/// so the density invariant carries over.
pub proof fn lemma_finalize_keeps_density(before: CellGrid, after: CellGrid)
    requires
        density_ok(before),
        before.spec_width() == after.spec_width(),
        before.spec_height() == after.spec_height(),
        forall|x: int, y: int|
            before.in_bounds(x, y) ==> #[trigger] after.at(x, y) == finalize_cell(
                before.at(x, y),
            ),
    ensures
        density_ok(after),
{
    assert forall|x: int, y: int|
        0 <= x < after.spec_width() - 1 && 0 <= y < after.spec_height() - 1
            implies #[trigger] block_has_wall(after, x, y) by {
        assert(block_has_wall(before, x, y));
        assert(after.at(x + 1, y) == finalize_cell(before.at(x + 1, y)));
        assert(after.at(x, y + 1) == finalize_cell(before.at(x, y + 1)));
        assert(after.at(x + 1, y + 1) == finalize_cell(before.at(x + 1, y + 1)));
    }
}

/// The direction a carving run travels in. `Up` and `Down` move along
/// `y`, `Left` and `Right` along `x`.
#[derive(Clone, Copy, Debug, PartialEq, Eq, Structural)]
pub enum Direction {
    Up,
    Down,
    Left,
    Right,
}

/// A waypoint of the walk that carves the route: a position together
/// with the direction the walk will leave it in.
#[derive(Clone, Copy, Debug)]
pub struct PathPoint {
    pub point: XY,
    pub dir: Direction,
}

/// One wall of one cell, named for the repair stage: the cell's position
/// and which of its two owned walls is meant.
#[derive(Clone, Copy, Debug)]
pub struct CellEdge {
    pub point: XY,
    pub is_left_edge: bool,
}

/// Whether `p` lies in the conceptual maze: the traversable area, one
/// row and column short of the full grid.
pub open spec fn conceptual_pt(w: int, h: int, p: XY) -> bool {
    p.0 <= w - 2 && p.1 <= h - 2
}

/// Whether `p` lies on the border of the conceptual maze.
pub open spec fn border_pt(w: int, h: int, p: XY) -> bool {
    p.0 == 0 || p.0 == w - 2 || p.1 == 0 || p.1 == h - 2
}

/// Whether the direction travels along the `y` axis.
pub open spec fn dir_vertical(d: Direction) -> bool {
    d is Up || d is Down
}

/// Two successive legs of the walk travel on different axes.
pub open spec fn alternates(a: Direction, b: Direction) -> bool {
    dir_vertical(a) != dir_vertical(b)
}

/// Whether `p` is one of the four corners of the conceptual maze.
pub open spec fn corner_pt(w: int, h: int, p: XY) -> bool {
    (p.0 == 0 || p.0 == w - 2) && (p.1 == 0 || p.1 == h - 2)
}

/// The walk can take at least one step from `p` in its stored direction
/// without leaving the conceptual maze on the low side.
pub open spec fn dir_room(p: PathPoint) -> bool {
    &&& (p.dir is Down ==> p.point.1 > 0)
    &&& (p.dir is Left ==> p.point.0 > 0)
}

/// `q` continues the walk from waypoint `p`: it differs from `p` only
/// along the axis of `p`'s stored direction, strictly in that direction.
pub open spec fn advances(p: PathPoint, q: XY) -> bool {
    match p.dir {
        Direction::Up => q.0 == p.point.0 && q.1 > p.point.1,
        Direction::Down => q.0 == p.point.0 && q.1 < p.point.1,
        Direction::Left => q.1 == p.point.1 && q.0 < p.point.0,
        Direction::Right => q.1 == p.point.1 && q.0 > p.point.0,
    }
}

/// A legitimate partial walk: every waypoint conceptual with stepping
/// room, no position visited twice, each waypoint reached from its
/// predecessor by one straight run, and the travel axis alternating
/// strictly between successive legs.
pub open spec fn waypoints_ok(wp: Seq<PathPoint>, w: int, h: int) -> bool {
    &&& forall|i: int| 0 <= i < wp.len() ==> conceptual_pt(w, h, (#[trigger] wp[i]).point)
    &&& forall|i: int| 0 <= i < wp.len() ==> dir_room(#[trigger] wp[i])
    &&& forall|i: int, j: int|
        0 <= i < j < wp.len() ==> (#[trigger] wp[i]).point != (#[trigger] wp[j]).point
    &&& forall|i: int| 0 <= i < wp.len() - 1 ==> #[trigger] advances(wp[i], wp[i + 1].point)
    &&& forall|i: int|
        0 <= i < wp.len() - 1 ==> #[trigger] alternates(wp[i].dir, wp[i + 1].dir)
}

/// The state of one named wall: the left or the bottom wall of the cell
/// at `(cx, cy)`.
pub open spec fn wall_state(g: CellGrid, cx: int, cy: int, left: bool) -> EdgeState {
    if left {
        g.at(cx, cy).left_edge
    } else {
        g.at(cx, cy).bottom_edge
    }
}

/// Whether the named wall lies on the conceptual maze's outer boundary.
pub open spec fn is_border_wall(w: int, h: int, cx: int, cy: int, left: bool) -> bool {
    if left {
        (cx == 0 || cx == w - 1) && 0 <= cy <= h - 2
    } else {
        (cy == 0 || cy == h - 1) && 0 <= cx <= w - 2
    }
}

/// Whether the named wall is the border wall that opening the route at
/// border point `(px, py)` in the given orientation removes: its own left
/// wall on the left border, the next cell's left wall on the right
/// border, and likewise below and above.
pub open spec fn border_wall_of_point(
    w: int,
    h: int,
    px: int,
    py: int,
    cx: int,
    cy: int,
    left: bool,
) -> bool {
    if left {
        cy == py && ((px == 0 && cx == 0) || (px == w - 2 && cx == w - 1))
    } else {
        cx == px && ((py == 0 && cy == 0) || (py == h - 2 && cy == h - 1))
    }
}

/// `g1` is `g0` with exactly the named wall turned `Off`: every other
/// cell, the cell's kind and its other wall are untouched.
pub open spec fn edge_off_applied(
    g0: CellGrid,
    g1: CellGrid,
    cx: int,
    cy: int,
    left: bool,
) -> bool {
    &&& g1.spec_width() == g0.spec_width()
    &&& g1.spec_height() == g0.spec_height()
    &&& g0.in_bounds(cx, cy)
    &&& forall|x: int, y: int|
        g0.in_bounds(x, y) && !(x == cx && y == cy) ==> g1.at(x, y) == g0.at(x, y)
    &&& g1.at(cx, cy).kind == g0.at(cx, cy).kind
    &&& (if left {
        g1.at(cx, cy).left_edge is Off && g1.at(cx, cy).bottom_edge == g0.at(
            cx,
            cy,
        ).bottom_edge
    } else {
        g1.at(cx, cy).bottom_edge is Off && g1.at(cx, cy).left_edge == g0.at(
            cx,
            cy,
        ).left_edge
    })
}

/// The walls along the straight run from waypoint `p` to `q` are all
/// held open: each wall crossed while sliding one step at a time stands
/// `Off`.
pub open spec fn run_open(g: CellGrid, p: PathPoint, q: XY) -> bool {
    match p.dir {
        Direction::Up => forall|yy: int|
            p.point.1 < yy <= q.1 ==> (#[trigger] g.at(
                p.point.0 as int,
                yy,
            )).bottom_edge is Off,
        Direction::Down => forall|yy: int|
            q.1 < yy <= p.point.1 ==> (#[trigger] g.at(
                p.point.0 as int,
                yy,
            )).bottom_edge is Off,
        Direction::Left => forall|xx: int|
            q.0 < xx <= p.point.0 ==> (#[trigger] g.at(
                xx,
                p.point.1 as int,
            )).left_edge is Off,
        Direction::Right => forall|xx: int|
            p.point.0 < xx <= q.0 ==> (#[trigger] g.at(
                xx,
                p.point.1 as int,
            )).left_edge is Off,
    }
}

/// The cells a slide from `p` to `q` writes: the run of cells whose wall
/// toward the previous cell is opened.
pub open spec fn segment_cell(p: PathPoint, q: XY, x: int, y: int) -> bool {
    match p.dir {
        Direction::Up => x == p.point.0 && p.point.1 < y <= q.1,
        Direction::Down => x == p.point.0 && q.1 < y <= p.point.1,
        Direction::Left => y == p.point.1 && q.0 < x <= p.point.0,
        Direction::Right => y == p.point.1 && p.point.0 < x <= q.0,
    }
}

/// What a slide does to a cell it crosses: the wall toward the previous
/// cell - the bottom wall on a vertical leg, the left wall on a
/// horizontal one - opens, the other wall is kept, and an empty cell is
/// marked as slid through.
pub open spec fn slid_cell(vertical: bool, c: GridCell) -> GridCell {
    GridCell {
        kind: if c.kind is Empty {
            GridCellKind::PathIntermediate
        } else {
            c.kind
        },
        left_edge: if vertical {
            c.left_edge
        } else {
            EdgeState::Off
        },
        bottom_edge: if vertical {
            EdgeState::Off
        } else {
            c.bottom_edge
        },
    }
}

/// The wall a slide from `p` to `q` opens at the crossed cell
/// `(cx, cy)`.
pub open spec fn crossed_wall(p: PathPoint, q: XY, cx: int, cy: int, left: bool) -> bool {
    segment_cell(p, q, cx, cy) && left == (p.dir is Left || p.dir is Right)
}

/// Whether one of the first `k` legs of the walk crosses the named wall.
pub open spec fn route_crossed_upto(
    wp: Seq<PathPoint>,
    k: int,
    cx: int,
    cy: int,
    left: bool,
) -> bool {
    exists|j: int|
        0 <= j < k && #[trigger] crossed_wall(wp[j], wp[j + 1].point, cx, cy, left)
}

/// Whether some leg of the walk crosses the named wall.
pub open spec fn route_crossed_wall(wp: Seq<PathPoint>, cx: int, cy: int, left: bool) -> bool {
    route_crossed_upto(wp, wp.len() - 1, cx, cy, left)
}

/// Whether one of the first `k` legs of the walk slides through
/// `(x, y)`.
pub open spec fn route_slid_upto(wp: Seq<PathPoint>, k: int, x: int, y: int) -> bool {
    exists|j: int| 0 <= j < k && #[trigger] segment_cell(wp[j], wp[j + 1].point, x, y)
}

/// Whether some leg of the walk slides through `(x, y)`.
pub open spec fn route_slid_cell(wp: Seq<PathPoint>, x: int, y: int) -> bool {
    route_slid_upto(wp, wp.len() - 1, x, y)
}

/// Whether a cell's kind marks it as a waypoint of the committed route.
pub open spec fn is_waypoint_kind(k: GridCellKind) -> bool {
    k is Path || k is End
}

/// The `(x, y)` address of flat index `i` in a grid `w` cells wide.
pub open spec fn flat_to_xy(w: int, i: int) -> XY {
    XY((i % w) as usize, (i / w) as usize)
}

/// The positions of the waypoint-marked cells among the first `n` cells
/// of the grid, in flat order.
pub open spec fn extract_upto(g: CellGrid, n: int) -> Seq<XY>
    decreases n,
{
    if n <= 0 {
        Seq::empty()
    } else if is_waypoint_kind(g@[n - 1].kind) {
        extract_upto(g, n - 1).push(flat_to_xy(g.spec_width(), n - 1))
    } else {
        extract_upto(g, n - 1)
    }
}

/// Two conceptual cells are adjacent for traversal when they share a
/// side and the wall between them is absent.
pub open spec fn open_step(g: CellGrid, x1: int, y1: int, x2: int, y2: int) -> bool {
    let w = g.spec_width();
    let h = g.spec_height();
    &&& 0 <= x1 <= w - 2
    &&& 0 <= y1 <= h - 2
    &&& 0 <= x2 <= w - 2
    &&& 0 <= y2 <= h - 2
    &&& {
        ||| (x2 == x1 + 1 && y2 == y1 && !edge_present(g.at(x2, y1).left_edge))
        ||| (x2 == x1 - 1 && y2 == y1 && !edge_present(g.at(x1, y1).left_edge))
        ||| (x2 == x1 && y2 == y1 + 1 && !edge_present(g.at(x1, y2).bottom_edge))
        ||| (x2 == x1 && y2 == y1 - 1 && !edge_present(g.at(x1, y1).bottom_edge))
    }
}

/// The cell `(x, y)` can be reached from `s` in exactly `n` open steps.
pub open spec fn reaches(g: CellGrid, s: XY, x: int, y: int, n: nat) -> bool
    decreases n,
{
    if n == 0 {
        s.0 == x && s.1 == y
    } else {
        exists|px: int, py: int|
            reaches(g, s, px, py, (n - 1) as nat) && #[trigger] open_step(g, px, py, x, y)
    }
}

/// The cell `(x, y)` can be reached from `s` over open walls.
pub open spec fn reachable(g: CellGrid, s: XY, x: int, y: int) -> bool {
    exists|n: nat| reaches(g, s, x, y, n)
}

/// One more open step keeps a cell reachable.
pub proof fn lemma_reach_step(g: CellGrid, s: XY, px: int, py: int, x: int, y: int)
    requires
        reachable(g, s, px, py),
        open_step(g, px, py, x, y),
    ensures
        reachable(g, s, x, y),
{
    let n = choose|n: nat| reaches(g, s, px, py, n);
    assert(reaches(g, s, x, y, n + 1));
}

/// Anything reachable from a conceptual cell lies in the conceptual
/// maze.
pub proof fn lemma_reachable_conceptual(g: CellGrid, s: XY, x: int, y: int)
    requires
        conceptual_pt(g.spec_width(), g.spec_height(), s),
        reachable(g, s, x, y),
    ensures
        0 <= x <= g.spec_width() - 2,
        0 <= y <= g.spec_height() - 2,
{
    let n = choose|n: nat| #[trigger] reaches(g, s, x, y, n);
    if n != 0 {
        let (px, py) = choose|px: int, py: int|
            reaches(g, s, px, py, (n - 1) as nat) && #[trigger] open_step(g, px, py, x, y);
    }
}

/// A marked traversal cell is closed: every open step out of it leads
/// to another marked cell.
pub open spec fn closed_at(g: CellGrid, t: Grid<bool>, x: int, y: int) -> bool {
    forall|x2: int, y2: int| #[trigger] open_step(g, x, y, x2, y2) ==> t.at(x2, y2)
}

/// Whether some entry of the worklist sits at `(x, y)`.
pub open spec fn stack_has(st: Seq<XY>, x: int, y: int) -> bool {
    exists|i: int| 0 <= i < st.len() && (#[trigger] st[i]).0 == x && st[i].1 == y
}

/// How many of the first `n` traversal cells are marked.
pub open spec fn count_marked(s: Seq<bool>, n: int) -> int
    decreases n,
{
    if n <= 0 {
        0
    } else {
        count_marked(s, n - 1) + (if s[n - 1] {
            1int
        } else {
            0int
        })
    }
}

/// The marked count never exceeds the number of cells counted.
pub proof fn lemma_count_marked_bound(s: Seq<bool>, n: int)
    requires
        0 <= n <= s.len(),
    ensures
        count_marked(s, n) <= n,
    decreases n,
{
    if n > 0 {
        lemma_count_marked_bound(s, n - 1);
    }
}

/// Marking one unmarked cell raises the marked count by one.
pub proof fn lemma_count_marked_update(s1: Seq<bool>, s2: Seq<bool>, i: int, n: int)
    requires
        0 <= i < s1.len(),
        n <= s1.len(),
        s2 == s1.update(i, true),
        !s1[i],
    ensures
        count_marked(s2, n) == count_marked(s1, n) + (if i < n {
            1int
        } else {
            0int
        }),
    decreases n,
{
    if n > 0 {
        lemma_count_marked_update(s1, s2, i, n - 1);
    }
}

/// The open region around `p` is a pocket: nothing reachable from it
/// over open walls carries a route mark.
pub open spec fn pocket_at(g: CellGrid, p: XY) -> bool {
    forall|x: int, y: int|
        #[trigger] reachable(g, p, x, y) ==> !is_route_kind(g.at(x, y).kind)
}

/// The flat index of a conceptual cell in the conceptual maze, one
/// column narrower than the grid.
pub open spec fn conceptual_flat(w: int, p: XY) -> int {
    (p.1 as int) * (w - 1) + p.0 as int
}

/// `g1` is `g0` with exactly the named wall reset to undecided: every
/// other cell, the cell's kind and its other wall are untouched.
pub open spec fn wall_unset_applied(g0: CellGrid, g1: CellGrid, edge: CellEdge) -> bool {
    &&& g1.spec_width() == g0.spec_width()
    &&& g1.spec_height() == g0.spec_height()
    &&& g0.in_bounds(edge.point.0 as int, edge.point.1 as int)
    &&& forall|x: int, y: int|
        g0.in_bounds(x, y) && !(x == edge.point.0 && y == edge.point.1) ==> g1.at(x, y)
            == g0.at(x, y)
    &&& g1.at(edge.point.0 as int, edge.point.1 as int).kind == g0.at(
        edge.point.0 as int,
        edge.point.1 as int,
    ).kind
    &&& (if edge.is_left_edge {
        g1.at(edge.point.0 as int, edge.point.1 as int).left_edge is Unset && g1.at(
            edge.point.0 as int,
            edge.point.1 as int,
        ).bottom_edge == g0.at(edge.point.0 as int, edge.point.1 as int).bottom_edge
    } else {
        g1.at(edge.point.0 as int, edge.point.1 as int).bottom_edge is Unset && g1.at(
            edge.point.0 as int,
            edge.point.1 as int,
        ).left_edge == g0.at(edge.point.0 as int, edge.point.1 as int).left_edge
    })
}

/// `g1` is `g0` with exactly one of the repairer's candidate walls
/// around `p` reset to undecided.
pub open spec fn repair_applied(g0: CellGrid, g1: CellGrid, p: XY) -> bool {
    exists|edge: CellEdge|
        valid_repair_edge(g0, p, edge) && #[trigger] wall_unset_applied(g0, g1, edge)
}

/// Whether flat index `i` of the full grid addresses a cell of the
/// conceptual maze.
pub open spec fn conceptual_index(g: CellGrid, i: int) -> bool {
    i % g.spec_width() < g.spec_width() - 1 && i / g.spec_width() < g.spec_height() - 1
}

/// What one repair tick does to the stage, starting from index `idx`:
/// either no conceptual cell remains at or after `idx` and the machine
/// pauses before the rest stage, or the stage records the index one past
/// the first conceptual cell found, which is the one cell examined.
pub open spec fn repair_tick_post(g0: CellGrid, g1: CellGrid, stage: GenStage, idx: usize) -> bool {
    match stage {
        GenStage::EraseInvalidEdges(j) => {
            &&& idx < j
            &&& conceptual_index(g0, j - 1)
            &&& forall|k: int| idx <= k < j - 1 ==> !#[trigger] conceptual_index(g0, k)
            &&& ((forall|x: int, y: int|
                g0.in_bounds(x, y) ==> #[trigger] g1.at(x, y) == g0.at(x, y))
                || repair_applied(g0, g1, flat_to_xy(g0.spec_width(), j - 1)))
        },
        GenStage::TimedTransition(d, next) => {
            &&& d == REST_DELAY_MS
            &&& *next == GenStage::Rest
            &&& forall|k: int|
                idx <= k < g0@.len() ==> !#[trigger] conceptual_index(g0, k)
            &&& g1 == g0
        },
        _ => false,
    }
}

/// The four candidate walls the repairer may remove around the
/// conceptual cell `p`: each must be present and must not lie on the
/// conceptual maze's border.
pub open spec fn valid_repair_edge(g: CellGrid, p: XY, edge: CellEdge) -> bool {
    let w = g.spec_width();
    let h = g.spec_height();
    ||| (edge.is_left_edge && edge.point == p && p.0 > 0 && edge_present(
        g.at(p.0 as int, p.1 as int).left_edge,
    ))
    ||| (!edge.is_left_edge && edge.point == p && p.1 > 0 && edge_present(
        g.at(p.0 as int, p.1 as int).bottom_edge,
    ))
    ||| (edge.is_left_edge && edge.point.0 == p.0 + 1 && edge.point.1 == p.1 && p.0 < w - 2
        && edge_present(g.at(p.0 + 1, p.1 as int).left_edge))
    ||| (!edge.is_left_edge && edge.point.0 == p.0 && edge.point.1 == p.1 + 1 && p.1 < h - 2
        && edge_present(g.at(p.0 as int, p.1 + 1).bottom_edge))
}

/// No candidate wall is available for removal around `p`.
pub open spec fn no_repair_edge(g: CellGrid, p: XY) -> bool {
    let w = g.spec_width();
    let h = g.spec_height();
    &&& !(p.0 > 0 && edge_present(g.at(p.0 as int, p.1 as int).left_edge))
    &&& !(p.1 > 0 && edge_present(g.at(p.0 as int, p.1 as int).bottom_edge))
    &&& !(p.0 < w - 2 && edge_present(g.at(p.0 + 1, p.1 as int).left_edge))
    &&& !(p.1 < h - 2 && edge_present(g.at(p.0 as int, p.1 + 1).bottom_edge))
}

/// How many of the four walls around the conceptual cell `(x, y)` are
/// absent: its own left and bottom walls and those of its right and
/// upper neighbours.
pub open spec fn spec_count_exits(g: CellGrid, x: int, y: int) -> int {
    (if !edge_present(g.at(x, y).left_edge) {
        1int
    } else {
        0int
    }) + (if !edge_present(g.at(x, y).bottom_edge) {
        1int
    } else {
        0int
    }) + (if !edge_present(g.at(x + 1, y).left_edge) {
        1int
    } else {
        0int
    }) + (if !edge_present(g.at(x, y + 1).bottom_edge) {
        1int
    } else {
        0int
    })
}

/// Elapsed host time, clamped at zero for a clock reading before entry.
pub open spec fn elapsed_ms(entry: u64, now: u64) -> u64 {
    if now >= entry {
        (now - entry) as u64
    } else {
        0
    }
}

/// The route mark the `i`-th of `len` waypoints receives: the last is
/// the end, every other one a numbered step.
pub open spec fn mark_kind(i: int, len: int) -> GridCellKind {
    if i == len - 1 {
        GridCellKind::End
    } else {
        GridCellKind::Path(i as usize)
    }
}

/// Whether one of the first `k` waypoints sits at `(x, y)`.
pub open spec fn wp_prefix_has(wp: Seq<PathPoint>, k: int, x: int, y: int) -> bool {
    exists|i: int| 0 <= i < k && (#[trigger] wp[i]).point.0 == x && wp[i].point.1 == y
}

/// Whether some waypoint sits at `(x, y)`.
pub open spec fn wp_has_pt(wp: Seq<PathPoint>, x: int, y: int) -> bool {
    wp_prefix_has(wp, wp.len() as int, x, y)
}

/// The kinds a committed route leaves behind: waypoint `i` carries its
/// mark, every other cell a leg slid through is marked so, and every
/// untraversed cell is still empty.
pub open spec fn route_kinds_ok(g: CellGrid, wp: Seq<PathPoint>) -> bool {
    &&& forall|i: int|
        0 <= i < wp.len() ==> g.at(
            (#[trigger] wp[i]).point.0 as int,
            wp[i].point.1 as int,
        ).kind == mark_kind(i, wp.len() as int)
    &&& forall|x: int, y: int|
        g.in_bounds(x, y) && !wp_has_pt(wp, x, y) && route_slid_cell(wp, x, y)
            ==> (#[trigger] g.at(x, y)).kind is PathIntermediate
    &&& forall|x: int, y: int|
        g.in_bounds(x, y) && !wp_has_pt(wp, x, y) && !route_slid_cell(wp, x, y)
            ==> (#[trigger] g.at(x, y)).kind is Empty
}

/// The named walls `c1` and `c2` are the route's two border openings:
/// one adjacent to the start `s`, one adjacent to the end `e`, and every
/// border wall other than those two stands `On` while they stand `Off`.
pub open spec fn opening_pair_ok(
    g: CellGrid,
    s: XY,
    e: XY,
    c1: (int, int, bool),
    c2: (int, int, bool),
) -> bool {
    let w = g.spec_width();
    let h = g.spec_height();
    &&& border_wall_of_point(w, h, s.0 as int, s.1 as int, c1.0, c1.1, c1.2)
    &&& border_wall_of_point(w, h, e.0 as int, e.1 as int, c2.0, c2.1, c2.2)
    &&& forall|cx: int, cy: int, l: bool|
        is_border_wall(w, h, cx, cy, l) ==> #[trigger] wall_state(g, cx, cy, l) == (
        if (cx, cy, l) == c1 || (cx, cy, l) == c2 {
            EdgeState::Off
        } else {
            EdgeState::On
        })
}

/// After carving, the border holds exactly two openings: one at the
/// start waypoint and one at the end waypoint.
pub open spec fn border_openings_ok(g: CellGrid, s: XY, e: XY) -> bool {
    exists|c1: (int, int, bool), c2: (int, int, bool)| #[trigger] opening_pair_ok(g, s, e, c1, c2)
}

/// No wall of the conceptual maze's interior is present right after
/// carving: carving only ever opens walls.
pub open spec fn interior_unraised(g: CellGrid) -> bool {
    forall|cx: int, cy: int, l: bool|
        g.in_bounds(cx, cy) && !is_border_wall(g.spec_width(), g.spec_height(), cx, cy, l)
            ==> !edge_present(#[trigger] wall_state(g, cx, cy, l))
}

/// `g` is `g0` with exactly the two named walls turned `Off`: kinds and
/// every other wall are untouched.
pub open spec fn two_walls_off(
    g0: CellGrid,
    g: CellGrid,
    c1: (int, int, bool),
    c2: (int, int, bool),
) -> bool {
    &&& g.spec_width() == g0.spec_width()
    &&& g.spec_height() == g0.spec_height()
    &&& forall|x: int, y: int|
        g0.in_bounds(x, y) ==> (#[trigger] g.at(x, y)).kind == g0.at(x, y).kind
    &&& forall|cx: int, cy: int, l: bool|
        g0.in_bounds(cx, cy) ==> #[trigger] wall_state(g, cx, cy, l) == (
        if (cx, cy, l) == c1 || (cx, cy, l) == c2 {
            EdgeState::Off
        } else {
            wall_state(g0, cx, cy, l)
        })
}

/// `g` is `g0` with one border wall adjacent to `s` and one distinct
/// border wall adjacent to `e` turned `Off`, and nothing else changed.
pub open spec fn openings_applied(g0: CellGrid, g: CellGrid, s: XY, e: XY) -> bool {
    exists|c1: (int, int, bool), c2: (int, int, bool)|
        {
            &&& border_wall_of_point(
                g0.spec_width(),
                g0.spec_height(),
                s.0 as int,
                s.1 as int,
                c1.0,
                c1.1,
                c1.2,
            )
            &&& border_wall_of_point(
                g0.spec_width(),
                g0.spec_height(),
                e.0 as int,
                e.1 as int,
                c2.0,
                c2.1,
                c2.2,
            )
            &&& c1 != c2
            &&& #[trigger] two_walls_off(g0, g, c1, c2)
        }
}

/// After marking and opening the border, the grid is ready for the
/// slides: the marks stand, unmarked cells are still empty, and no
/// interior wall is present.
pub proof fn lemma_commit_slide_entry(
    g0: CellGrid,
    g1: CellGrid,
    g3: CellGrid,
    wp: Seq<PathPoint>,
    c1: (int, int, bool),
    c2: (int, int, bool),
)
    requires
        g0.spec_width() >= 4,
        g0.spec_height() >= 4,
        g1.spec_width() == g0.spec_width(),
        g1.spec_height() == g0.spec_height(),
        borders_just_filled(g0),
        waypoints_ok(wp, g0.spec_width(), g0.spec_height()),
        2 <= wp.len(),
        forall|j: int|
            0 <= j < wp.len() ==> g1.at(
                (#[trigger] wp[j]).point.0 as int,
                wp[j].point.1 as int,
            ).kind == mark_kind(j, wp.len() as int),
        forall|x: int, y: int|
            g0.in_bounds(x, y) && !wp_has_pt(wp, x, y) ==> (#[trigger] g1.at(x, y)).kind
                == g0.at(x, y).kind,
        forall|x: int, y: int|
            g0.in_bounds(x, y) ==> (#[trigger] g1.at(x, y)).left_edge == g0.at(
                x,
                y,
            ).left_edge && g1.at(x, y).bottom_edge == g0.at(x, y).bottom_edge,
        two_walls_off(g1, g3, c1, c2),
    ensures
        forall|j: int|
            0 <= j < wp.len() ==> g3.at(
                (#[trigger] wp[j]).point.0 as int,
                wp[j].point.1 as int,
            ).kind == mark_kind(j, wp.len() as int),
        forall|x: int, y: int|
            g3.in_bounds(x, y) && !wp_has_pt(wp, x, y)
                ==> (#[trigger] g3.at(x, y)).kind is Empty,
        forall|cx: int, cy: int, l: bool|
            g3.in_bounds(cx, cy) && !is_border_wall(
                g3.spec_width(),
                g3.spec_height(),
                cx,
                cy,
                l,
            ) ==> !edge_present(#[trigger] wall_state(g3, cx, cy, l)),
{
    let w = g0.spec_width();
    let h = g0.spec_height();
    assert forall|j: int| 0 <= j < wp.len() implies g3.at(
        (#[trigger] wp[j]).point.0 as int,
        wp[j].point.1 as int,
    ).kind == mark_kind(j, wp.len() as int) by {
        let x = wp[j].point.0 as int;
        let y = wp[j].point.1 as int;
        assert(conceptual_pt(w, h, wp[j].point));
        assert(g0.in_bounds(x, y));
        assert(g3.at(x, y).kind == g1.at(x, y).kind);
    }
    assert forall|cx: int, cy: int, l: bool|
        g3.in_bounds(cx, cy) && !is_border_wall(g3.spec_width(), g3.spec_height(), cx, cy, l)
            implies !edge_present(#[trigger] wall_state(g3, cx, cy, l)) by {
        assert(wall_state(g3, cx, cy, l) == (if (cx, cy, l) == c1 || (cx, cy, l) == c2 {
            EdgeState::Off
        } else {
            wall_state(g1, cx, cy, l)
        }));
        if !((cx, cy, l) == c1 || (cx, cy, l) == c2) {
            assert(g0.at(cx, cy) == (GridCell {
                kind: GridCellKind::Empty,
                left_edge: border_left_state(w, h, cx, cy),
                bottom_edge: border_bottom_state(w, h, cx, cy),
            }));
        }
    }
}

/// Once the slides are done, the border pattern set up by the two
/// erasures still stands, and it is exactly the two-opening pattern.
pub proof fn lemma_commit_openings(
    g0: CellGrid,
    g1: CellGrid,
    g3: CellGrid,
    gf: CellGrid,
    s: XY,
    e: XY,
    c1: (int, int, bool),
    c2: (int, int, bool),
)
    requires
        g0.spec_width() >= 4,
        g0.spec_height() >= 4,
        g1.spec_width() == g0.spec_width(),
        g1.spec_height() == g0.spec_height(),
        gf.spec_width() == g0.spec_width(),
        gf.spec_height() == g0.spec_height(),
        borders_just_filled(g0),
        forall|x: int, y: int|
            g0.in_bounds(x, y) ==> (#[trigger] g1.at(x, y)).left_edge == g0.at(
                x,
                y,
            ).left_edge && g1.at(x, y).bottom_edge == g0.at(x, y).bottom_edge,
        two_walls_off(g1, g3, c1, c2),
        border_wall_of_point(g0.spec_width(), g0.spec_height(), s.0 as int, s.1 as int, c1.0, c1.1, c1.2),
        border_wall_of_point(g0.spec_width(), g0.spec_height(), e.0 as int, e.1 as int, c2.0, c2.1, c2.2),
        c1 != c2,
        forall|cx: int, cy: int, l: bool|
            is_border_wall(g0.spec_width(), g0.spec_height(), cx, cy, l)
                ==> #[trigger] wall_state(gf, cx, cy, l) == wall_state(g3, cx, cy, l),
    ensures
        opening_pair_ok(gf, s, e, c1, c2),
        border_openings_ok(gf, s, e),
{
    let w = g0.spec_width();
    let h = g0.spec_height();
    assert forall|cx: int, cy: int, l: bool|
        is_border_wall(w, h, cx, cy, l) implies #[trigger] wall_state(gf, cx, cy, l) == (
        if (cx, cy, l) == c1 || (cx, cy, l) == c2 {
            EdgeState::Off
        } else {
            EdgeState::On
        }) by {
        assert(g0.in_bounds(cx, cy));
        assert(wall_state(gf, cx, cy, l) == wall_state(g3, cx, cy, l));
        assert(wall_state(g3, cx, cy, l) == (if (cx, cy, l) == c1 || (cx, cy, l) == c2 {
            EdgeState::Off
        } else {
            wall_state(g1, cx, cy, l)
        }));
        if !((cx, cy, l) == c1 || (cx, cy, l) == c2) {
            assert(g0.at(cx, cy) == (GridCell {
                kind: GridCellKind::Empty,
                left_edge: border_left_state(w, h, cx, cy),
                bottom_edge: border_bottom_state(w, h, cx, cy),
            }));
        }
    }
    assert(opening_pair_ok(gf, s, e, c1, c2));
}

/// All the facts the three commit phases leave behind, put together,
/// are exactly what a committed route guarantees.
pub proof fn lemma_carve_commit_assemble(
    g0: CellGrid,
    g1: CellGrid,
    g3: CellGrid,
    gf: CellGrid,
    wp: Seq<PathPoint>,
    c1: (int, int, bool),
    c2: (int, int, bool),
)
    requires
        g0.spec_width() >= 4,
        g0.spec_height() >= 4,
        g1.spec_width() == g0.spec_width(),
        g1.spec_height() == g0.spec_height(),
        gf.spec_width() == g0.spec_width(),
        gf.spec_height() == g0.spec_height(),
        borders_just_filled(g0),
        waypoints_ok(wp, g0.spec_width(), g0.spec_height()),
        2 <= wp.len(),
        corner_pt(g0.spec_width(), g0.spec_height(), wp[0].point),
        border_pt(g0.spec_width(), g0.spec_height(), wp[wp.len() - 1].point),
        forall|x: int, y: int|
            g0.in_bounds(x, y) ==> (#[trigger] g1.at(x, y)).left_edge == g0.at(
                x,
                y,
            ).left_edge && g1.at(x, y).bottom_edge == g0.at(x, y).bottom_edge,
        two_walls_off(g1, g3, c1, c2),
        border_wall_of_point(
            g0.spec_width(),
            g0.spec_height(),
            wp[0].point.0 as int,
            wp[0].point.1 as int,
            c1.0,
            c1.1,
            c1.2,
        ),
        border_wall_of_point(
            g0.spec_width(),
            g0.spec_height(),
            wp[wp.len() - 1].point.0 as int,
            wp[wp.len() - 1].point.1 as int,
            c2.0,
            c2.1,
            c2.2,
        ),
        c1 != c2,
        forall|j: int|
            0 <= j < wp.len() ==> gf.at(
                (#[trigger] wp[j]).point.0 as int,
                wp[j].point.1 as int,
            ).kind == mark_kind(j, wp.len() as int),
        forall|x: int, y: int|
            gf.in_bounds(x, y) && !wp_has_pt(wp, x, y) && route_slid_cell(wp, x, y)
                ==> (#[trigger] gf.at(x, y)).kind is PathIntermediate,
        forall|x: int, y: int|
            gf.in_bounds(x, y) && !wp_has_pt(wp, x, y) && !route_slid_cell(wp, x, y)
                ==> (#[trigger] gf.at(x, y)).kind is Empty,
        forall|cx: int, cy: int, l: bool|
            is_border_wall(g0.spec_width(), g0.spec_height(), cx, cy, l)
                ==> #[trigger] wall_state(gf, cx, cy, l) == wall_state(g3, cx, cy, l),
        forall|cx: int, cy: int, l: bool|
            gf.in_bounds(cx, cy) && !is_border_wall(g0.spec_width(), g0.spec_height(), cx, cy, l)
                ==> !edge_present(#[trigger] wall_state(gf, cx, cy, l)),
        forall|j: int|
            0 <= j < wp.len() - 1 ==> #[trigger] run_open(gf, wp[j], wp[j + 1].point),
        forall|cx: int, cy: int, l: bool|
            gf.in_bounds(cx, cy) && (#[trigger] wall_state(gf, cx, cy, l)) is Off
                ==> wall_state(g3, cx, cy, l) is Off || route_crossed_wall(wp, cx, cy, l),
    ensures
        carve_commit_ok(gf, wp),
{
    let w = g0.spec_width();
    let h = g0.spec_height();
    lemma_commit_openings(g0, g1, g3, gf, wp[0].point, wp[wp.len() - 1].point, c1, c2);
    // Before the slides the only open walls are the two erasures: the
    // bordered grid held every wall `On` or undecided, and marking
    // touched no wall.
    assert forall|cx: int, cy: int, l: bool|
        g3.in_bounds(cx, cy) && (#[trigger] wall_state(g3, cx, cy, l)) is Off
            implies (cx, cy, l) == c1 || (cx, cy, l) == c2 by {
        if !((cx, cy, l) == c1 || (cx, cy, l) == c2) {
            assert(wall_state(g3, cx, cy, l) == wall_state(g1, cx, cy, l));
            assert(g0.at(cx, cy) == (GridCell {
                kind: GridCellKind::Empty,
                left_edge: border_left_state(w, h, cx, cy),
                bottom_edge: border_bottom_state(w, h, cx, cy),
            }));
        }
    }
}

/// Everything the committed route guarantees of the grid, relative to
/// the waypoint walk `wp`: the marks, the two border openings, an
/// otherwise untouched interior, an open run of walls between each pair
/// of consecutive waypoints, and no wall `Off` beyond the two openings
/// and the walls those runs crossed.
pub open spec fn carve_commit_ok(g: CellGrid, wp: Seq<PathPoint>) -> bool {
    &&& 2 <= wp.len()
    &&& waypoints_ok(wp, g.spec_width(), g.spec_height())
    &&& corner_pt(g.spec_width(), g.spec_height(), wp[0].point)
    &&& border_pt(g.spec_width(), g.spec_height(), wp[wp.len() - 1].point)
    &&& route_kinds_ok(g, wp)
    &&& border_openings_ok(g, wp[0].point, wp[wp.len() - 1].point)
    &&& interior_unraised(g)
    &&& forall|i: int|
        0 <= i < wp.len() - 1 ==> #[trigger] run_open(g, wp[i], wp[i + 1].point)
    &&& forall|cx: int, cy: int, l: bool|
        g.in_bounds(cx, cy) && (#[trigger] wall_state(g, cx, cy, l)) is Off ==> {
            ||| border_wall_of_point(
                g.spec_width(),
                g.spec_height(),
                wp[0].point.0 as int,
                wp[0].point.1 as int,
                cx,
                cy,
                l,
            )
            ||| border_wall_of_point(
                g.spec_width(),
                g.spec_height(),
                wp[wp.len() - 1].point.0 as int,
                wp[wp.len() - 1].point.1 as int,
                cx,
                cy,
                l,
            )
            ||| route_crossed_wall(wp, cx, cy, l)
        }
}

/// What one randomization pass does to a wall. A decided wall (`On` or
/// `Off`) is untouched; an undecided or tentative wall is proposed anew,
/// and with the configured 1-in-1 chance the proposal always lands, so it
/// comes out tentative.
pub open spec fn proposed_edge(e: EdgeState) -> EdgeState {
    match e {
        EdgeState::Unset => EdgeState::ProvisionallyOn,
        EdgeState::ProvisionallyOn => EdgeState::ProvisionallyOn,
        other => other,
    }
}

/// What one randomization pass does to a cell: the kind is kept and both
/// walls are re-proposed.
pub open spec fn proposed_cell(c: GridCell) -> GridCell {
    GridCell {
        kind: c.kind,
        left_edge: proposed_edge(c.left_edge),
        bottom_edge: proposed_edge(c.bottom_edge),
    }
}

/// What must hold of the grid for the stage to be legitimate: the carve
/// stage starts from a freshly bordered grid, and every stage from edge
/// repair onward keeps the density invariant.
pub open spec fn stage_ok(stage: GenStage, g: CellGrid) -> bool
    decreases stage,
{
    match stage {
        GenStage::Borders => all_cells_empty(g),
        GenStage::Path => borders_just_filled(g),
        GenStage::EnableEdgesRandomly => true,
        GenStage::EraseInvalidEdges(_) => density_ok(g),
        GenStage::Rest => density_ok(g),
        GenStage::Done => density_ok(g),
        GenStage::TimedTransition(_, next) => stage_ok(*next, g),
    }
}

/// Pausing before a stage asks the same of the grid as the stage itself.
pub proof fn lemma_timed_stage_ok(millis: u64, next: GenStage, g: CellGrid)
    ensures
        stage_ok(GenStage::TimedTransition(millis, Box::new(next)), g) == stage_ok(next, g),
{
}

/// The state of the vertical border wall adjacent to the border point
/// `p`, where `p` has one: on the left border that is `p`'s own left
/// wall, on the right border the left wall of the cell just outside.
pub open spec fn v_border_wall_state(g: CellGrid, p: XY) -> Option<EdgeState> {
    let w = g.spec_width();
    if p.0 == 0 {
        Some(g.at(0, p.1 as int).left_edge)
    } else if p.0 == w - 2 {
        Some(g.at(w - 1, p.1 as int).left_edge)
    } else {
        None
    }
}

/// The state of the horizontal border wall adjacent to the border point
/// `p`, where `p` has one.
pub open spec fn h_border_wall_state(g: CellGrid, p: XY) -> Option<EdgeState> {
    let h = g.spec_height();
    if p.1 == 0 {
        Some(g.at(p.0 as int, 0).bottom_edge)
    } else if p.1 == h - 2 {
        Some(g.at(p.0 as int, h - 1).bottom_edge)
    } else {
        None
    }
}

/// Exactly one of the border walls adjacent to `p` stands open, and any
/// other one stands `On`.
pub open spec fn one_border_opening_at(g: CellGrid, p: XY) -> bool {
    match (v_border_wall_state(g, p), h_border_wall_state(g, p)) {
        (Some(a), Some(b)) => (a is Off && b is On) || (a is On && b is Off),
        (Some(a), None) => a is Off,
        (None, Some(b)) => b is Off,
        (None, None) => false,
    }
}

/// Law: the grid of a well-formed engine that has reached the terminal
/// stage satisfies the density invariant: every 2-by-2 block of
/// conceptual cells keeps at least one of its internal walls.
pub proof fn lemma_done_grid_density(s: &GridState)
    requires
        s.wf(),
        s.state.stage is Done,
    ensures
        density_ok(s.grid),
{
}

/// Law: a committed route consists of exactly the asked-for number of
/// waypoints; the first carries step mark 0, the last the end mark, the
/// ones between their step number, and each consecutive pair is joined
/// by an unbroken run of open walls.
pub proof fn lemma_committed_route_shape(g: CellGrid, wp: Seq<PathPoint>, count: usize)
    requires
        carve_commit_ok(g, wp),
        wp.len() == count,
    ensures
        g.at(wp[0].point.0 as int, wp[0].point.1 as int).kind == GridCellKind::Path(0),
        g.at(
            wp[count - 1].point.0 as int,
            wp[count - 1].point.1 as int,
        ).kind is End,
        forall|i: int|
            0 < i < count - 1 ==> g.at(
                (#[trigger] wp[i]).point.0 as int,
                wp[i].point.1 as int,
            ).kind == GridCellKind::Path(i as usize),
        forall|i: int| 0 <= i < count - 1 ==> #[trigger] run_open(g, wp[i], wp[i + 1].point),
{
    assert(g.at(wp[0].point.0 as int, wp[0].point.1 as int).kind == mark_kind(
        0,
        wp.len() as int,
    ));
}

/// Law: right after carving, exactly one border wall stands open at the
/// route's start waypoint, exactly one at its end waypoint, and every
/// border wall adjacent to neither stands `On`.
#[verifier::rlimit(100)]
pub proof fn lemma_carve_border_openings(g: CellGrid, wp: Seq<PathPoint>)
    requires
        carve_commit_ok(g, wp),
        g.spec_width() >= 4,
        g.spec_height() >= 4,
    ensures
        one_border_opening_at(g, wp[0].point),
        one_border_opening_at(g, wp[wp.len() - 1].point),
        forall|cx: int, cy: int, l: bool|
            is_border_wall(g.spec_width(), g.spec_height(), cx, cy, l)
                && !border_wall_of_point(
                g.spec_width(),
                g.spec_height(),
                wp[0].point.0 as int,
                wp[0].point.1 as int,
                cx,
                cy,
                l,
            ) && !border_wall_of_point(
                g.spec_width(),
                g.spec_height(),
                wp[wp.len() - 1].point.0 as int,
                wp[wp.len() - 1].point.1 as int,
                cx,
                cy,
                l,
            ) ==> #[trigger] wall_state(g, cx, cy, l) is On,
{
    let w = g.spec_width();
    let h = g.spec_height();
    let s = wp[0].point;
    let e = wp[wp.len() - 1].point;
    assert(s != e);
    let (c1, c2) = choose|c1: (int, int, bool), c2: (int, int, bool)|
        #[trigger] opening_pair_ok(g, s, e, c1, c2);

    // A border wall opened for one waypoint is adjacent to that waypoint
    // alone, so the start's opening and the end's never coincide with
    // each other's remaining candidates.
    assert(conceptual_pt(w, h, s));
    assert(conceptual_pt(w, h, e));
    assert(one_border_opening_at(g, s)) by {
        if s.0 == 0 {
            assert(wall_state(g, 0, s.1 as int, true) == g.at(0, s.1 as int).left_edge);
        }
        if s.0 == w - 2 {
            assert(wall_state(g, w - 1, s.1 as int, true) == g.at(
                w - 1,
                s.1 as int,
            ).left_edge);
        }
        if s.1 == 0 {
            assert(wall_state(g, s.0 as int, 0, false) == g.at(s.0 as int, 0).bottom_edge);
        }
        if s.1 == h - 2 {
            assert(wall_state(g, s.0 as int, h - 1, false) == g.at(
                s.0 as int,
                h - 1,
            ).bottom_edge);
        }
    }
    assert(one_border_opening_at(g, e)) by {
        if e.0 == 0 {
            assert(wall_state(g, 0, e.1 as int, true) == g.at(0, e.1 as int).left_edge);
        }
        if e.0 == w - 2 {
            assert(wall_state(g, w - 1, e.1 as int, true) == g.at(
                w - 1,
                e.1 as int,
            ).left_edge);
        }
        if e.1 == 0 {
            assert(wall_state(g, e.0 as int, 0, false) == g.at(e.0 as int, 0).bottom_edge);
        }
        if e.1 == h - 2 {
            assert(wall_state(g, e.0 as int, h - 1, false) == g.at(
                e.0 as int,
                h - 1,
            ).bottom_edge);
        }
    }
}

/// Reachability composes: a cell reached from `b` is reached from
/// anywhere that reaches `b`.
pub proof fn lemma_reaches_trans(g: CellGrid, a: XY, b: XY, cx: int, cy: int, n: nat)
    requires
        reachable(g, a, b.0 as int, b.1 as int),
        reaches(g, b, cx, cy, n),
    ensures
        reachable(g, a, cx, cy),
    decreases n,
{
    if n == 0 {
    } else {
        let (px, py) = choose|px: int, py: int|
            reaches(g, b, px, py, (n - 1) as nat) && #[trigger] open_step(g, px, py, cx, cy);
        lemma_reaches_trans(g, a, b, px, py, (n - 1) as nat);
        lemma_reach_step(g, a, px, py, cx, cy);
    }
}

/// A straight run of open walls makes its far end reachable from its
/// near end.
pub proof fn lemma_run_reachable(g: CellGrid, p: PathPoint, q: XY)
    requires
        g.spec_width() >= 4,
        g.spec_height() >= 4,
        conceptual_pt(g.spec_width(), g.spec_height(), p.point),
        conceptual_pt(g.spec_width(), g.spec_height(), q),
        advances(p, q),
        run_open(g, p, q),
    ensures
        reachable(g, p.point, q.0 as int, q.1 as int),
    decreases
            (if p.point.0 as int <= q.0 {
                q.0 - p.point.0
            } else {
                p.point.0 - q.0
            }) + (if p.point.1 as int <= q.1 {
                q.1 - p.point.1
            } else {
                p.point.1 - q.1
            }),
{
    match p.dir {
        Direction::Up => {
            if q.1 == p.point.1 + 1 {
                assert(reaches(g, p.point, p.point.0 as int, p.point.1 as int, 0));
                lemma_reach_step(
                    g,
                    p.point,
                    p.point.0 as int,
                    p.point.1 as int,
                    q.0 as int,
                    q.1 as int,
                );
            } else {
                let q2 = XY(q.0, (q.1 - 1) as usize);
                lemma_run_reachable(g, p, q2);
                lemma_reach_step(g, p.point, q2.0 as int, q2.1 as int, q.0 as int, q.1 as int);
            }
        },
        Direction::Down => {
            if q.1 + 1 == p.point.1 {
                assert(reaches(g, p.point, p.point.0 as int, p.point.1 as int, 0));
                lemma_reach_step(
                    g,
                    p.point,
                    p.point.0 as int,
                    p.point.1 as int,
                    q.0 as int,
                    q.1 as int,
                );
            } else {
                let q2 = XY(q.0, (q.1 + 1) as usize);
                lemma_run_reachable(g, p, q2);
                lemma_reach_step(g, p.point, q2.0 as int, q2.1 as int, q.0 as int, q.1 as int);
            }
        },
        Direction::Left => {
            if q.0 + 1 == p.point.0 {
                assert(reaches(g, p.point, p.point.0 as int, p.point.1 as int, 0));
                lemma_reach_step(
                    g,
                    p.point,
                    p.point.0 as int,
                    p.point.1 as int,
                    q.0 as int,
                    q.1 as int,
                );
            } else {
                let q2 = XY((q.0 + 1) as usize, q.1);
                lemma_run_reachable(g, p, q2);
                lemma_reach_step(g, p.point, q2.0 as int, q2.1 as int, q.0 as int, q.1 as int);
            }
        },
        Direction::Right => {
            if q.0 == p.point.0 + 1 {
                assert(reaches(g, p.point, p.point.0 as int, p.point.1 as int, 0));
                lemma_reach_step(
                    g,
                    p.point,
                    p.point.0 as int,
                    p.point.1 as int,
                    q.0 as int,
                    q.1 as int,
                );
            } else {
                let q2 = XY((q.0 - 1) as usize, q.1);
                lemma_run_reachable(g, p, q2);
                lemma_reach_step(g, p.point, q2.0 as int, q2.1 as int, q.0 as int, q.1 as int);
            }
        },
    }
}

/// Every waypoint of a committed route is reachable from the first one.
pub proof fn lemma_route_connected(g: CellGrid, wp: Seq<PathPoint>, i: int)
    requires
        carve_commit_ok(g, wp),
        g.spec_width() >= 4,
        g.spec_height() >= 4,
        0 <= i < wp.len(),
    ensures
        reachable(g, wp[0].point, wp[i].point.0 as int, wp[i].point.1 as int),
    decreases i,
{
    if i == 0 {
        assert(reaches(g, wp[0].point, wp[0].point.0 as int, wp[0].point.1 as int, 0));
    } else {
        lemma_route_connected(g, wp, i - 1);
        assert(run_open(g, wp[i - 1], wp[(i - 1) + 1].point));
        lemma_run_reachable(g, wp[i - 1], wp[i].point);
        let n = choose|n: nat|
            #[trigger] reaches(g, wp[i - 1].point, wp[i].point.0 as int, wp[i].point.1 as int, n);
        lemma_reaches_trans(
            g,
            wp[0].point,
            wp[i - 1].point,
            wp[i].point.0 as int,
            wp[i].point.1 as int,
            n,
        );
    }
}

/// A closed, start-marked traversal covers everything reachable from
/// its start.
pub proof fn lemma_flood_fill_complete(
    g: CellGrid,
    t: Grid<bool>,
    s: XY,
    x: int,
    y: int,
    n: nat,
)
    requires
        t.spec_width() == g.spec_width() - 1,
        t.spec_height() == g.spec_height() - 1,
        s.0 <= g.spec_width() - 2,
        s.1 <= g.spec_height() - 2,
        t.at(s.0 as int, s.1 as int) == true,
        forall|a: int, b: int|
            t.in_bounds(a, b) && #[trigger] t.at(a, b) ==> closed_at(g, t, a, b),
        reaches(g, s, x, y, n),
    ensures
        t.at(x, y) == true,
    decreases n,
{
    if n == 0 {
    } else {
        let (px, py) = choose|px: int, py: int|
            reaches(g, s, px, py, (n - 1) as nat) && #[trigger] open_step(g, px, py, x, y);
        lemma_flood_fill_complete(g, t, s, px, py, (n - 1) as nat);
        assert(closed_at(g, t, px, py));
    }
}

/// Law: right after carving, the end waypoint is reachable from the
/// start waypoint over open walls alone, and any closed, start-marked
/// flood fill - such as the one `visit_all` computes - reaches it.
pub proof fn lemma_carved_route_flood_fill(g: CellGrid, wp: Seq<PathPoint>, t: Grid<bool>)
    requires
        carve_commit_ok(g, wp),
        g.spec_width() >= 4,
        g.spec_height() >= 4,
        t.spec_width() == g.spec_width() - 1,
        t.spec_height() == g.spec_height() - 1,
        t.at(wp[0].point.0 as int, wp[0].point.1 as int) == true,
        forall|a: int, b: int|
            t.in_bounds(a, b) && #[trigger] t.at(a, b) ==> closed_at(g, t, a, b),
    ensures
        reachable(g, wp[0].point, wp[wp.len() - 1].point.0 as int, wp[wp.len() - 1].point.1 as int),
        t.at(wp[wp.len() - 1].point.0 as int, wp[wp.len() - 1].point.1 as int) == true,
{
    lemma_route_connected(g, wp, wp.len() - 1);
    let s = wp[0].point;
    let e = wp[wp.len() - 1].point;
    let n = choose|n: nat| #[trigger] reaches(g, s, e.0 as int, e.1 as int, n);
    assert(conceptual_pt(g.spec_width(), g.spec_height(), s));
    lemma_flood_fill_complete(g, t, s, e.0 as int, e.1 as int, n);
}

/// The flat grid index of the `j`-th waypoint.
pub open spec fn wp_flat(wp: Seq<PathPoint>, w: int, j: int) -> int {
    (wp[j].point.1 as int) * w + wp[j].point.0 as int
}

/// How many waypoints sit at a flat index below `n`.
pub open spec fn count_flat_lt(wp: Seq<PathPoint>, w: int, n: int) -> int
    decreases wp.len(),
{
    if wp.len() == 0 {
        0
    } else {
        count_flat_lt(wp.drop_last(), w, n) + (if wp_flat(wp, w, wp.len() - 1) < n {
            1int
        } else {
            0int
        })
    }
}

/// Below index zero there are no waypoints.
proof fn lemma_count_flat_zero(wp: Seq<PathPoint>, w: int)
    requires
        0 <= w,
    ensures
        count_flat_lt(wp, w, 0) == 0,
    decreases wp.len(),
{
    if wp.len() > 0 {
        lemma_count_flat_zero(wp.drop_last(), w);
        let j = wp.len() - 1;
        assert(wp_flat(wp, w, j) >= 0) by (nonlinear_arith)
            requires
                0 <= w,
                wp_flat(wp, w, j) == (wp[j].point.1 as int) * w + wp[j].point.0 as int,
                wp[j].point.1 >= 0,
                wp[j].point.0 >= 0,
        ;
    }
}

/// When every waypoint sits below `n`, all of them are counted.
proof fn lemma_count_flat_all(wp: Seq<PathPoint>, w: int, n: int)
    requires
        forall|j: int| 0 <= j < wp.len() ==> #[trigger] wp_flat(wp, w, j) < n,
    ensures
        count_flat_lt(wp, w, n) == wp.len(),
    decreases wp.len(),
{
    if wp.len() > 0 {
        let pre = wp.drop_last();
        assert forall|j: int| 0 <= j < pre.len() implies #[trigger] wp_flat(pre, w, j) < n by {
            assert(wp_flat(wp, w, j) < n);
        }
        lemma_count_flat_all(pre, w, n);
    }
}

/// Raising the bound past an index no waypoint occupies counts nothing
/// new.
proof fn lemma_count_flat_step_zero(wp: Seq<PathPoint>, w: int, n: int)
    requires
        forall|j: int| 0 <= j < wp.len() ==> #[trigger] wp_flat(wp, w, j) != n - 1,
    ensures
        count_flat_lt(wp, w, n) == count_flat_lt(wp, w, n - 1),
    decreases wp.len(),
{
    if wp.len() > 0 {
        let pre = wp.drop_last();
        assert forall|j: int| 0 <= j < pre.len() implies #[trigger] wp_flat(pre, w, j) != n
            - 1 by {
            assert(wp_flat(wp, w, j) != n - 1);
        }
        lemma_count_flat_step_zero(pre, w, n);
        assert(wp_flat(wp, w, wp.len() - 1) != n - 1);
    }
}

/// Raising the bound past the one index the waypoint `j` occupies counts
/// exactly that waypoint.
proof fn lemma_count_flat_step_one(wp: Seq<PathPoint>, w: int, n: int, j: int)
    requires
        0 <= j < wp.len(),
        wp_flat(wp, w, j) == n - 1,
        forall|a: int, b: int|
            0 <= a < b < wp.len() ==> #[trigger] wp_flat(wp, w, a) != #[trigger] wp_flat(
                wp,
                w,
                b,
            ),
    ensures
        count_flat_lt(wp, w, n) == count_flat_lt(wp, w, n - 1) + 1,
    decreases wp.len(),
{
    let pre = wp.drop_last();
    if j == wp.len() - 1 {
        assert forall|a: int| 0 <= a < pre.len() implies #[trigger] wp_flat(pre, w, a) != n
            - 1 by {
            assert(wp_flat(wp, w, a) != wp_flat(wp, w, j));
        }
        lemma_count_flat_step_zero(pre, w, n);
    } else {
        assert forall|a: int, b: int|
            0 <= a < b < pre.len() implies #[trigger] wp_flat(pre, w, a) != #[trigger] wp_flat(
            pre,
            w,
            b,
        ) by {
            assert(wp_flat(wp, w, a) != wp_flat(wp, w, b));
        }
        assert(wp_flat(pre, w, j) == wp_flat(wp, w, j));
        lemma_count_flat_step_one(pre, w, n, j);
        assert(wp_flat(wp, w, wp.len() - 1) != wp_flat(wp, w, j));
    }
}

/// Among the first `n` cells, the extracted positions are exactly the
/// waypoints that sit there: the counts agree.
#[verifier::rlimit(100)]
proof fn lemma_extract_counts(g: CellGrid, wp: Seq<PathPoint>, n: int)
    requires
        g.wf(),
        g.spec_width() >= 4,
        g.spec_height() >= 4,
        carve_commit_ok(g, wp),
        0 <= n <= g@.len(),
        forall|a: int, b: int|
            0 <= a < b < wp.len() ==> #[trigger] wp_flat(wp, g.spec_width(), a)
                != #[trigger] wp_flat(wp, g.spec_width(), b),
    ensures
        extract_upto(g, n).len() == count_flat_lt(wp, g.spec_width(), n),
    decreases n,
{
    let w = g.spec_width();
    let h = g.spec_height();
    if n == 0 {
        lemma_count_flat_zero(wp, w);
    } else {
        lemma_extract_counts(g, wp, n - 1);
        let i = n - 1;
        vstd::arithmetic::div_mod::lemma_fundamental_div_mod(i, w);
        vstd::arithmetic::div_mod::lemma_mod_bound(i, w);
        let x = i % w;
        let y = i / w;
        assert(0 <= y < h) by (nonlinear_arith)
            requires
                i == w * y + x,
                0 <= x < w,
                0 <= i < w * h,
                w > 0,
        ;
        assert(g.at(x, y) == g@[i]) by {
            assert(y * w + x == i) by (nonlinear_arith)
                requires
                    i == w * y + x,
            ;
        }
        if is_waypoint_kind(g@[i].kind) {
            // This cell carries a route mark, so some waypoint sits here.
            assert(wp_has_pt(wp, x, y));
            let j = choose|j: int|
                0 <= j < wp.len() && (#[trigger] wp[j]).point.0 == x && wp[j].point.1 == y;
            assert(wp_flat(wp, w, j) == i) by (nonlinear_arith)
                requires
                    wp[j].point.0 == x,
                    wp[j].point.1 == y,
                    i == w * y + x,
            ;
            lemma_count_flat_step_one(wp, w, n, j);
        } else {
            assert forall|j: int| 0 <= j < wp.len() implies #[trigger] wp_flat(wp, w, j) != n
                - 1 by {
                if wp_flat(wp, w, j) == i {
                    let jx = wp[j].point.0 as int;
                    let jy = wp[j].point.1 as int;
                    assert(conceptual_pt(w, h, wp[j].point));
                    crate::grid::lemma_flat_index_injective(w, jx, jy, x, y);
                    assert(g.at(x, y).kind == mark_kind(j, wp.len() as int));
                }
            }
            lemma_count_flat_step_zero(wp, w, n);
        }
    }
}

/// Law: the committed route, as the engine records it, has exactly as
/// many positions as the walk had waypoints: one per route mark in the
/// grid.
pub proof fn lemma_committed_route_count(g: CellGrid, wp: Seq<PathPoint>)
    requires
        g.wf(),
        g.spec_width() >= 4,
        g.spec_height() >= 4,
        carve_commit_ok(g, wp),
    ensures
        extract_upto(g, g@.len() as int).len() == wp.len(),
{
    let w = g.spec_width();
    let h = g.spec_height();
    assert forall|a: int, b: int|
        0 <= a < b < wp.len() implies #[trigger] wp_flat(wp, g.spec_width(), a)
            != #[trigger] wp_flat(wp, g.spec_width(), b) by {
        if wp_flat(wp, w, a) == wp_flat(wp, w, b) {
            assert(conceptual_pt(w, h, wp[a].point));
            assert(conceptual_pt(w, h, wp[b].point));
            crate::grid::lemma_flat_index_injective(
                w,
                wp[a].point.0 as int,
                wp[a].point.1 as int,
                wp[b].point.0 as int,
                wp[b].point.1 as int,
            );
        }
    }
    lemma_extract_counts(g, wp, g@.len() as int);
    assert forall|j: int| 0 <= j < wp.len() implies #[trigger] wp_flat(wp, w, j) < g@.len() by {
        assert(conceptual_pt(w, h, wp[j].point));
        crate::grid::lemma_flat_index_in_range(
            w,
            h,
            wp[j].point.0 as int,
            wp[j].point.1 as int,
        );
    }
    lemma_count_flat_all(wp, w, g@.len() as int);
}

/// Law: once a carve tick has committed a route, the route the engine
/// records holds exactly the asked-for number of positions.
pub proof fn lemma_recorded_route_count(s: &GridState, wp: Seq<PathPoint>)
    requires
        s.grid.wf(),
        s.grid.spec_width() >= 4,
        s.grid.spec_height() >= 4,
        carve_commit_ok(s.grid, wp),
        wp.len() == s.path_point_count,
        s.path@ == extract_upto(s.grid, s.grid@.len() as int),
    ensures
        s.path@.len() == s.path_point_count,
{
    lemma_committed_route_count(s.grid, wp);
}

/// Law: a generation step that never closes an open wall - the density
/// filler, the repairer and the rest stage all state as much - carries
/// the carved route's open runs along unchanged, so the route survives
/// to the finished grid.
pub proof fn lemma_route_stays_open(g1: CellGrid, g2: CellGrid, wp: Seq<PathPoint>)
    requires
        g2.spec_width() == g1.spec_width(),
        g2.spec_height() == g1.spec_height(),
        g1.spec_width() >= 4,
        g1.spec_height() >= 4,
        waypoints_ok(wp, g1.spec_width(), g1.spec_height()),
        2 <= wp.len(),
        forall|i: int|
            0 <= i < wp.len() - 1 ==> #[trigger] run_open(g1, wp[i], wp[i + 1].point),
        forall|cx: int, cy: int, l: bool|
            g1.in_bounds(cx, cy) && (#[trigger] wall_state(g1, cx, cy, l)) is Off
                ==> wall_state(g2, cx, cy, l) is Off,
    ensures
        forall|i: int|
            0 <= i < wp.len() - 1 ==> #[trigger] run_open(g2, wp[i], wp[i + 1].point),
{
    assert forall|i: int|
        0 <= i < wp.len() - 1 implies #[trigger] run_open(g2, wp[i], wp[i + 1].point) by {
        let p = wp[i];
        let q = wp[i + 1].point;
        assert(run_open(g1, p, q));
        assert(conceptual_pt(g1.spec_width(), g1.spec_height(), p.point));
        assert(conceptual_pt(g1.spec_width(), g1.spec_height(), q));
        match p.dir {
            Direction::Up => {
                assert forall|yy: int|
                    p.point.1 < yy <= q.1 implies (#[trigger] g2.at(
                        p.point.0 as int,
                        yy,
                    )).bottom_edge is Off by {
                    assert(g1.at(p.point.0 as int, yy).bottom_edge is Off);
                    assert(wall_state(g1, p.point.0 as int, yy, false) is Off);
                }
            },
            Direction::Down => {
                assert forall|yy: int|
                    q.1 < yy <= p.point.1 implies (#[trigger] g2.at(
                        p.point.0 as int,
                        yy,
                    )).bottom_edge is Off by {
                    assert(g1.at(p.point.0 as int, yy).bottom_edge is Off);
                    assert(wall_state(g1, p.point.0 as int, yy, false) is Off);
                }
            },
            Direction::Left => {
                assert forall|xx: int|
                    q.0 < xx <= p.point.0 implies (#[trigger] g2.at(
                        xx,
                        p.point.1 as int,
                    )).left_edge is Off by {
                    assert(g1.at(xx, p.point.1 as int).left_edge is Off);
                    assert(wall_state(g1, xx, p.point.1 as int, true) is Off);
                }
            },
            Direction::Right => {
                assert forall|xx: int|
                    p.point.0 < xx <= q.0 implies (#[trigger] g2.at(
                        xx,
                        p.point.1 as int,
                    )).left_edge is Off by {
                    assert(g1.at(xx, p.point.1 as int).left_edge is Off);
                    assert(wall_state(g1, xx, p.point.1 as int, true) is Off);
                }
            },
        }
    }
}

/// Law: a generation step that leaves every border wall as it stood
/// keeps the route's border openings: the opened wall stays the only
/// open one at its waypoint.
pub proof fn lemma_openings_stay(g1: CellGrid, g2: CellGrid, p: XY)
    requires
        g2.spec_width() == g1.spec_width(),
        g2.spec_height() == g1.spec_height(),
        g1.spec_width() >= 4,
        g1.spec_height() >= 4,
        conceptual_pt(g1.spec_width(), g1.spec_height(), p),
        one_border_opening_at(g1, p),
        forall|cx: int, cy: int, l: bool|
            is_border_wall(g1.spec_width(), g1.spec_height(), cx, cy, l)
                ==> #[trigger] wall_state(g2, cx, cy, l) == wall_state(g1, cx, cy, l),
    ensures
        one_border_opening_at(g2, p),
{
    let w = g1.spec_width();
    let h = g1.spec_height();
    if p.0 == 0 {
        assert(wall_state(g2, 0, p.1 as int, true) == wall_state(g1, 0, p.1 as int, true));
    } else if p.0 == w - 2 {
        assert(wall_state(g2, w - 1, p.1 as int, true) == wall_state(
            g1,
            w - 1,
            p.1 as int,
            true,
        ));
    }
    if p.1 == 0 {
        assert(wall_state(g2, p.0 as int, 0, false) == wall_state(g1, p.0 as int, 0, false));
    } else if p.1 == h - 2 {
        assert(wall_state(g2, p.0 as int, h - 1, false) == wall_state(
            g1,
            p.0 as int,
            h - 1,
            false,
        ));
    }
}

impl GenStage {
    /// A structurally equal copy of the stage value.
    pub fn duplicate(&self) -> (r: GenStage)
        ensures
            r == *self,
        decreases self,
    {
        match self {
            GenStage::Borders => GenStage::Borders,
            GenStage::Path => GenStage::Path,
            GenStage::EnableEdgesRandomly => GenStage::EnableEdgesRandomly,
            GenStage::EraseInvalidEdges(i) => GenStage::EraseInvalidEdges(*i),
            GenStage::Rest => GenStage::Rest,
            GenStage::Done => GenStage::Done,
            GenStage::TimedTransition(d, next) => GenStage::TimedTransition(
                *d,
                Box::new(next.duplicate()),
            ),
        }
    }
}

impl GenState {
    /// Enter `stage` at host instant `now_ms`.
    pub fn new(stage: GenStage, now_ms: u64) -> (r: GenState)
        ensures
            r.stage == stage,
            r.entry_ms == now_ms,
    {
        GenState { stage, entry_ms: now_ms }
    }
}

impl GridState {
    /// The engine's structural invariant: a well-formed grid of workable
    /// size, a route of at least two waypoints asked for, and a grid that
    /// fits the active stage.
    pub open spec fn wf(&self) -> bool {
        &&& self.grid.wf()
        &&& self.grid.spec_width() >= 4
        &&& self.grid.spec_height() >= 4
        &&& self.path_point_count >= 2
        &&& stage_ok(self.state.stage, self.grid)
    }

    /// Everything except the stage record and the random source is kept.
    pub open spec fn same_but_state(a: GridState, b: GridState) -> bool {
        &&& a.grid == b.grid
        &&& a.path == b.path
        &&& a.next_command == b.next_command
        &&& a.path_point_count == b.path_point_count
        &&& a.rng == b.rng
    }

    /// A fresh engine: a blank grid of the given dimensions, the random
    /// source seeded with `seed`, generation restarted at the border
    /// stage as of host instant `now_ms`.
    pub fn new(
        seed: u64,
        width: usize,
        height: usize,
        path_point_count: usize,
        now_ms: u64,
    ) -> (r: GridState)
        requires
            4 <= width,
            4 <= height,
            width * height <= usize::MAX,
            2 <= path_point_count,
        ensures
            r.wf(),
            r.grid.spec_width() == width,
            r.grid.spec_height() == height,
            all_cells_blank(r.grid),
            r.path@.len() == 0,
            r.next_command is None,
            r.state.stage is Borders,
            r.state.entry_ms == now_ms,
            r.path_point_count == path_point_count,
    {
        let mut gs = GridState {
            rng: rng_from_seed(seed),
            grid: CellGrid::new(width, height, &GridCell::new()),
            path: Vec::new(),
            next_command: None,
            state: GenState::new(GenStage::Borders, now_ms),
            path_point_count,
        };
        gs.start_generate_maze(now_ms);
        gs
    }

    /// Replace the active stage, entered as of `now_ms`.
    pub fn set_stage(&mut self, stage: GenStage, now_ms: u64)
        ensures
            final(self).state.stage == stage,
            final(self).state.entry_ms == now_ms,
            Self::same_but_state(*old(self), *final(self)),
    {
        self.state = GenState::new(stage, now_ms);
    }

    /// Replace the active stage with a pause of `millis` milliseconds
    /// that then hands over to `stage`.
    pub fn set_stage_delayed(&mut self, stage: GenStage, millis: u64, now_ms: u64)
        ensures
            final(self).state.stage == GenStage::TimedTransition(millis, Box::new(stage)),
            final(self).state.entry_ms == now_ms,
            Self::same_but_state(*old(self), *final(self)),
    {
        self.state = GenState::new(
            GenStage::TimedTransition(millis, Box::new(stage)),
            now_ms,
        );
    }

    /// Throw the current grid and route away and restart generation at
    /// the border stage. The random stream continues where it stood.
    pub fn start_generate_maze(&mut self, now_ms: u64)
        requires
            old(self).grid.wf(),
        ensures
            final(self).grid.wf(),
            final(self).grid.spec_width() == old(self).grid.spec_width(),
            final(self).grid.spec_height() == old(self).grid.spec_height(),
            all_cells_blank(final(self).grid),
            final(self).path@.len() == 0,
            final(self).state.stage is Borders,
            final(self).state.entry_ms == now_ms,
            final(self).rng == old(self).rng,
            final(self).next_command == old(self).next_command,
            final(self).path_point_count == old(self).path_point_count,
    {
        let width = self.grid.width();
        let height = self.grid.height();
        self.grid = CellGrid::new(width, height, &GridCell::new());
        self.set_stage(GenStage::Borders, now_ms);
        self.path.clear();
        proof {
            assert forall|x: int, y: int| self.grid.in_bounds(x, y)
                implies #[trigger] self.grid.at(x, y) == (GridCell {
                    kind: GridCellKind::Empty,
                    left_edge: EdgeState::Unset,
                    bottom_edge: EdgeState::Unset,
                }) by {
                crate::grid::lemma_flat_index_in_range(
                    self.grid.spec_width(),
                    self.grid.spec_height(),
                    x,
                    y,
                );
            }
        }
    }

    /// Walk the grid and raise the boundary of the conceptual maze: every
    /// border wall `On`, every other wall back to undecided, route marks
    /// untouched. Then schedule the carve stage after a pacing delay.
    #[verifier::loop_isolation(false)]
    pub fn fill_borders(&mut self, now_ms: u64)
        requires
            old(self).wf(),
            old(self).state.stage is Borders,
        ensures
            final(self).wf(),
            borders_just_filled(final(self).grid),
            final(self).grid.spec_width() == old(self).grid.spec_width(),
            final(self).grid.spec_height() == old(self).grid.spec_height(),
            final(self).state.stage == GenStage::TimedTransition(
                PATH_DELAY_MS,
                Box::new(GenStage::Path),
            ),
            final(self).state.entry_ms == now_ms,
            final(self).path == old(self).path,
            final(self).next_command == old(self).next_command,
            final(self).rng == old(self).rng,
            final(self).path_point_count == old(self).path_point_count,
    {
        let width = self.grid.width();
        let height = self.grid.height();
        let ghost w = self.grid.spec_width();
        let ghost h = self.grid.spec_height();

        let mut y: usize = 0;
        while y < height
            invariant
                y <= height,
                self.grid.wf(),
                self.grid.spec_width() == w,
                self.grid.spec_height() == h,
                forall|xx: int, yy: int|
                    0 <= xx < w && 0 <= yy < y ==> #[trigger] self.grid.at(xx, yy)
                        == (GridCell {
                            kind: GridCellKind::Empty,
                            left_edge: border_left_state(w, h, xx, yy),
                            bottom_edge: border_bottom_state(w, h, xx, yy),
                        }),
                forall|xx: int, yy: int|
                    0 <= xx < w && y <= yy < h
                        ==> (#[trigger] self.grid.at(xx, yy)).kind is Empty,
                self.path == old(self).path,
                self.next_command == old(self).next_command,
                self.rng == old(self).rng,
                self.state == old(self).state,
                self.path_point_count == old(self).path_point_count,
            decreases height - y,
        {
            let mut x: usize = 0;
            while x < width
                invariant
                    x <= width,
                    y < height,
                    self.grid.wf(),
                    self.grid.spec_width() == w,
                    self.grid.spec_height() == h,
                    forall|xx: int, yy: int|
                        0 <= xx < w && 0 <= yy < y ==> #[trigger] self.grid.at(xx, yy)
                            == (GridCell {
                                kind: GridCellKind::Empty,
                                left_edge: border_left_state(w, h, xx, yy),
                                bottom_edge: border_bottom_state(w, h, xx, yy),
                            }),
                    forall|xx: int|
                        0 <= xx < x ==> #[trigger] self.grid.at(xx, y as int)
                            == (GridCell {
                                kind: GridCellKind::Empty,
                                left_edge: border_left_state(w, h, xx, y as int),
                                bottom_edge: border_bottom_state(w, h, xx, y as int),
                            }),
                    forall|xx: int|
                        x <= xx < w
                            ==> (#[trigger] self.grid.at(xx, y as int)).kind is Empty,
                    forall|xx: int, yy: int|
                        0 <= xx < w && y < yy < h
                            ==> (#[trigger] self.grid.at(xx, yy)).kind is Empty,
                    self.path == old(self).path,
                    self.next_command == old(self).next_command,
                    self.rng == old(self).rng,
                    self.state == old(self).state,
                    self.path_point_count == old(self).path_point_count,
                decreases width - x,
            {
                let cell = *self.grid.xy(x, y);
                let bottom = if x != width - 1 && (y == 0 || y == height - 1) {
                    EdgeState::On
                } else {
                    EdgeState::Unset
                };
                let left = if y != height - 1 && (x == 0 || x == width - 1) {
                    EdgeState::On
                } else {
                    EdgeState::Unset
                };
                self.grid.set_xy(x, y, GridCell {
                    kind: cell.kind,
                    left_edge: left,
                    bottom_edge: bottom,
                });
                x = x + 1;
            }
            y = y + 1;
        }

        self.set_stage_delayed(GenStage::Path, PATH_DELAY_MS, now_ms);
        proof {
            lemma_timed_stage_ok(PATH_DELAY_MS, GenStage::Path, self.grid);
        }
    }

    /// Whether the density invariant holds: every 2-by-2 block of
    /// conceptual cells has at least one of its internal walls present.
    #[verifier::loop_isolation(false)]
    pub fn has_inner_grid_walls(grid: &CellGrid) -> (r: bool)
        requires
            grid.wf(),
            grid.spec_width() >= 1,
            grid.spec_height() >= 1,
        ensures
            r == density_ok(*grid),
    {
        let width = grid.width();
        let height = grid.height();
        let mut y: usize = 0;
        while y < height - 1
            invariant
                y <= height - 1,
                forall|xx: int, yy: int|
                    0 <= xx < width - 1 && 0 <= yy < y
                        ==> #[trigger] block_has_wall(*grid, xx, yy),
            decreases height - 1 - y,
        {
            let mut x: usize = 0;
            while x < width - 1
                invariant
                    x <= width - 1,
                    y < height - 1,
                    forall|xx: int, yy: int|
                        0 <= xx < width - 1 && 0 <= yy < y
                            ==> #[trigger] block_has_wall(*grid, xx, yy),
                    forall|xx: int|
                        0 <= xx < x ==> #[trigger] block_has_wall(*grid, xx, y as int),
                decreases width - 1 - x,
            {
                let mut found = grid.xy(x + 1, y).has_left_edge();
                if !found {
                    found = grid.xy(x, y + 1).has_bottom_edge();
                }
                if !found {
                    let far = grid.xy(x + 1, y + 1);
                    found = far.has_left_edge() || far.has_bottom_edge();
                }
                if !found {
                    proof {
                        assert(!block_has_wall(*grid, x as int, y as int));
                    }
                    return false;
                }
                x = x + 1;
            }
            y = y + 1;
        }
        true
    }

    /// Whether `point` may serve as the carved route's start or end:
    /// those must sit on the conceptual maze's border.
    pub fn is_valid_start_or_end(grid: &CellGrid, point: XY) -> (r: bool)
        requires
            grid.spec_width() >= 4,
            grid.spec_height() >= 4,
        ensures
            r == border_pt(grid.spec_width(), grid.spec_height(), point),
    {
        point.0 == 0 || point.0 == grid.width() - 2 || point.1 == 0 || point.1
            == grid.height() - 2
    }

    /// Whether some waypoint of `path` already sits at `q`.
    #[verifier::loop_isolation(false)]
    pub fn path_contains_point(path: &Vec<PathPoint>, q: XY) -> (r: bool)
        ensures
            r == exists|i: int| 0 <= i < path@.len() && (#[trigger] path@[i]).point == q,
    {
        let mut k: usize = 0;
        while k < path.len()
            invariant
                k <= path@.len(),
                forall|i: int| 0 <= i < k ==> (#[trigger] path@[i]).point != q,
            decreases path@.len() - k,
        {
            if path[k].point.0 == q.0 && path[k].point.1 == q.1 {
                return true;
            }
            k = k + 1;
        }
        false
    }

    /// Draw the walk's start: one of the four corners of the conceptual
    /// maze, picked by two coin flips, with a third flip choosing whether
    /// the walk first travels vertically (away from the chosen horizontal
    /// border) or horizontally (away from the chosen vertical border).
    pub fn pick_start(&mut self) -> (r: PathPoint)
        requires
            old(self).grid.spec_width() >= 4,
            old(self).grid.spec_height() >= 4,
            old(self).grid.wf(),
        ensures
            conceptual_pt(
                old(self).grid.spec_width(),
                old(self).grid.spec_height(),
                r.point,
            ),
            border_pt(old(self).grid.spec_width(), old(self).grid.spec_height(), r.point),
            corner_pt(old(self).grid.spec_width(), old(self).grid.spec_height(), r.point),
            dir_room(r),
            r.dir is Up ==> r.point.1 == 0,
            r.dir is Down ==> r.point.1 == old(self).grid.spec_height() - 2,
            r.dir is Right ==> r.point.0 == 0,
            r.dir is Left ==> r.point.0 == old(self).grid.spec_width() - 2,
            final(self).grid == old(self).grid,
            final(self).path == old(self).path,
            final(self).state == old(self).state,
            final(self).next_command == old(self).next_command,
            final(self).path_point_count == old(self).path_point_count,
    {
        let width = self.grid.width();
        let height = self.grid.height();
        let start_bottom = rng_ratio(&mut self.rng, 1, 2);
        let start_left = rng_ratio(&mut self.rng, 1, 2);
        let start_points_vertical = rng_ratio(&mut self.rng, 1, 2);
        let px = if start_left {
            0
        } else {
            width - 2
        };
        let py = if start_bottom {
            0
        } else {
            height - 2
        };
        let dir = if start_points_vertical {
            if start_bottom {
                Direction::Up
            } else {
                Direction::Down
            }
        } else {
            if start_left {
                Direction::Right
            } else {
                Direction::Left
            }
        };
        PathPoint { point: XY(px, py), dir }
    }

    /// One carving attempt's worth of work: walk randomly from a fresh
    /// corner start, alternating axes, until the route has the asked-for
    /// number of waypoints, the last of them back on the border. A
    /// candidate repeating an earlier position is redrawn; a walk left
    /// with no room, or unable to finish on the border, restarts from the
    /// same start. Runs out of draws after a generous budget and then
    /// reports `None`, letting a later tick try again.
    #[verifier::loop_isolation(false)]
    pub fn carve_waypoints(&mut self) -> (r: Option<Vec<PathPoint>>)
        requires
            old(self).grid.spec_width() >= 4,
            old(self).grid.spec_height() >= 4,
            old(self).grid.wf(),
            old(self).path_point_count >= 2,
        ensures
            final(self).grid == old(self).grid,
            final(self).path == old(self).path,
            final(self).state == old(self).state,
            final(self).next_command == old(self).next_command,
            final(self).path_point_count == old(self).path_point_count,
            r matches Some(wp) ==> {
                &&& wp@.len() == old(self).path_point_count
                &&& waypoints_ok(
                    wp@,
                    old(self).grid.spec_width(),
                    old(self).grid.spec_height(),
                )
                &&& corner_pt(
                    old(self).grid.spec_width(),
                    old(self).grid.spec_height(),
                    wp@[0].point,
                )
                &&& border_pt(
                    old(self).grid.spec_width(),
                    old(self).grid.spec_height(),
                    wp@[wp@.len() - 1].point,
                )
            },
    {
        let width = self.grid.width();
        let height = self.grid.height();
        let ghost w = self.grid.spec_width();
        let ghost h = self.grid.spec_height();
        let count = self.path_point_count;

        let start = self.pick_start();
        let mut path: Vec<PathPoint> = Vec::new();
        path.push(start);

        let mut fuel: u64 = CARVE_FUEL;
        while path.len() < count && fuel > 0
            invariant
                1 <= path@.len() <= count,
                path@[0] == start,
                corner_pt(w, h, start.point),
                waypoints_ok(path@, w, h),
                path@.len() == count ==> border_pt(w, h, path@[path@.len() - 1].point),
                self.grid == old(self).grid,
                self.path == old(self).path,
                self.state == old(self).state,
                self.next_command == old(self).next_command,
                self.path_point_count == old(self).path_point_count,
            decreases fuel,
        {
            fuel = fuel - 1;

            let last = path[path.len() - 1];
            let start_left = start.point.0 == 0;
            let start_bottom = start.point.1 == 0;

            // Alternate axes: a vertical run is followed by a horizontal
            // one and back, always pointing away from the start's borders.
            let dir = match last.dir {
                Direction::Up | Direction::Down => {
                    if start_left {
                        Direction::Right
                    } else {
                        Direction::Left
                    }
                },
                Direction::Left | Direction::Right => {
                    if start_bottom {
                        Direction::Up
                    } else {
                        Direction::Down
                    }
                },
            };

            let mut should_reset = false;
            match dir {
                Direction::Up => {
                    if last.point.1 == height - 2 {
                        should_reset = true;
                    }
                },
                Direction::Down => {
                    if last.point.1 == 0 {
                        should_reset = true;
                    }
                },
                Direction::Left => {
                    if last.point.0 == 0 {
                        should_reset = true;
                    }
                },
                Direction::Right => {
                    if last.point.0 == width - 2 {
                        should_reset = true;
                    }
                },
            }

            if !should_reset {
                let point = match last.dir {
                    Direction::Up => XY(
                        last.point.0,
                        rng_below(&mut self.rng, last.point.1, height - 1),
                    ),
                    Direction::Down => XY(
                        last.point.0,
                        rng_below(&mut self.rng, 0, last.point.1),
                    ),
                    Direction::Left => XY(
                        rng_below(&mut self.rng, 0, last.point.0),
                        last.point.1,
                    ),
                    Direction::Right => XY(
                        rng_below(&mut self.rng, last.point.0, width - 1),
                        last.point.1,
                    ),
                };

                let novel = !Self::path_contains_point(&path, point);
                let is_valid = novel && (path.len() != count - 1
                    || Self::is_valid_start_or_end(&self.grid, point));

                if is_valid {
                    path.push(PathPoint { point, dir });
                } else if path.len() == count - 1 {
                    should_reset = true;
                }
            }

            if should_reset {
                path.clear();
                path.push(start);
            }
        }

        if path.len() == count {
            Some(path)
        } else {
            None
        }
    }

    /// Open the maze at a border waypoint: turn exactly one of the
    /// point's adjacent border walls `Off`. Where both a vertical and a
    /// horizontal border wall are available (a corner), a coin decides;
    /// otherwise the only available orientation is taken. On the right
    /// and top borders the wall is owned by the neighbouring cell just
    /// outside the conceptual maze.
    pub fn erase_start_or_end_edge(
        rng: &mut rand::rngs::StdRng,
        grid: &mut CellGrid,
        point: XY,
    )
        requires
            old(grid).wf(),
            old(grid).spec_width() >= 4,
            old(grid).spec_height() >= 4,
            conceptual_pt(old(grid).spec_width(), old(grid).spec_height(), point),
            border_pt(old(grid).spec_width(), old(grid).spec_height(), point),
        ensures
            final(grid).wf(),
            final(grid).spec_width() == old(grid).spec_width(),
            final(grid).spec_height() == old(grid).spec_height(),
            exists|c: (int, int, bool)|
                {
                    &&& border_wall_of_point(
                        old(grid).spec_width(),
                        old(grid).spec_height(),
                        point.0 as int,
                        point.1 as int,
                        c.0,
                        c.1,
                        c.2,
                    )
                    &&& #[trigger] edge_off_applied(*old(grid), *final(grid), c.0, c.1, c.2)
                },
    {
        let width = grid.width();
        let height = grid.height();
        let x = point.0;
        let y = point.1;

        let has_vertical_edge = x == 0 || x == width - 2;
        let has_horizontal_edge = y == 0 || y == height - 2;

        let erase_vertical_edge = if has_vertical_edge && has_horizontal_edge {
            rng_ratio(rng, 1, 2)
        } else {
            has_vertical_edge
        };

        if erase_vertical_edge {
            let cx = if x == width - 2 {
                x + 1
            } else {
                x
            };
            let cell = *grid.xy(cx, y);
            grid.set_xy(cx, y, GridCell {
                kind: cell.kind,
                left_edge: EdgeState::Off,
                bottom_edge: cell.bottom_edge,
            });
            proof {
                let w = grid.spec_width();
                let h = grid.spec_height();
                assert(border_wall_of_point(
                    w, h, point.0 as int, point.1 as int, cx as int, y as int, true));
                assert(edge_off_applied(*old(grid), *grid, cx as int, y as int, true));
                assert(exists|c: (int, int, bool)|
                    border_wall_of_point(w, h, point.0 as int, point.1 as int, c.0, c.1, c.2)
                    && #[trigger] edge_off_applied(*old(grid), *grid, c.0, c.1, c.2)) by {
                    let c = (cx as int, y as int, true);
                    assert(border_wall_of_point(w, h, point.0 as int, point.1 as int, c.0, c.1, c.2)
                        && edge_off_applied(*old(grid), *grid, c.0, c.1, c.2));
                }
            }
        } else {
            let cy = if y == height - 2 {
                y + 1
            } else {
                y
            };
            let cell = *grid.xy(x, cy);
            grid.set_xy(x, cy, GridCell {
                kind: cell.kind,
                left_edge: cell.left_edge,
                bottom_edge: EdgeState::Off,
            });
            proof {
                let w = grid.spec_width();
                let h = grid.spec_height();
                assert(border_wall_of_point(
                    w, h, point.0 as int, point.1 as int, x as int, cy as int, false));
                assert(edge_off_applied(*old(grid), *grid, x as int, cy as int, false));
                assert(exists|c: (int, int, bool)|
                    border_wall_of_point(w, h, point.0 as int, point.1 as int, c.0, c.1, c.2)
                    && #[trigger] edge_off_applied(*old(grid), *grid, c.0, c.1, c.2)) by {
                    let c = (x as int, cy as int, false);
                    assert(border_wall_of_point(w, h, point.0 as int, point.1 as int, c.0, c.1, c.2)
                        && edge_off_applied(*old(grid), *grid, c.0, c.1, c.2));
                }
            }
        }
    }

    /// Slide from waypoint `from` to the next waypoint `to`, one cell at
    /// a time along `from`'s stored direction: the wall crossed on each
    /// step is turned `Off`, and every untouched cell slid through is
    /// marked as part of the route. Nothing outside the run changes, and
    /// the walls of the crossed cells along the other axis are kept.
    #[verifier::loop_isolation(false)]
    #[verifier::rlimit(60)]
    pub fn slide_path_segment(grid: &mut CellGrid, from: PathPoint, to: XY)
        requires
            old(grid).wf(),
            old(grid).spec_width() >= 4,
            old(grid).spec_height() >= 4,
            conceptual_pt(old(grid).spec_width(), old(grid).spec_height(), from.point),
            conceptual_pt(old(grid).spec_width(), old(grid).spec_height(), to),
            advances(from, to),
        ensures
            final(grid).wf(),
            final(grid).spec_width() == old(grid).spec_width(),
            final(grid).spec_height() == old(grid).spec_height(),
            forall|a: int, b: int|
                old(grid).in_bounds(a, b) && !segment_cell(from, to, a, b)
                    ==> final(grid).at(a, b) == old(grid).at(a, b),
            forall|a: int, b: int|
                old(grid).in_bounds(a, b) && segment_cell(from, to, a, b)
                    ==> #[trigger] final(grid).at(a, b) == slid_cell(
                    dir_vertical(from.dir),
                    old(grid).at(a, b),
                ),
            forall|cx: int, cy: int, l: bool|
                is_border_wall(old(grid).spec_width(), old(grid).spec_height(), cx, cy, l)
                    ==> #[trigger] wall_state(*final(grid), cx, cy, l) == wall_state(
                    *old(grid),
                    cx,
                    cy,
                    l,
                ),
            run_open(*final(grid), from, to),
    {
        let ghost w = grid.spec_width();
        let ghost h = grid.spec_height();
        match from.dir {
            Direction::Up => {
                let x = from.point.0;
                let mut yy = from.point.1;
                while yy != to.1
                    invariant
                        grid.wf(),
                        grid.spec_width() == w,
                        grid.spec_height() == h,
                        from.point.1 <= yy <= to.1,
                        forall|a: int, b: int|
                            old(grid).in_bounds(a, b)
                                && !(a == x && from.point.1 < b <= yy)
                                ==> #[trigger] grid.at(a, b) == old(grid).at(a, b),
                        forall|b: int|
                            from.point.1 < b <= yy ==> #[trigger] grid.at(x as int, b)
                                == slid_cell(true, old(grid).at(x as int, b)),
                    decreases to.1 - yy,
                {
                    let cell = *grid.xy(x, yy + 1);
                    let kind = match cell.kind {
                        GridCellKind::Empty => GridCellKind::PathIntermediate,
                        k => k,
                    };
                    grid.set_xy(x, yy + 1, GridCell {
                        kind,
                        left_edge: cell.left_edge,
                        bottom_edge: EdgeState::Off,
                    });
                    yy = yy + 1;
                }
            },
            Direction::Down => {
                let x = from.point.0;
                let mut yy = from.point.1;
                while yy != to.1
                    invariant
                        grid.wf(),
                        grid.spec_width() == w,
                        grid.spec_height() == h,
                        to.1 <= yy <= from.point.1,
                        forall|a: int, b: int|
                            old(grid).in_bounds(a, b)
                                && !(a == x && yy < b <= from.point.1)
                                ==> #[trigger] grid.at(a, b) == old(grid).at(a, b),
                        forall|b: int|
                            yy < b <= from.point.1 ==> #[trigger] grid.at(x as int, b)
                                == slid_cell(true, old(grid).at(x as int, b)),
                    decreases yy - to.1,
                {
                    let cell = *grid.xy(x, yy);
                    let kind = match cell.kind {
                        GridCellKind::Empty => GridCellKind::PathIntermediate,
                        k => k,
                    };
                    grid.set_xy(x, yy, GridCell {
                        kind,
                        left_edge: cell.left_edge,
                        bottom_edge: EdgeState::Off,
                    });
                    yy = yy - 1;
                }
            },
            Direction::Left => {
                let y = from.point.1;
                let mut xx = from.point.0;
                while xx != to.0
                    invariant
                        grid.wf(),
                        grid.spec_width() == w,
                        grid.spec_height() == h,
                        to.0 <= xx <= from.point.0,
                        forall|a: int, b: int|
                            old(grid).in_bounds(a, b)
                                && !(b == y && xx < a <= from.point.0)
                                ==> #[trigger] grid.at(a, b) == old(grid).at(a, b),
                        forall|a: int|
                            xx < a <= from.point.0 ==> #[trigger] grid.at(a, y as int)
                                == slid_cell(false, old(grid).at(a, y as int)),
                    decreases xx - to.0,
                {
                    let cell = *grid.xy(xx, y);
                    let kind = match cell.kind {
                        GridCellKind::Empty => GridCellKind::PathIntermediate,
                        k => k,
                    };
                    grid.set_xy(xx, y, GridCell {
                        kind,
                        left_edge: EdgeState::Off,
                        bottom_edge: cell.bottom_edge,
                    });
                    xx = xx - 1;
                }
            },
            Direction::Right => {
                let y = from.point.1;
                let mut xx = from.point.0;
                while xx != to.0
                    invariant
                        grid.wf(),
                        grid.spec_width() == w,
                        grid.spec_height() == h,
                        from.point.0 <= xx <= to.0,
                        forall|a: int, b: int|
                            old(grid).in_bounds(a, b)
                                && !(b == y && from.point.0 < a <= xx)
                                ==> #[trigger] grid.at(a, b) == old(grid).at(a, b),
                        forall|a: int|
                            from.point.0 < a <= xx ==> #[trigger] grid.at(a, y as int)
                                == slid_cell(false, old(grid).at(a, y as int)),
                    decreases to.0 - xx,
                {
                    let cell = *grid.xy(xx + 1, y);
                    let kind = match cell.kind {
                        GridCellKind::Empty => GridCellKind::PathIntermediate,
                        k => k,
                    };
                    grid.set_xy(xx + 1, y, GridCell {
                        kind,
                        left_edge: EdgeState::Off,
                        bottom_edge: cell.bottom_edge,
                    });
                    xx = xx + 1;
                }
            },
        }
    }

    /// Mark every waypoint of the walk with its route kind: the last
    /// becomes the end, every other one a step numbered by its place in
    /// the walk. No wall changes.
    #[verifier::loop_isolation(false)]
    pub fn mark_waypoints(&mut self, wp: &Vec<PathPoint>)
        requires
            old(self).grid.wf(),
            old(self).grid.spec_width() >= 4,
            old(self).grid.spec_height() >= 4,
            waypoints_ok(wp@, old(self).grid.spec_width(), old(self).grid.spec_height()),
            2 <= wp@.len(),
        ensures
            final(self).grid.wf(),
            final(self).grid.spec_width() == old(self).grid.spec_width(),
            final(self).grid.spec_height() == old(self).grid.spec_height(),
            forall|j: int|
                0 <= j < wp@.len() ==> final(self).grid.at(
                    (#[trigger] wp@[j]).point.0 as int,
                    wp@[j].point.1 as int,
                ).kind == mark_kind(j, wp@.len() as int),
            forall|x: int, y: int|
                old(self).grid.in_bounds(x, y) && !wp_has_pt(wp@, x, y)
                    ==> (#[trigger] final(self).grid.at(x, y)).kind == old(self).grid.at(
                    x,
                    y,
                ).kind,
            forall|x: int, y: int|
                old(self).grid.in_bounds(x, y)
                    ==> (#[trigger] final(self).grid.at(x, y)).left_edge == old(self).grid.at(
                    x,
                    y,
                ).left_edge && final(self).grid.at(x, y).bottom_edge == old(self).grid.at(
                    x,
                    y,
                ).bottom_edge,
            final(self).path == old(self).path,
            final(self).state == old(self).state,
            final(self).next_command == old(self).next_command,
            final(self).path_point_count == old(self).path_point_count,
            final(self).rng == old(self).rng,
    {
        let ghost w = self.grid.spec_width();
        let ghost h = self.grid.spec_height();
        let ghost g0 = self.grid;
        let len = wp.len();

        let mut i: usize = 0;
        while i < len
            invariant
                i <= len,
                self.grid.wf(),
                self.grid.spec_width() == w,
                self.grid.spec_height() == h,
                forall|j: int|
                    0 <= j < i ==> self.grid.at(
                        (#[trigger] wp@[j]).point.0 as int,
                        wp@[j].point.1 as int,
                    ).kind == mark_kind(j, len as int),
                forall|x: int, y: int|
                    self.grid.in_bounds(x, y) && !wp_prefix_has(wp@, i as int, x, y)
                        ==> (#[trigger] self.grid.at(x, y)).kind == g0.at(x, y).kind,
                forall|x: int, y: int|
                    self.grid.in_bounds(x, y) ==> (#[trigger] self.grid.at(x, y)).left_edge
                        == g0.at(x, y).left_edge && self.grid.at(x, y).bottom_edge == g0.at(
                        x,
                        y,
                    ).bottom_edge,
                self.path == old(self).path,
                self.state == old(self).state,
                self.next_command == old(self).next_command,
                self.path_point_count == old(self).path_point_count,
                self.rng == old(self).rng,
            decreases len - i,
        {
            let p = wp[i].point;
            let cell = *self.grid.xy(p.0, p.1);
            let kind = if i == len - 1 {
                GridCellKind::End
            } else {
                GridCellKind::Path(i)
            };
            self.grid.set_xy(p.0, p.1, GridCell {
                kind,
                left_edge: cell.left_edge,
                bottom_edge: cell.bottom_edge,
            });
            proof {
                assert forall|x: int, y: int|
                    self.grid.in_bounds(x, y) && !wp_prefix_has(wp@, i + 1, x, y)
                        implies (#[trigger] self.grid.at(x, y)).kind == g0.at(x, y).kind by {
                    assert(!(x == p.0 as int && y == p.1 as int));
                    assert(!wp_prefix_has(wp@, i as int, x, y));
                }
            }
            i = i + 1;
        }
    }

    /// Open the border once at the route's start and once at its end:
    /// two distinct border walls, one adjacent to each, turn `Off`.
    pub fn open_route_borders(&mut self, s: XY, e: XY)
        requires
            old(self).grid.wf(),
            old(self).grid.spec_width() >= 4,
            old(self).grid.spec_height() >= 4,
            conceptual_pt(old(self).grid.spec_width(), old(self).grid.spec_height(), s),
            conceptual_pt(old(self).grid.spec_width(), old(self).grid.spec_height(), e),
            border_pt(old(self).grid.spec_width(), old(self).grid.spec_height(), s),
            border_pt(old(self).grid.spec_width(), old(self).grid.spec_height(), e),
            s != e,
        ensures
            final(self).grid.wf(),
            final(self).grid.spec_width() == old(self).grid.spec_width(),
            final(self).grid.spec_height() == old(self).grid.spec_height(),
            openings_applied(old(self).grid, final(self).grid, s, e),
            final(self).path == old(self).path,
            final(self).state == old(self).state,
            final(self).next_command == old(self).next_command,
            final(self).path_point_count == old(self).path_point_count,
    {
        let ghost w = self.grid.spec_width();
        let ghost h = self.grid.spec_height();
        let ghost g1 = self.grid;

        Self::erase_start_or_end_edge(&mut self.rng, &mut self.grid, s);
        let ghost g2 = self.grid;
        let ghost c1 = choose|c: (int, int, bool)|
            border_wall_of_point(w, h, s.0 as int, s.1 as int, c.0, c.1, c.2)
                && #[trigger] edge_off_applied(g1, g2, c.0, c.1, c.2);

        Self::erase_start_or_end_edge(&mut self.rng, &mut self.grid, e);
        let ghost g3 = self.grid;
        let ghost c2 = choose|c: (int, int, bool)|
            border_wall_of_point(w, h, e.0 as int, e.1 as int, c.0, c.1, c.2)
                && #[trigger] edge_off_applied(g2, g3, c.0, c.1, c.2);

        proof {
            // A border wall pins down the waypoint it is adjacent to, and
            // the start and end differ, so the two walls differ.
            assert(c1 != c2);
            assert forall|cx: int, cy: int, l: bool|
                g1.in_bounds(cx, cy) implies #[trigger] wall_state(g3, cx, cy, l) == (
                if (cx, cy, l) == c1 || (cx, cy, l) == c2 {
                    EdgeState::Off
                } else {
                    wall_state(g1, cx, cy, l)
                }) by {
                assert(g2.in_bounds(cx, cy));
            }
            assert(two_walls_off(g1, g3, c1, c2));
            assert(openings_applied(g1, g3, s, e));
        }
    }

    /// Slide along every leg of the marked walk in order, opening the
    /// walls each leg crosses and marking the cells it slides through.
    /// Route marks stay, border walls are untouched, and no interior
    /// wall is ever raised.
    #[verifier::rlimit(100)]
    #[verifier::spinoff_prover]
    pub fn slide_route(grid: &mut CellGrid, wp: &Vec<PathPoint>)
        requires
            old(grid).wf(),
            old(grid).spec_width() >= 4,
            old(grid).spec_height() >= 4,
            waypoints_ok(wp@, old(grid).spec_width(), old(grid).spec_height()),
            2 <= wp@.len(),
            forall|j: int|
                0 <= j < wp@.len() ==> old(grid).at(
                    (#[trigger] wp@[j]).point.0 as int,
                    wp@[j].point.1 as int,
                ).kind == mark_kind(j, wp@.len() as int),
            forall|x: int, y: int|
                old(grid).in_bounds(x, y) && !wp_has_pt(wp@, x, y)
                    ==> (#[trigger] old(grid).at(x, y)).kind is Empty,
            forall|cx: int, cy: int, l: bool|
                old(grid).in_bounds(cx, cy) && !is_border_wall(
                    old(grid).spec_width(),
                    old(grid).spec_height(),
                    cx,
                    cy,
                    l,
                ) ==> !edge_present(#[trigger] wall_state(*old(grid), cx, cy, l)),
        ensures
            final(grid).wf(),
            final(grid).spec_width() == old(grid).spec_width(),
            final(grid).spec_height() == old(grid).spec_height(),
            forall|j: int|
                0 <= j < wp@.len() ==> final(grid).at(
                    (#[trigger] wp@[j]).point.0 as int,
                    wp@[j].point.1 as int,
                ).kind == mark_kind(j, wp@.len() as int),
            forall|x: int, y: int|
                final(grid).in_bounds(x, y) && !wp_has_pt(wp@, x, y) && route_slid_cell(
                    wp@,
                    x,
                    y,
                ) ==> (#[trigger] final(grid).at(x, y)).kind is PathIntermediate,
            forall|x: int, y: int|
                final(grid).in_bounds(x, y) && !wp_has_pt(wp@, x, y) && !route_slid_cell(
                    wp@,
                    x,
                    y,
                ) ==> (#[trigger] final(grid).at(x, y)).kind is Empty,
            forall|cx: int, cy: int, l: bool|
                is_border_wall(old(grid).spec_width(), old(grid).spec_height(), cx, cy, l)
                    ==> #[trigger] wall_state(*final(grid), cx, cy, l) == wall_state(
                    *old(grid),
                    cx,
                    cy,
                    l,
                ),
            forall|cx: int, cy: int, l: bool|
                final(grid).in_bounds(cx, cy) && (#[trigger] wall_state(
                    *final(grid),
                    cx,
                    cy,
                    l,
                )) is Off ==> wall_state(*old(grid), cx, cy, l) is Off || route_crossed_wall(
                    wp@,
                    cx,
                    cy,
                    l,
                ),
            forall|cx: int, cy: int, l: bool|
                final(grid).in_bounds(cx, cy) && (#[trigger] wall_state(
                    *old(grid),
                    cx,
                    cy,
                    l,
                )) is Off ==> wall_state(*final(grid), cx, cy, l) is Off,
            forall|cx: int, cy: int, l: bool|
                final(grid).in_bounds(cx, cy) && !is_border_wall(
                    old(grid).spec_width(),
                    old(grid).spec_height(),
                    cx,
                    cy,
                    l,
                ) ==> !edge_present(#[trigger] wall_state(*final(grid), cx, cy, l)),
            forall|j: int|
                0 <= j < wp@.len() - 1 ==> #[trigger] run_open(
                    *final(grid),
                    wp@[j],
                    wp@[j + 1].point,
                ),
    {
        let ghost w = grid.spec_width();
        let ghost h = grid.spec_height();
        let ghost g3 = *grid;
        let len = wp.len();

        let mut k: usize = 0;
        while k < len - 1
            invariant
                w >= 4,
                h >= 4,
                len == wp@.len(),
                2 <= len,
                waypoints_ok(wp@, w, h),
                k <= len - 1,
                grid.wf(),
                grid.spec_width() == w,
                grid.spec_height() == h,
                forall|j: int|
                    0 <= j < len ==> grid.at(
                        (#[trigger] wp@[j]).point.0 as int,
                        wp@[j].point.1 as int,
                    ).kind == mark_kind(j, len as int),
                forall|x: int, y: int|
                    grid.in_bounds(x, y) && !wp_has_pt(wp@, x, y) && route_slid_upto(
                        wp@,
                        k as int,
                        x,
                        y,
                    ) ==> (#[trigger] grid.at(x, y)).kind is PathIntermediate,
                forall|x: int, y: int|
                    grid.in_bounds(x, y) && !wp_has_pt(wp@, x, y) && !route_slid_upto(
                        wp@,
                        k as int,
                        x,
                        y,
                    ) ==> (#[trigger] grid.at(x, y)).kind is Empty,
                forall|cx: int, cy: int, l: bool|
                    is_border_wall(w, h, cx, cy, l) ==> #[trigger] wall_state(
                        *grid,
                        cx,
                        cy,
                        l,
                    ) == wall_state(g3, cx, cy, l),
                forall|cx: int, cy: int, l: bool|
                    grid.in_bounds(cx, cy) && (#[trigger] wall_state(
                        *grid,
                        cx,
                        cy,
                        l,
                    )) is Off ==> wall_state(g3, cx, cy, l) is Off || route_crossed_upto(
                        wp@,
                        k as int,
                        cx,
                        cy,
                        l,
                    ),
                forall|cx: int, cy: int, l: bool|
                    grid.in_bounds(cx, cy) && (#[trigger] wall_state(
                        g3,
                        cx,
                        cy,
                        l,
                    )) is Off ==> wall_state(*grid, cx, cy, l) is Off,
                forall|cx: int, cy: int, l: bool|
                    grid.in_bounds(cx, cy) && !is_border_wall(w, h, cx, cy, l)
                        ==> !edge_present(#[trigger] wall_state(*grid, cx, cy, l)),
                forall|j: int|
                    0 <= j < k ==> #[trigger] run_open(*grid, wp@[j], wp@[j + 1].point),
            decreases len - 1 - k,
        {
            let ghost gb = *grid;
            let from = wp[k];
            let to = wp[k + 1].point;
            Self::slide_path_segment(grid, from, to);
            proof {
                assert forall|j: int|
                    0 <= j < k + 1 implies #[trigger] run_open(
                        *grid,
                        wp@[j],
                        wp@[j + 1].point,
                    ) by {
                    if j < k {
                        assert(run_open(gb, wp@[j], wp@[j + 1].point));
                    }
                }
                assert forall|x: int, y: int|
                    grid.in_bounds(x, y) && !wp_has_pt(wp@, x, y) && route_slid_upto(
                        wp@,
                        k + 1,
                        x,
                        y,
                    ) implies (#[trigger] grid.at(x, y)).kind is PathIntermediate by {
                    if segment_cell(from, to, x, y) {
                        assert(grid.at(x, y) == slid_cell(dir_vertical(from.dir), gb.at(
                            x,
                            y,
                        )));
                    } else {
                        let j = choose|j: int|
                            0 <= j < k + 1 && #[trigger] segment_cell(
                                wp@[j],
                                wp@[j + 1].point,
                                x,
                                y,
                            );
                        assert(j < k);
                        assert(route_slid_upto(wp@, k as int, x, y));
                    }
                }
                assert forall|x: int, y: int|
                    grid.in_bounds(x, y) && !wp_has_pt(wp@, x, y) && !route_slid_upto(
                        wp@,
                        k + 1,
                        x,
                        y,
                    ) implies (#[trigger] grid.at(x, y)).kind is Empty by {
                    if segment_cell(from, to, x, y) {
                        assert(segment_cell(wp@[k as int], wp@[k as int + 1].point, x, y));
                        assert(route_slid_upto(wp@, k + 1, x, y));
                    }
                    if route_slid_upto(wp@, k as int, x, y) {
                        let j = choose|j: int|
                            0 <= j < k && #[trigger] segment_cell(
                                wp@[j],
                                wp@[j + 1].point,
                                x,
                                y,
                            );
                        assert(route_slid_upto(wp@, k + 1, x, y));
                    }
                }
                assert forall|cx: int, cy: int, l: bool|
                    grid.in_bounds(cx, cy) && (#[trigger] wall_state(
                        *grid,
                        cx,
                        cy,
                        l,
                    )) is Off implies wall_state(g3, cx, cy, l) is Off
                        || route_crossed_upto(wp@, k + 1, cx, cy, l) by {
                    let was_off = if segment_cell(from, to, cx, cy) {
                        if l == (from.dir is Left || from.dir is Right) {
                            assert(crossed_wall(
                                wp@[k as int],
                                wp@[k as int + 1].point,
                                cx,
                                cy,
                                l,
                            ));
                            assert(route_crossed_upto(wp@, k + 1, cx, cy, l));
                            false
                        } else {
                            assert(grid.at(cx, cy) == slid_cell(
                                dir_vertical(from.dir),
                                gb.at(cx, cy),
                            ));
                            true
                        }
                    } else {
                        true
                    };
                    if was_off && !(wall_state(g3, cx, cy, l) is Off) {
                        assert(wall_state(gb, cx, cy, l) is Off);
                        assert(route_crossed_upto(wp@, k as int, cx, cy, l));
                        let j = choose|j: int|
                            0 <= j < k && #[trigger] crossed_wall(
                                wp@[j],
                                wp@[j + 1].point,
                                cx,
                                cy,
                                l,
                            );
                        assert(route_crossed_upto(wp@, k + 1, cx, cy, l));
                    }
                }
                assert forall|cx: int, cy: int, l: bool|
                    grid.in_bounds(cx, cy) && (#[trigger] wall_state(
                        g3,
                        cx,
                        cy,
                        l,
                    )) is Off implies wall_state(*grid, cx, cy, l) is Off by {
                    assert(wall_state(gb, cx, cy, l) is Off);
                    if segment_cell(from, to, cx, cy) {
                        assert(grid.at(cx, cy) == slid_cell(dir_vertical(from.dir), gb.at(
                            cx,
                            cy,
                        )));
                    }
                }
            }
            k = k + 1;
        }
    }

    /// Write a carved walk into the grid: mark every waypoint with its
    /// route kind, open one border wall at the start and one at the end,
    /// then slide along each leg of the walk, opening the crossed walls
    /// and marking the cells slid through.
    #[verifier::rlimit(100)]
    pub fn commit_path(&mut self, wp: &Vec<PathPoint>)
        requires
            old(self).grid.wf(),
            old(self).grid.spec_width() >= 4,
            old(self).grid.spec_height() >= 4,
            borders_just_filled(old(self).grid),
            waypoints_ok(wp@, old(self).grid.spec_width(), old(self).grid.spec_height()),
            2 <= wp@.len(),
            corner_pt(old(self).grid.spec_width(), old(self).grid.spec_height(), wp@[0].point),
            border_pt(
                old(self).grid.spec_width(),
                old(self).grid.spec_height(),
                wp@[wp@.len() - 1].point,
            ),
        ensures
            final(self).grid.wf(),
            final(self).grid.spec_width() == old(self).grid.spec_width(),
            final(self).grid.spec_height() == old(self).grid.spec_height(),
            carve_commit_ok(final(self).grid, wp@),
            final(self).path == old(self).path,
            final(self).state == old(self).state,
            final(self).next_command == old(self).next_command,
            final(self).path_point_count == old(self).path_point_count,
    {
        let ghost w = self.grid.spec_width();
        let ghost h = self.grid.spec_height();
        let ghost g0 = self.grid;
        let len = wp.len();

        self.mark_waypoints(wp);
        let ghost g1 = self.grid;

        let s = wp[0].point;
        let e = wp[len - 1].point;
        self.open_route_borders(s, e);
        let ghost g3 = self.grid;
        let ghost (c1, c2) = choose|c1: (int, int, bool), c2: (int, int, bool)|
            border_wall_of_point(w, h, s.0 as int, s.1 as int, c1.0, c1.1, c1.2)
                && border_wall_of_point(w, h, e.0 as int, e.1 as int, c2.0, c2.1, c2.2) && c1
                != c2 && #[trigger] two_walls_off(g1, g3, c1, c2);
        proof {
            lemma_commit_slide_entry(g0, g1, g3, wp@, c1, c2);
        }

        Self::slide_route(&mut self.grid, wp);

        proof {
            lemma_carve_commit_assemble(g0, g1, g3, self.grid, wp@, c1, c2);
        }
    }

    /// Collect, in flat grid order, the positions of every cell the
    /// committed route marked as a waypoint or as its end.
    #[verifier::loop_isolation(false)]
    pub fn extract_path(grid: &CellGrid) -> (r: Vec<XY>)
        requires
            grid.wf(),
        ensures
            r@ == extract_upto(*grid, grid@.len() as int),
    {
        let mut r: Vec<XY> = Vec::new();
        let len = grid.len();
        let mut i: usize = 0;
        while i < len
            invariant
                i <= len,
                r@ == extract_upto(*grid, i as int),
            decreases len - i,
        {
            let p = grid.index_to_xy(i);
            let cell = *grid.xy(p.0, p.1);
            match cell.kind {
                GridCellKind::Path(_) | GridCellKind::End => {
                    r.push(p);
                },
                _ => {},
            }
            proof {
                assert(grid@[i as int] == grid.at(p.0 as int, p.1 as int));
            }
            i = i + 1;
        }
        r
    }

    /// One carving tick: walk a fresh route, and if the walk succeeds
    /// within its draw budget, write it into the grid, record the route's
    /// cell positions, and schedule the density filler after a pacing
    /// delay. If the budget runs out first, nothing changes and the
    /// carve stage simply runs again on a later tick.
    pub fn update_path(&mut self, now_ms: u64)
        requires
            old(self).wf(),
            old(self).state.stage is Path,
        ensures
            final(self).wf(),
            final(self).grid.spec_width() == old(self).grid.spec_width(),
            final(self).grid.spec_height() == old(self).grid.spec_height(),
            final(self).next_command == old(self).next_command,
            final(self).path_point_count == old(self).path_point_count,
            final(self).state.stage is Path ==> final(self).grid == old(self).grid
                && final(self).path == old(self).path && final(self).state == old(self).state,
            !(final(self).state.stage is Path) ==> {
                &&& final(self).state.stage == GenStage::TimedTransition(
                    ENABLE_EDGES_DELAY_MS,
                    Box::new(GenStage::EnableEdgesRandomly),
                )
                &&& final(self).state.entry_ms == now_ms
                &&& exists|wp: Seq<PathPoint>|
                    #[trigger] carve_commit_ok(final(self).grid, wp) && wp.len() == old(
                        self,
                    ).path_point_count
                &&& final(self).path@ == extract_upto(
                    final(self).grid,
                    final(self).grid@.len() as int,
                )
            },
    {
        match self.carve_waypoints() {
            None => {
                // Out of draws for this frame: leave the grid alone and
                // let a later tick carve afresh.
            },
            Some(wp) => {
                self.commit_path(&wp);
                self.path = Self::extract_path(&self.grid);
                self.set_stage_delayed(
                    GenStage::EnableEdgesRandomly,
                    ENABLE_EDGES_DELAY_MS,
                    now_ms,
                );
                proof {
                    lemma_timed_stage_ok(
                        ENABLE_EDGES_DELAY_MS,
                        GenStage::EnableEdgesRandomly,
                        self.grid,
                    );
                    assert(carve_commit_ok(self.grid, wp@) && wp@.len() == old(
                        self,
                    ).path_point_count);
                }
            },
        }
    }

    /// Visit one neighbour during flood fill: if the traversal has not
    /// reached `(x, y)` yet, mark it and put it on the worklist.
    fn try_visit(
        traversal: &mut Grid<bool>,
        stack: &mut Vec<XY>,
        x: usize,
        y: usize,
    )
        requires
            old(traversal).wf(),
            old(traversal).in_bounds(x as int, y as int),
        ensures
            final(traversal).wf(),
            final(traversal).spec_width() == old(traversal).spec_width(),
            final(traversal).spec_height() == old(traversal).spec_height(),
            final(traversal).at(x as int, y as int) == true,
            forall|a: int, b: int|
                old(traversal).in_bounds(a, b) && !(a == x && b == y)
                    ==> final(traversal).at(a, b) == old(traversal).at(a, b),
            old(traversal).at(x as int, y as int) ==> *final(traversal) == *old(traversal)
                && final(stack)@ == old(stack)@,
            !old(traversal).at(x as int, y as int) ==> final(traversal)@ == old(
                traversal,
            )@.update(y * old(traversal).spec_width() + x, true) && final(stack)@ == old(
                stack,
            )@.push(XY(x, y)),
    {
        if !*traversal.xy(x, y) {
            traversal.set_xy(x, y, true);
            stack.push(XY(x, y));
        }
    }

    /// Flood-fill the conceptual maze from `start` over open walls, with
    /// an explicit worklist: the result marks a traversal cell for every
    /// cell reached. Every marked cell is reachable from `start`, and
    /// the marked set is closed: no open step leads out of it.
    #[verifier::rlimit(100)]
    pub fn visit_all(grid: &CellGrid, start: &XY) -> (r: Grid<bool>)
        requires
            grid.wf(),
            grid.spec_width() >= 4,
            grid.spec_height() >= 4,
            conceptual_pt(grid.spec_width(), grid.spec_height(), *start),
        ensures
            r.wf(),
            r.spec_width() == grid.spec_width() - 1,
            r.spec_height() == grid.spec_height() - 1,
            r.at(start.0 as int, start.1 as int) == true,
            forall|x: int, y: int|
                r.in_bounds(x, y) && #[trigger] r.at(x, y) ==> closed_at(*grid, r, x, y)
                    && reachable(*grid, *start, x, y),
    {
        let width = grid.width();
        let height = grid.height();
        let ghost w = grid.spec_width();
        let ghost h = grid.spec_height();
        let tw = width - 1;
        let th = height - 1;
        let ghost tlen = (w - 1) * (h - 1);

        proof {
            assert((w - 1) * (h - 1) <= w * h) by (nonlinear_arith)
                requires
                    w >= 1,
                    h >= 1,
            ;
        }
        let mut traversal: Grid<bool> = Grid::new(tw, th, &false);
        let mut stack: Vec<XY> = Vec::new();

        proof {
            assert(reaches(*grid, *start, start.0 as int, start.1 as int, 0));
            crate::grid::lemma_flat_index_in_range(
                w - 1,
                h - 1,
                start.0 as int,
                start.1 as int,
            );
        }
        Self::try_visit(&mut traversal, &mut stack, start.0, start.1);
        proof {
            assert forall|x: int, y: int|
                traversal.in_bounds(x, y) && !(x == start.0 as int && y == start.1 as int)
                    implies traversal.at(x, y) == false by {
                crate::grid::lemma_flat_index_in_range(w - 1, h - 1, x, y);
            }
            assert(stack@[0] == XY(start.0, start.1));
        }

        while stack.len() > 0
            invariant
                grid.wf(),
                grid.spec_width() == w,
                grid.spec_height() == h,
                w >= 4,
                h >= 4,
                tlen == (w - 1) * (h - 1),
                tw == w - 1,
                th == h - 1,
                start.0 <= w - 2,
                start.1 <= h - 2,
                traversal.wf(),
                traversal.spec_width() == w - 1,
                traversal.spec_height() == h - 1,
                traversal@.len() == tlen,
                traversal.at(start.0 as int, start.1 as int) == true,
                forall|i: int|
                    0 <= i < stack@.len() ==> traversal.in_bounds(
                        (#[trigger] stack@[i]).0 as int,
                        stack@[i].1 as int,
                    ) && traversal.at(stack@[i].0 as int, stack@[i].1 as int) == true,
                forall|x: int, y: int|
                    traversal.in_bounds(x, y) && #[trigger] traversal.at(x, y)
                        && !stack_has(stack@, x, y) ==> closed_at(*grid, traversal, x, y),
                forall|x: int, y: int|
                    traversal.in_bounds(x, y) && #[trigger] traversal.at(x, y)
                        ==> reachable(*grid, *start, x, y),
            decreases tlen - count_marked(traversal@, tlen), stack@.len(),
        {
            proof {
                lemma_count_marked_bound(traversal@, tlen);
            }
            let ghost t0 = traversal;
            let ghost st0 = stack@;
            let p = stack.pop().unwrap();
            let px = p.0;
            let py = p.1;

            if px > 0 && !grid.xy(px, py).has_left_edge() {
                proof {
                    assert(open_step(*grid, px as int, py as int, px as int - 1, py as int));
                    lemma_reach_step(
                        *grid,
                        *start,
                        px as int,
                        py as int,
                        px as int - 1,
                        py as int,
                    );
                }
                let ghost ta = traversal;
                Self::try_visit(&mut traversal, &mut stack, px - 1, py);
                proof {
                    if !ta.at(px as int - 1, py as int) {
                        crate::grid::lemma_flat_index_in_range(
                            w - 1,
                            h - 1,
                            px as int - 1,
                            py as int,
                        );
                        lemma_count_marked_update(
                            ta@,
                            traversal@,
                            (py as int) * (w - 1) + (px as int - 1),
                            tlen,
                        );
                    }
                }
            }
            let ghost t1 = traversal;
            let ghost s1 = stack@;
            if py > 0 && !grid.xy(px, py).has_bottom_edge() {
                proof {
                    assert(open_step(*grid, px as int, py as int, px as int, py as int - 1));
                    lemma_reach_step(
                        *grid,
                        *start,
                        px as int,
                        py as int,
                        px as int,
                        py as int - 1,
                    );
                }
                let ghost ta = traversal;
                Self::try_visit(&mut traversal, &mut stack, px, py - 1);
                proof {
                    if !ta.at(px as int, py as int - 1) {
                        crate::grid::lemma_flat_index_in_range(
                            w - 1,
                            h - 1,
                            px as int,
                            py as int - 1,
                        );
                        lemma_count_marked_update(
                            ta@,
                            traversal@,
                            (py as int - 1) * (w - 1) + px as int,
                            tlen,
                        );
                    }
                }
            }
            let ghost t2 = traversal;
            let ghost s2 = stack@;
            if px < tw - 1 && !grid.xy(px + 1, py).has_left_edge() {
                proof {
                    assert(open_step(*grid, px as int, py as int, px as int + 1, py as int));
                    lemma_reach_step(
                        *grid,
                        *start,
                        px as int,
                        py as int,
                        px as int + 1,
                        py as int,
                    );
                }
                let ghost ta = traversal;
                Self::try_visit(&mut traversal, &mut stack, px + 1, py);
                proof {
                    if !ta.at(px as int + 1, py as int) {
                        crate::grid::lemma_flat_index_in_range(
                            w - 1,
                            h - 1,
                            px as int + 1,
                            py as int,
                        );
                        lemma_count_marked_update(
                            ta@,
                            traversal@,
                            (py as int) * (w - 1) + (px as int + 1),
                            tlen,
                        );
                    }
                }
            }
            let ghost t3 = traversal;
            let ghost s3 = stack@;
            if py < th - 1 && !grid.xy(px, py + 1).has_bottom_edge() {
                proof {
                    assert(open_step(*grid, px as int, py as int, px as int, py as int + 1));
                    lemma_reach_step(
                        *grid,
                        *start,
                        px as int,
                        py as int,
                        px as int,
                        py as int + 1,
                    );
                }
                let ghost ta = traversal;
                Self::try_visit(&mut traversal, &mut stack, px, py + 1);
                proof {
                    if !ta.at(px as int, py as int + 1) {
                        crate::grid::lemma_flat_index_in_range(
                            w - 1,
                            h - 1,
                            px as int,
                            py as int + 1,
                        );
                        lemma_count_marked_update(
                            ta@,
                            traversal@,
                            (py as int + 1) * (w - 1) + px as int,
                            tlen,
                        );
                    }
                }
            }

            proof {
                lemma_count_marked_bound(traversal@, tlen);
                // The popped cell is now closed: each of its open steps
                // was just visited.
                assert forall|x2: int, y2: int|
                    #[trigger] open_step(*grid, px as int, py as int, x2, y2)
                        implies traversal.at(x2, y2) by {
                }
                // Closure survives for every other marked cell.
                assert forall|x: int, y: int|
                    traversal.in_bounds(x, y) && #[trigger] traversal.at(x, y)
                        && !stack_has(stack@, x, y)
                        implies closed_at(*grid, traversal, x, y) by {
                    if x == px as int && y == py as int {
                        assert(closed_at(*grid, traversal, x, y));
                    } else if t0.at(x, y) {
                        if stack_has(st0, x, y) {
                            let i = choose|i: int|
                                0 <= i < st0.len() && (#[trigger] st0[i]).0 == x && st0[i].1
                                    == y;
                            assert(i < st0.len() - 1);
                            assert(stack@[i] == st0[i]);
                            assert(stack_has(stack@, x, y));
                        } else {
                            assert(closed_at(*grid, t0, x, y));
                            assert forall|x2: int, y2: int|
                                #[trigger] open_step(*grid, x, y, x2, y2)
                                    implies traversal.at(x2, y2) by {
                                assert(t0.at(x2, y2));
                            }
                        }
                    } else {
                        // Newly marked this iteration: whichever neighbour
                        // visit marked it also pushed it, and pushes stay.
                        if t1.at(x, y) && !t0.at(x, y) {
                            assert(stack@[s1.len() - 1] == s1[s1.len() - 1]);
                            assert(s1[s1.len() - 1].0 == x && s1[s1.len() - 1].1 == y);
                        } else if t2.at(x, y) && !t1.at(x, y) {
                            assert(stack@[s2.len() - 1] == s2[s2.len() - 1]);
                            assert(s2[s2.len() - 1].0 == x && s2[s2.len() - 1].1 == y);
                        } else if t3.at(x, y) && !t2.at(x, y) {
                            assert(stack@[s3.len() - 1] == s3[s3.len() - 1]);
                            assert(s3[s3.len() - 1].0 == x && s3[s3.len() - 1].1 == y);
                        } else {
                            assert(stack@[stack@.len() - 1].0 == x
                                && stack@[stack@.len() - 1].1 == y);
                        }
                        assert(stack_has(stack@, x, y));
                    }
                }
            }
        }
        traversal
    }

    /// Collect the present, non-border walls around the conceptual cell
    /// `point` - its own left and bottom walls and those of its right and
    /// upper neighbours, at most four - and pick one of them uniformly;
    /// `None` when no such wall stands.
    #[verifier::loop_isolation(false)]
    pub fn pick_random_non_border_edge(
        rng: &mut rand::rngs::StdRng,
        grid: &CellGrid,
        point: XY,
    ) -> (r: Option<CellEdge>)
        requires
            grid.wf(),
            grid.spec_width() >= 4,
            grid.spec_height() >= 4,
            conceptual_pt(grid.spec_width(), grid.spec_height(), point),
        ensures
            r matches Some(edge) ==> valid_repair_edge(*grid, point, edge),
            r is None ==> no_repair_edge(*grid, point),
    {
        let mut edges: Vec<CellEdge> = Vec::new();

        let cell = grid.xy(point.0, point.1);

        if point.0 > 0 && cell.has_left_edge() {
            edges.push(CellEdge { point, is_left_edge: true });
        }
        if point.1 > 0 && cell.has_bottom_edge() {
            edges.push(CellEdge { point, is_left_edge: false });
        }
        if point.0 < grid.width() - 2 {
            let adjacent_right_point = XY(point.0 + 1, point.1);
            if grid.xy(adjacent_right_point.0, adjacent_right_point.1).has_left_edge() {
                edges.push(CellEdge { point: adjacent_right_point, is_left_edge: true });
            }
        }
        if point.1 < grid.height() - 2 {
            let adjacent_above_point = XY(point.0, point.1 + 1);
            if grid.xy(adjacent_above_point.0, adjacent_above_point.1).has_bottom_edge() {
                edges.push(CellEdge { point: adjacent_above_point, is_left_edge: false });
            }
        }

        proof {
            assert(forall|i: int|
                0 <= i < edges@.len() ==> valid_repair_edge(
                    *grid,
                    point,
                    #[trigger] edges@[i],
                ));
        }
        if edges.len() > 0 {
            let k = rng_below(rng, 0, edges.len());
            Some(edges[k])
        } else {
            None
        }
    }

    /// Reset the named wall to undecided; nothing else changes.
    pub fn erase_cell_edge(grid: &mut CellGrid, edge_to_erase: &CellEdge)
        requires
            old(grid).wf(),
            old(grid).in_bounds(
                edge_to_erase.point.0 as int,
                edge_to_erase.point.1 as int,
            ),
        ensures
            final(grid).wf(),
            final(grid).spec_width() == old(grid).spec_width(),
            final(grid).spec_height() == old(grid).spec_height(),
            forall|x: int, y: int|
                old(grid).in_bounds(x, y) && !(x == edge_to_erase.point.0
                    && y == edge_to_erase.point.1) ==> final(grid).at(x, y) == old(
                    grid,
                ).at(x, y),
            final(grid).at(
                edge_to_erase.point.0 as int,
                edge_to_erase.point.1 as int,
            ).kind == old(grid).at(
                edge_to_erase.point.0 as int,
                edge_to_erase.point.1 as int,
            ).kind,
            edge_to_erase.is_left_edge ==> final(grid).at(
                edge_to_erase.point.0 as int,
                edge_to_erase.point.1 as int,
            ) == (GridCell {
                left_edge: EdgeState::Unset,
                ..old(grid).at(edge_to_erase.point.0 as int, edge_to_erase.point.1 as int)
            }),
            !edge_to_erase.is_left_edge ==> final(grid).at(
                edge_to_erase.point.0 as int,
                edge_to_erase.point.1 as int,
            ) == (GridCell {
                bottom_edge: EdgeState::Unset,
                ..old(grid).at(edge_to_erase.point.0 as int, edge_to_erase.point.1 as int)
            }),
    {
        let cell = *grid.xy(edge_to_erase.point.0, edge_to_erase.point.1);
        if edge_to_erase.is_left_edge {
            grid.set_xy(edge_to_erase.point.0, edge_to_erase.point.1, GridCell {
                kind: cell.kind,
                left_edge: EdgeState::Unset,
                bottom_edge: cell.bottom_edge,
            });
        } else {
            grid.set_xy(edge_to_erase.point.0, edge_to_erase.point.1, GridCell {
                kind: cell.kind,
                left_edge: cell.left_edge,
                bottom_edge: EdgeState::Unset,
            });
        }
    }

    /// Flood-fill from `point` and report the pocket it sits in: `None`
    /// exactly when the reached region touches the carved route (it then
    /// has a way out of the maze); otherwise the whole region, every
    /// cell reachable from `point` and nothing else, all off the route,
    /// in ascending conceptual flat-index order.
    #[verifier::loop_isolation(false)]
    #[verifier::rlimit(100)]
    pub fn find_enclosed_section(grid: &CellGrid, point: &XY) -> (r: Option<Vec<XY>>)
        requires
            grid.wf(),
            grid.spec_width() >= 4,
            grid.spec_height() >= 4,
            conceptual_pt(grid.spec_width(), grid.spec_height(), *point),
        ensures
            (r is Some) == pocket_at(*grid, *point),
            r matches Some(section) ==> {
                &&& forall|i: int|
                    0 <= i < section@.len() ==> reachable(
                        *grid,
                        *point,
                        (#[trigger] section@[i]).0 as int,
                        section@[i].1 as int,
                    ) && conceptual_pt(
                        grid.spec_width(),
                        grid.spec_height(),
                        section@[i],
                    ) && !is_route_kind(
                        grid.at(section@[i].0 as int, section@[i].1 as int).kind,
                    )
                &&& exists|i: int| 0 <= i < section@.len() && #[trigger] section@[i] == *point
                &&& forall|x: int, y: int|
                    #[trigger] reachable(*grid, *point, x, y) ==> section@.contains(
                        XY(x as usize, y as usize),
                    )
                &&& forall|a: int, b: int|
                    0 <= a < b < section@.len() ==> conceptual_flat(
                        grid.spec_width(),
                        #[trigger] section@[a],
                    ) < conceptual_flat(grid.spec_width(), #[trigger] section@[b])
            },
    {
        let traversal = Self::visit_all(grid, point);
        let ghost w = grid.spec_width();
        let ghost h = grid.spec_height();
        let ghost pf = (point.1 as int) * (w - 1) + point.0 as int;
        proof {
            crate::grid::lemma_flat_index_in_range(
                w - 1,
                h - 1,
                point.0 as int,
                point.1 as int,
            );
        }

        let mut section: Vec<XY> = Vec::new();
        let tlen = traversal.len();
        let mut i: usize = 0;
        while i < tlen
            invariant
                i <= tlen,
                forall|j: int|
                    0 <= j < section@.len() ==> reachable(
                        *grid,
                        *point,
                        (#[trigger] section@[j]).0 as int,
                        section@[j].1 as int,
                    ) && conceptual_pt(w, h, section@[j]) && !is_route_kind(
                        grid.at(section@[j].0 as int, section@[j].1 as int).kind,
                    ),
                pf < i ==> exists|j: int|
                    0 <= j < section@.len() && #[trigger] section@[j] == *point,
                forall|x: int, y: int|
                    0 <= x < w - 1 && 0 <= y < h - 1 && #[trigger] traversal.at(x, y)
                        && y * (w - 1) + x < i ==> !is_route_kind(grid.at(x, y).kind)
                        && section@.contains(XY(x as usize, y as usize)),
                forall|a: int, b: int|
                    0 <= a < b < section@.len() ==> conceptual_flat(
                        w,
                        #[trigger] section@[a],
                    ) < conceptual_flat(w, #[trigger] section@[b]),
                forall|a: int|
                    0 <= a < section@.len() ==> conceptual_flat(
                        w,
                        #[trigger] section@[a],
                    ) < i,
            decreases tlen - i,
        {
            let p = traversal.index_to_xy(i);
            proof {
                assert(conceptual_flat(w, p) == i);
                if i == pf {
                    crate::grid::lemma_flat_index_injective(
                        w - 1,
                        p.0 as int,
                        p.1 as int,
                        point.0 as int,
                        point.1 as int,
                    );
                    assert(p == *point);
                    assert(traversal.at(p.0 as int, p.1 as int) == true);
                }
            }
            if *traversal.xy(p.0, p.1) {
                let cell = *grid.xy(p.0, p.1);
                match cell.kind {
                    GridCellKind::Path(_) | GridCellKind::PathIntermediate
                    | GridCellKind::End => {
                        proof {
                            assert(reachable(*grid, *point, p.0 as int, p.1 as int));
                            assert(!pocket_at(*grid, *point));
                        }
                        return None;
                    },
                    _ => {
                        let ghost sec0 = section@;
                        section.push(p);
                        proof {
                            if i == pf {
                                assert(section@[section@.len() - 1] == *point);
                            } else if pf < i {
                                let j0 = choose|j: int|
                                    0 <= j < sec0.len() && #[trigger] sec0[j] == *point;
                                assert(section@[j0] == *point);
                            }
                            assert forall|x: int, y: int|
                                0 <= x < w - 1 && 0 <= y < h - 1 && #[trigger] traversal.at(
                                    x,
                                    y,
                                ) && y * (w - 1) + x < i + 1
                                    implies !is_route_kind(grid.at(x, y).kind)
                                    && section@.contains(XY(x as usize, y as usize)) by {
                                if y * (w - 1) + x == i {
                                    crate::grid::lemma_flat_index_injective(
                                        w - 1,
                                        x,
                                        y,
                                        p.0 as int,
                                        p.1 as int,
                                    );
                                    assert(section@[section@.len() - 1] == XY(
                                        x as usize,
                                        y as usize,
                                    ));
                                } else {
                                    assert(sec0.contains(XY(x as usize, y as usize)));
                                    let j0 = choose|j: int|
                                        0 <= j < sec0.len() && sec0[j] == XY(
                                            x as usize,
                                            y as usize,
                                        );
                                    assert(section@[j0] == XY(x as usize, y as usize));
                                }
                            }
                        }
                    },
                }
            } else {
                proof {
                    assert forall|x: int, y: int|
                        0 <= x < w - 1 && 0 <= y < h - 1 && #[trigger] traversal.at(x, y)
                            && y * (w - 1) + x < i + 1
                            implies !is_route_kind(grid.at(x, y).kind) && section@.contains(
                            XY(x as usize, y as usize),
                        ) by {
                        if y * (w - 1) + x == i {
                            crate::grid::lemma_flat_index_injective(
                                w - 1,
                                x,
                                y,
                                p.0 as int,
                                p.1 as int,
                            );
                        }
                    }
                }
            }
            i = i + 1;
        }

        proof {
            assert forall|x: int, y: int| #[trigger] reachable(*grid, *point, x, y)
                implies !is_route_kind(grid.at(x, y).kind) && section@.contains(
                XY(x as usize, y as usize),
            ) by {
                lemma_reachable_conceptual(*grid, *point, x, y);
                let n = choose|n: nat| #[trigger] reaches(*grid, *point, x, y, n);
                lemma_flood_fill_complete(*grid, traversal, *point, x, y, n);
                crate::grid::lemma_flat_index_in_range(w - 1, h - 1, x, y);
            }
            assert(pocket_at(*grid, *point));
        }
        Some(section)
    }

    /// Look for a pocket at `point` and, if one is found, try up to four
    /// times to remove one of the present non-border walls around it:
    /// a removal that breaks the density invariant is undone and another
    /// candidate tried. Reports exactly whether a pocket with an
    /// erasable wall stood here; on a negative report the grid is
    /// untouched, and otherwise at most one candidate wall has been
    /// reset. The density invariant holds afterwards either way, and no
    /// route mark or open wall changes.
    #[verifier::loop_isolation(false)]
    pub fn erase_edge_in_enclosure(&mut self, point: XY) -> (r: bool)
        requires
            old(self).grid.wf(),
            old(self).grid.spec_width() >= 4,
            old(self).grid.spec_height() >= 4,
            conceptual_pt(old(self).grid.spec_width(), old(self).grid.spec_height(), point),
            density_ok(old(self).grid),
        ensures
            final(self).grid.wf(),
            final(self).grid.spec_width() == old(self).grid.spec_width(),
            final(self).grid.spec_height() == old(self).grid.spec_height(),
            density_ok(final(self).grid),
            forall|x: int, y: int|
                old(self).grid.in_bounds(x, y) ==> (#[trigger] final(self).grid.at(x, y)).kind
                    == old(self).grid.at(x, y).kind,
            r == (pocket_at(old(self).grid, point) && !no_repair_edge(old(self).grid, point)),
            !r ==> forall|x: int, y: int|
                old(self).grid.in_bounds(x, y) ==> #[trigger] final(self).grid.at(x, y)
                    == old(self).grid.at(x, y),
            (forall|x: int, y: int|
                old(self).grid.in_bounds(x, y) ==> #[trigger] final(self).grid.at(x, y)
                    == old(self).grid.at(x, y)) || repair_applied(
                old(self).grid,
                final(self).grid,
                point,
            ),
            forall|cx: int, cy: int, l: bool|
                old(self).grid.in_bounds(cx, cy) && (#[trigger] wall_state(
                    old(self).grid,
                    cx,
                    cy,
                    l,
                )) is Off ==> wall_state(final(self).grid, cx, cy, l) is Off,
            final(self).path == old(self).path,
            final(self).state == old(self).state,
            final(self).next_command == old(self).next_command,
            final(self).path_point_count == old(self).path_point_count,
    {
        let ghost w = self.grid.spec_width();
        let ghost h = self.grid.spec_height();

        let enclosed = Self::find_enclosed_section(&self.grid, &point);
        if enclosed.is_some() {
            let mut tries: u32 = 4;
            loop
                invariant
                    self.grid.wf(),
                    self.grid.spec_width() == w,
                    self.grid.spec_height() == h,
                    density_ok(self.grid),
                    tries <= 4,
                    pocket_at(old(self).grid, point),
                    forall|x: int, y: int|
                        old(self).grid.in_bounds(x, y) ==> #[trigger] self.grid.at(x, y)
                            == old(self).grid.at(x, y),
                    self.path == old(self).path,
                    self.state == old(self).state,
                    self.next_command == old(self).next_command,
                    self.path_point_count == old(self).path_point_count,
                decreases tries,
            {
                let picked = Self::pick_random_non_border_edge(
                    &mut self.rng,
                    &self.grid,
                    point,
                );
                match picked {
                    None => {
                        break;
                    },
                    Some(edge_to_erase) => {
                        proof {
                            // A candidate was available, so one is
                            // available around `point` in the old grid
                            // too: the grid has not changed.
                            assert(!no_repair_edge(old(self).grid, point));
                        }
                        if tries == 0 {
                            return true;
                        }
                        let ghost gb = self.grid;
                        let cell_orig = *self.grid.xy(
                            edge_to_erase.point.0,
                            edge_to_erase.point.1,
                        );
                        Self::erase_cell_edge(&mut self.grid, &edge_to_erase);
                        if !Self::has_inner_grid_walls(&self.grid) {
                            tries = tries - 1;
                            self.grid.set_xy(
                                edge_to_erase.point.0,
                                edge_to_erase.point.1,
                                cell_orig,
                            );
                            proof {
                                assert forall|x: int, y: int|
                                    gb.in_bounds(x, y) implies self.grid.at(x, y) == gb.at(
                                    x,
                                    y,
                                ) by {}
                                assert forall|x: int, y: int|
                                    0 <= x < w - 1 && 0 <= y < h - 1
                                        implies #[trigger] block_has_wall(
                                        self.grid,
                                        x,
                                        y,
                                    ) by {
                                    assert(block_has_wall(gb, x, y));
                                    assert(self.grid.at(x + 1, y) == gb.at(x + 1, y));
                                    assert(self.grid.at(x, y + 1) == gb.at(x, y + 1));
                                    assert(self.grid.at(x + 1, y + 1) == gb.at(
                                        x + 1,
                                        y + 1,
                                    ));
                                }
                            }
                        } else {
                            proof {
                                assert(valid_repair_edge(
                                    old(self).grid,
                                    point,
                                    edge_to_erase,
                                ));
                                assert(wall_unset_applied(
                                    old(self).grid,
                                    self.grid,
                                    edge_to_erase,
                                ));
                                assert(repair_applied(
                                    old(self).grid,
                                    self.grid,
                                    point,
                                ));
                            }
                            return true;
                        }
                    },
                }
            }
            // Every candidate failed the density check, or none stood:
            // the grid is back to how it was.
            return false;
        }

        // No pocket here: the region around the point reaches the route.
        false
    }

    /// One repair tick: starting at the stored flat index, find the next
    /// cell inside the conceptual maze, deal with any pocket there, and
    /// advance the stage to the following index. Past the last cell the
    /// machine moves on to the rest stage after a pacing delay.
    #[verifier::loop_isolation(false)]
    pub fn erase_invalid_edges(&mut self, starting_index: usize, now_ms: u64)
        requires
            old(self).wf(),
            old(self).state.stage == GenStage::EraseInvalidEdges(starting_index),
        ensures
            final(self).wf(),
            final(self).grid.spec_width() == old(self).grid.spec_width(),
            final(self).grid.spec_height() == old(self).grid.spec_height(),
            density_ok(final(self).grid),
            forall|x: int, y: int|
                old(self).grid.in_bounds(x, y) ==> (#[trigger] final(self).grid.at(x, y)).kind
                    == old(self).grid.at(x, y).kind,
            final(self).path == old(self).path,
            final(self).next_command == old(self).next_command,
            final(self).path_point_count == old(self).path_point_count,
            repair_tick_post(
                old(self).grid,
                final(self).grid,
                final(self).state.stage,
                starting_index,
            ),
            forall|cx: int, cy: int, l: bool|
                old(self).grid.in_bounds(cx, cy) && (#[trigger] wall_state(
                    old(self).grid,
                    cx,
                    cy,
                    l,
                )) is Off ==> wall_state(final(self).grid, cx, cy, l) is Off,
    {
        let width = self.grid.width();
        let height = self.grid.height();
        let len = self.grid.len();
        let ghost w = self.grid.spec_width();
        let mut i: usize = starting_index;
        while i < len
            invariant
                starting_index <= i,
                self.grid == old(self).grid,
                forall|k: int|
                    starting_index <= k < i ==> !#[trigger] conceptual_index(
                        old(self).grid,
                        k,
                    ),
                self.path == old(self).path,
                self.state == old(self).state,
                self.next_command == old(self).next_command,
                self.path_point_count == old(self).path_point_count,
                self.rng == old(self).rng,
            decreases len - i,
        {
            let point = self.grid.index_to_xy(i);
            if point.0 < width - 1 && point.1 < height - 1 {
                proof {
                    assert(conceptual_index(old(self).grid, i as int));
                    assert(point == flat_to_xy(w, i as int));
                }
                let _handled = self.erase_edge_in_enclosure(point);
                self.set_stage(GenStage::EraseInvalidEdges(i + 1), now_ms);
                proof {
                    assert(repair_tick_post(
                        old(self).grid,
                        self.grid,
                        self.state.stage,
                        starting_index,
                    ));
                }
                return;
            }
            proof {
                assert(!conceptual_index(old(self).grid, i as int));
            }
            i = i + 1;
        }

        self.set_stage_delayed(GenStage::Rest, REST_DELAY_MS, now_ms);
        proof {
            lemma_timed_stage_ok(REST_DELAY_MS, GenStage::Rest, self.grid);
        }
    }

    /// One tick of the density filler: reset every tentative wall to
    /// undecided, then propose each undecided wall anew with the
    /// configured chance. If the density invariant holds afterwards,
    /// schedule edge repair at conceptual index 0 after a pacing delay;
    /// otherwise stay in this stage and let the next tick re-randomize.
    #[verifier::loop_isolation(false)]
    pub fn enable_edges_randomly(&mut self, now_ms: u64)
        requires
            old(self).wf(),
            old(self).state.stage is EnableEdgesRandomly,
        ensures
            final(self).wf(),
            final(self).grid.spec_width() == old(self).grid.spec_width(),
            final(self).grid.spec_height() == old(self).grid.spec_height(),
            forall|x: int, y: int|
                old(self).grid.in_bounds(x, y) ==> #[trigger] final(self).grid.at(x, y)
                    == proposed_cell(old(self).grid.at(x, y)),
            density_ok(final(self).grid) ==> final(self).state.stage
                == GenStage::TimedTransition(
                    ERASE_EDGES_DELAY_MS,
                    Box::new(GenStage::EraseInvalidEdges(0)),
                ) && final(self).state.entry_ms == now_ms,
            !density_ok(final(self).grid) ==> final(self).state == old(self).state,
            forall|cx: int, cy: int, l: bool|
                old(self).grid.in_bounds(cx, cy) && (#[trigger] wall_state(
                    old(self).grid,
                    cx,
                    cy,
                    l,
                )) is Off ==> wall_state(final(self).grid, cx, cy, l) is Off,
            final(self).path == old(self).path,
            final(self).next_command == old(self).next_command,
            final(self).path_point_count == old(self).path_point_count,
    {
        let width = self.grid.width();
        let height = self.grid.height();
        let ghost w = self.grid.spec_width();
        let ghost h = self.grid.spec_height();

        // Per cell: clear a tentative wall left over from a prior failed
        // randomization, then draw afresh for every undecided wall.
        let mut y: usize = 0;
        while y < height
            invariant
                y <= height,
                self.grid.wf(),
                self.grid.spec_width() == w,
                self.grid.spec_height() == h,
                forall|xx: int, yy: int|
                    0 <= xx < w && 0 <= yy < y ==> #[trigger] self.grid.at(xx, yy)
                        == proposed_cell(old(self).grid.at(xx, yy)),
                forall|xx: int, yy: int|
                    0 <= xx < w && y <= yy < h
                        ==> #[trigger] self.grid.at(xx, yy) == old(self).grid.at(xx, yy),
                self.path == old(self).path,
                self.next_command == old(self).next_command,
                self.state == old(self).state,
                self.path_point_count == old(self).path_point_count,
            decreases height - y,
        {
            let mut x: usize = 0;
            while x < width
                invariant
                    x <= width,
                    y < height,
                    self.grid.wf(),
                    self.grid.spec_width() == w,
                    self.grid.spec_height() == h,
                    forall|xx: int, yy: int|
                        0 <= xx < w && 0 <= yy < y ==> #[trigger] self.grid.at(xx, yy)
                            == proposed_cell(old(self).grid.at(xx, yy)),
                    forall|xx: int|
                        0 <= xx < x ==> #[trigger] self.grid.at(xx, y as int)
                            == proposed_cell(old(self).grid.at(xx, y as int)),
                    forall|xx: int|
                        x <= xx < w ==> #[trigger] self.grid.at(xx, y as int)
                            == old(self).grid.at(xx, y as int),
                    forall|xx: int, yy: int|
                        0 <= xx < w && y < yy < h
                            ==> #[trigger] self.grid.at(xx, yy) == old(self).grid.at(xx, yy),
                    self.path == old(self).path,
                    self.next_command == old(self).next_command,
                    self.state == old(self).state,
                    self.path_point_count == old(self).path_point_count,
                decreases width - x,
            {
                let cell = *self.grid.xy(x, y);
                let bottom = match cell.bottom_edge {
                    EdgeState::ProvisionallyOn => EdgeState::Unset,
                    other => other,
                };
                let bottom = match bottom {
                    EdgeState::Unset => {
                        if rng_ratio(&mut self.rng, EDGE_ENABLED_NUM, EDGE_ENABLED_DEN) {
                            EdgeState::ProvisionallyOn
                        } else {
                            EdgeState::Unset
                        }
                    },
                    other => other,
                };
                let left = match cell.left_edge {
                    EdgeState::ProvisionallyOn => EdgeState::Unset,
                    other => other,
                };
                let left = match left {
                    EdgeState::Unset => {
                        if rng_ratio(&mut self.rng, EDGE_ENABLED_NUM, EDGE_ENABLED_DEN) {
                            EdgeState::ProvisionallyOn
                        } else {
                            EdgeState::Unset
                        }
                    },
                    other => other,
                };
                self.grid.set_xy(x, y, GridCell {
                    kind: cell.kind,
                    left_edge: left,
                    bottom_edge: bottom,
                });
                x = x + 1;
            }
            y = y + 1;
        }

        if Self::has_inner_grid_walls(&self.grid) {
            self.set_stage_delayed(
                GenStage::EraseInvalidEdges(0),
                ERASE_EDGES_DELAY_MS,
                now_ms,
            );
            proof {
                lemma_timed_stage_ok(
                    ERASE_EDGES_DELAY_MS,
                    GenStage::EraseInvalidEdges(0),
                    self.grid,
                );
            }
        }
    }

    /// Make every tentative wall final and declare generation done. A
    /// wall's presence never changes here, so the density invariant
    /// carries over to the terminal grid.
    #[verifier::loop_isolation(false)]
    pub fn fill_rest_of_maze(&mut self, now_ms: u64)
        requires
            old(self).wf(),
            old(self).state.stage is Rest,
        ensures
            final(self).wf(),
            final(self).state.stage is Done,
            final(self).state.entry_ms == now_ms,
            density_ok(final(self).grid),
            final(self).grid.spec_width() == old(self).grid.spec_width(),
            final(self).grid.spec_height() == old(self).grid.spec_height(),
            forall|x: int, y: int|
                old(self).grid.in_bounds(x, y)
                    ==> #[trigger] final(self).grid.at(x, y) == finalize_cell(
                        old(self).grid.at(x, y),
                    ),
            forall|cx: int, cy: int, l: bool|
                old(self).grid.in_bounds(cx, cy) && (#[trigger] wall_state(
                    old(self).grid,
                    cx,
                    cy,
                    l,
                )) is Off ==> wall_state(final(self).grid, cx, cy, l) is Off,
            final(self).path == old(self).path,
            final(self).next_command == old(self).next_command,
            final(self).rng == old(self).rng,
            final(self).path_point_count == old(self).path_point_count,
    {
        let width = self.grid.width();
        let height = self.grid.height();
        let ghost w = self.grid.spec_width();
        let ghost h = self.grid.spec_height();

        let mut y: usize = 0;
        while y < height
            invariant
                y <= height,
                self.grid.wf(),
                self.grid.spec_width() == w,
                self.grid.spec_height() == h,
                forall|xx: int, yy: int|
                    0 <= xx < w && 0 <= yy < y ==> #[trigger] self.grid.at(xx, yy)
                        == finalize_cell(old(self).grid.at(xx, yy)),
                forall|xx: int, yy: int|
                    0 <= xx < w && y <= yy < h
                        ==> #[trigger] self.grid.at(xx, yy) == old(self).grid.at(xx, yy),
                self.path == old(self).path,
                self.next_command == old(self).next_command,
                self.rng == old(self).rng,
                self.state == old(self).state,
                self.path_point_count == old(self).path_point_count,
            decreases height - y,
        {
            let mut x: usize = 0;
            while x < width
                invariant
                    x <= width,
                    y < height,
                    self.grid.wf(),
                    self.grid.spec_width() == w,
                    self.grid.spec_height() == h,
                    forall|xx: int, yy: int|
                        0 <= xx < w && 0 <= yy < y ==> #[trigger] self.grid.at(xx, yy)
                            == finalize_cell(old(self).grid.at(xx, yy)),
                    forall|xx: int|
                        0 <= xx < x ==> #[trigger] self.grid.at(xx, y as int)
                            == finalize_cell(old(self).grid.at(xx, y as int)),
                    forall|xx: int|
                        x <= xx < w ==> #[trigger] self.grid.at(xx, y as int)
                            == old(self).grid.at(xx, y as int),
                    forall|xx: int, yy: int|
                        0 <= xx < w && y < yy < h
                            ==> #[trigger] self.grid.at(xx, yy) == old(self).grid.at(xx, yy),
                    self.path == old(self).path,
                    self.next_command == old(self).next_command,
                    self.rng == old(self).rng,
                    self.state == old(self).state,
                    self.path_point_count == old(self).path_point_count,
                decreases width - x,
            {
                let cell = *self.grid.xy(x, y);
                let bottom = match cell.bottom_edge {
                    EdgeState::ProvisionallyOn => EdgeState::On,
                    other => other,
                };
                let left = match cell.left_edge {
                    EdgeState::ProvisionallyOn => EdgeState::On,
                    other => other,
                };
                self.grid.set_xy(x, y, GridCell {
                    kind: cell.kind,
                    left_edge: left,
                    bottom_edge: bottom,
                });
                x = x + 1;
            }
            y = y + 1;
        }

        proof {
            lemma_finalize_keeps_density(old(self).grid, self.grid);
        }
        self.set_stage(GenStage::Done, now_ms);
    }

    /// One tick of the engine: perform the active stage's unit of work.
    /// Border filling, carving and randomizing each finish their whole
    /// stage in one call; edge repair advances by one conceptual cell;
    /// a pacing pause hands over to its wrapped stage once its delay has
    /// elapsed; the terminal stage does nothing at all.
    pub fn update(&mut self, now_ms: u64)
        requires
            old(self).wf(),
        ensures
            final(self).wf(),
            final(self).grid.spec_width() == old(self).grid.spec_width(),
            final(self).grid.spec_height() == old(self).grid.spec_height(),
            final(self).next_command == old(self).next_command,
            final(self).path_point_count == old(self).path_point_count,
            old(self).state.stage is Done ==> *final(self) == *old(self),
            old(self).state.stage matches GenStage::TimedTransition(d, next) ==> {
                &&& elapsed_ms(old(self).state.entry_ms, now_ms) < d ==> *final(self)
                    == *old(self)
                &&& elapsed_ms(old(self).state.entry_ms, now_ms) >= d ==> {
                    &&& final(self).state.stage == *next
                    &&& final(self).state.entry_ms == now_ms
                    &&& final(self).grid == old(self).grid
                    &&& final(self).path == old(self).path
                    &&& final(self).rng == old(self).rng
                }
            },
            old(self).state.stage is Borders ==> borders_just_filled(final(self).grid)
                && final(self).state.stage == GenStage::TimedTransition(
                PATH_DELAY_MS,
                Box::new(GenStage::Path),
            ),
            old(self).state.stage is Path ==> {
                ||| (final(self).state.stage is Path && final(self).grid == old(self).grid
                    && final(self).path == old(self).path && final(self).state == old(
                    self,
                ).state)
                ||| (final(self).state.stage == GenStage::TimedTransition(
                    ENABLE_EDGES_DELAY_MS,
                    Box::new(GenStage::EnableEdgesRandomly),
                ) && final(self).state.entry_ms == now_ms && (exists|wp: Seq<PathPoint>|
                    #[trigger] carve_commit_ok(final(self).grid, wp) && wp.len() == old(
                        self,
                    ).path_point_count) && final(self).path@ == extract_upto(
                    final(self).grid,
                    final(self).grid@.len() as int,
                ))
            },
            old(self).state.stage is EnableEdgesRandomly ==> {
                &&& forall|x: int, y: int|
                    old(self).grid.in_bounds(x, y) ==> #[trigger] final(self).grid.at(x, y)
                        == proposed_cell(old(self).grid.at(x, y))
                &&& (density_ok(final(self).grid) ==> final(self).state.stage
                    == GenStage::TimedTransition(
                    ERASE_EDGES_DELAY_MS,
                    Box::new(GenStage::EraseInvalidEdges(0)),
                ) && final(self).state.entry_ms == now_ms)
                &&& (!density_ok(final(self).grid) ==> final(self).state == old(self).state)
            },
            old(self).state.stage matches GenStage::EraseInvalidEdges(idx) ==> {
                &&& repair_tick_post(
                    old(self).grid,
                    final(self).grid,
                    final(self).state.stage,
                    idx,
                )
                &&& density_ok(final(self).grid)
            },
            old(self).state.stage is Rest ==> final(self).state.stage is Done && density_ok(
                final(self).grid,
            ) && (forall|x: int, y: int|
                old(self).grid.in_bounds(x, y) ==> #[trigger] final(self).grid.at(x, y)
                    == finalize_cell(old(self).grid.at(x, y))),
    {
        let stage = self.state.stage.duplicate();
        match stage {
            GenStage::Borders => self.fill_borders(now_ms),
            GenStage::Path => self.update_path(now_ms),
            GenStage::EnableEdgesRandomly => self.enable_edges_randomly(now_ms),
            GenStage::EraseInvalidEdges(starting_index) => self.erase_invalid_edges(
                starting_index,
                now_ms,
            ),
            GenStage::Rest => self.fill_rest_of_maze(now_ms),
            GenStage::TimedTransition(duration, next_stage) => {
                let elapsed = if now_ms >= self.state.entry_ms {
                    now_ms - self.state.entry_ms
                } else {
                    0
                };
                if elapsed >= duration {
                    self.set_stage(*next_stage, now_ms);
                }
            },
            GenStage::Done => {},
        }
    }

    /// How many of the four walls around the conceptual cell `point` are
    /// absent.
    pub fn count_exits(grid: &CellGrid, point: &XY) -> (r: usize)
        requires
            grid.wf(),
            point.0 + 1 < grid.spec_width(),
            point.1 + 1 < grid.spec_height(),
        ensures
            r == spec_count_exits(*grid, point.0 as int, point.1 as int),
    {
        let width = grid.width();
        let height = grid.height();
        let mut exit_count: usize = 0;

        proof {
            assert(point.0 + 1 < width && point.1 + 1 < height);
        }
        let cell = grid.xy(point.0, point.1);
        if !cell.has_left_edge() {
            exit_count = exit_count + 1;
        }
        if !cell.has_bottom_edge() {
            exit_count = exit_count + 1;
        }
        if !grid.xy(point.0 + 1, point.1).has_left_edge() {
            exit_count = exit_count + 1;
        }
        if !grid.xy(point.0, point.1 + 1).has_bottom_edge() {
            exit_count = exit_count + 1;
        }

        exit_count
    }

    /// Whether the grid's wall layout is acceptable; the density
    /// invariant is the one structural rule enforced.
    pub fn has_valid_edges(grid: &CellGrid) -> (r: bool)
        requires
            grid.wf(),
            grid.spec_width() >= 1,
            grid.spec_height() >= 1,
        ensures
            r == density_ok(*grid),
    {
        Self::has_inner_grid_walls(grid)
    }

    /// Accept a command from the host's input layer: it is recorded only
    /// while no other command is pending, and whether it was taken is
    /// reported back.
    pub fn offer_command(&mut self, command: Command) -> (accepted: bool)
        ensures
            accepted == (old(self).next_command is None),
            accepted ==> final(self).next_command == Some(command),
            !accepted ==> final(self).next_command == old(self).next_command,
            final(self).grid == old(self).grid,
            final(self).path == old(self).path,
            final(self).state == old(self).state,
            final(self).rng == old(self).rng,
            final(self).path_point_count == old(self).path_point_count,
    {
        if self.next_command.is_none() {
            self.next_command = Some(command);
            true
        } else {
            false
        }
    }

    /// Act on the pending host command, if any: `Refresh` restarts
    /// generation, `Exit` is reported back for the host to act on. The
    /// pending command is consumed either way.
    pub fn process_command(&mut self, now_ms: u64) -> (exit: bool)
        requires
            old(self).wf(),
        ensures
            final(self).wf(),
            exit == (old(self).next_command == Some(Command::Exit)),
            final(self).next_command is None,
            old(self).next_command == Some(Command::Refresh) ==> {
                &&& all_cells_blank(final(self).grid)
                &&& final(self).path@.len() == 0
                &&& final(self).state.stage is Borders
                &&& final(self).state.entry_ms == now_ms
            },
            old(self).next_command != Some(Command::Refresh) ==> {
                &&& final(self).grid == old(self).grid
                &&& final(self).path == old(self).path
                &&& final(self).state == old(self).state
            },
            final(self).rng == old(self).rng,
            final(self).grid.spec_width() == old(self).grid.spec_width(),
            final(self).grid.spec_height() == old(self).grid.spec_height(),
            final(self).path_point_count == old(self).path_point_count,
    {
        let mut exit = false;
        match self.next_command {
            Some(Command::Exit) => {
                exit = true;
            },
            Some(Command::Refresh) => {
                self.start_generate_maze(now_ms);
            },
            None => {},
        }
        self.next_command = None;
        exit
    }
}

} // verus!
