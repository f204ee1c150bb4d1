use mazes::cell::{EdgeState, GridCellKind};
use mazes::grid::XY;
use mazes::maze::{CellGrid, Command, GenStage, GridState};

/// One readable character per field so a whole grid becomes one string.
fn edge_char(e: EdgeState) -> char {
    match e {
        EdgeState::Unset => 'U',
        EdgeState::Off => 'O',
        EdgeState::ProvisionallyOn => 'P',
        EdgeState::On => 'N',
    }
}

fn kind_char(k: GridCellKind) -> char {
    match k {
        GridCellKind::Empty => '.',
        GridCellKind::Path(n) => char::from_digit((n % 10) as u32, 10).unwrap(),
        GridCellKind::PathIntermediate => '+',
        GridCellKind::End => '!',
    }
}

fn encode(g: &CellGrid) -> String {
    let mut out = String::new();
    for y in 0..g.height() {
        for x in 0..g.width() {
            let c = *g.xy(x, y);
            out.push(kind_char(c.kind));
            out.push(edge_char(c.left_edge));
            out.push(edge_char(c.bottom_edge));
        }
        out.push('/');
    }
    out
}

fn tick_n(e: &mut GridState, now: &mut u64, n: usize) {
    for _ in 0..n {
        e.update(*now);
        *now += 10_000;
    }
}

fn run_to_done(e: &mut GridState, now: &mut u64) {
    for _ in 0..100_000 {
        if matches!(e.state.stage, GenStage::Done) {
            return;
        }
        e.update(*now);
        *now += 10_000;
    }
    panic!("generation did not finish");
}

fn run_to_carved(e: &mut GridState, now: &mut u64) {
    for _ in 0..100_000 {
        if let GenStage::TimedTransition(_, next) = &e.state.stage {
            if matches!(**next, GenStage::EnableEdgesRandomly) {
                return;
            }
        }
        e.update(*now);
        *now += 10_000;
    }
    panic!("carving did not finish");
}

/// The positions of the start (step 0) and end waypoints.
fn start_and_end(g: &CellGrid) -> (XY, XY) {
    let mut start = None;
    let mut end = None;
    for y in 0..g.height() {
        for x in 0..g.width() {
            match g.xy(x, y).kind {
                GridCellKind::Path(0) => start = Some(XY(x, y)),
                GridCellKind::End => end = Some(XY(x, y)),
                _ => {},
            }
        }
    }
    (start.expect("no start waypoint"), end.expect("no end waypoint"))
}

/// All border walls of the conceptual maze that stand `Off`, as
/// (cell x, cell y, is left wall) triples.
fn open_border_walls(g: &CellGrid) -> Vec<(usize, usize, bool)> {
    let w = g.width();
    let h = g.height();
    let mut open = Vec::new();
    for y in 0..h - 1 {
        for &x in &[0, w - 1] {
            if matches!(g.xy(x, y).left_edge, EdgeState::Off) {
                open.push((x, y, true));
            }
        }
    }
    for x in 0..w - 1 {
        for &y in &[0, h - 1] {
            if matches!(g.xy(x, y).bottom_edge, EdgeState::Off) {
                open.push((x, y, false));
            }
        }
    }
    open
}

/// Whether the named border wall is the one opened for `p`.
fn adjacent_border_wall(g: &CellGrid, p: XY, wall: (usize, usize, bool)) -> bool {
    let w = g.width();
    let h = g.height();
    let (cx, cy, left) = wall;
    if left {
        cy == p.1 && ((p.0 == 0 && cx == 0) || (p.0 == w - 2 && cx == w - 1))
    } else {
        cx == p.0 && ((p.1 == 0 && cy == 0) || (p.1 == h - 2 && cy == h - 1))
    }
}

#[test]
fn identical_seeds_give_identical_grids() {
    let mut a = GridState::new(777, 8, 8, 5, 0);
    let mut b = GridState::new(777, 8, 8, 5, 0);
    let mut na: u64 = 0;
    let mut nb: u64 = 0;
    run_to_done(&mut a, &mut na);
    run_to_done(&mut b, &mut nb);
    assert_eq!(encode(&a.grid), encode(&b.grid));
}

#[test]
fn done_grid_keeps_density_invariant() {
    for seed in [1u64, 2, 3, 42] {
        let mut e = GridState::new(seed, 6, 7, 4, 0);
        let mut now: u64 = 0;
        run_to_done(&mut e, &mut now);
        assert!(GridState::has_inner_grid_walls(&e.grid));
    }
}

#[test]
fn committed_path_has_exactly_the_asked_waypoints() {
    let mut e = GridState::new(11, 7, 7, 4, 0);
    let mut now: u64 = 0;
    run_to_carved(&mut e, &mut now);
    assert_eq!(e.path.len(), 4);
    let mut marks = [0usize; 4];
    let mut ends = 0usize;
    for y in 0..e.grid.height() {
        for x in 0..e.grid.width() {
            match e.grid.xy(x, y).kind {
                GridCellKind::Path(n) => {
                    assert!(n < 3, "step number out of range");
                    marks[n] += 1;
                },
                GridCellKind::End => ends += 1,
                _ => {},
            }
        }
    }
    assert_eq!(marks[0], 1);
    assert_eq!(marks[1], 1);
    assert_eq!(marks[2], 1);
    assert_eq!(ends, 1);
}

#[test]
fn carving_opens_one_border_wall_at_start_and_end() {
    for seed in [5u64, 9, 21] {
        let mut e = GridState::new(seed, 6, 6, 3, 0);
        let mut now: u64 = 0;
        run_to_carved(&mut e, &mut now);
        let (start, end) = start_and_end(&e.grid);
        let open = open_border_walls(&e.grid);
        assert_eq!(open.len(), 2, "expected exactly two border openings");
        let at_start = open
            .iter()
            .filter(|&&wall| adjacent_border_wall(&e.grid, start, wall))
            .count();
        let at_end = open
            .iter()
            .filter(|&&wall| adjacent_border_wall(&e.grid, end, wall))
            .count();
        assert_eq!(at_start, 1);
        assert_eq!(at_end, 1);
    }
}

#[test]
fn flood_fill_connects_start_to_end_after_carving() {
    for seed in [4u64, 8, 15, 16, 23] {
        let mut e = GridState::new(seed, 7, 6, 4, 0);
        let mut now: u64 = 0;
        run_to_carved(&mut e, &mut now);
        let (start, end) = start_and_end(&e.grid);
        let traversal = GridState::visit_all(&e.grid, &start);
        assert!(*traversal.xy(end.0, end.1), "end not reached from start");
    }
}

#[test]
fn tick_on_done_is_idempotent() {
    let mut e = GridState::new(42, 5, 5, 3, 0);
    let mut now: u64 = 0;
    run_to_done(&mut e, &mut now);
    let before = encode(&e.grid);
    tick_n(&mut e, &mut now, 5);
    assert!(matches!(e.state.stage, GenStage::Done));
    assert_eq!(encode(&e.grid), before);
}

#[test]
fn refresh_resets_grid_and_restarts_at_borders() {
    let mut e = GridState::new(42, 5, 5, 3, 0);
    let mut now: u64 = 0;
    run_to_done(&mut e, &mut now);
    e.next_command = Some(Command::Refresh);
    let exit = e.process_command(now);
    assert!(!exit);
    assert!(e.next_command.is_none());
    assert!(matches!(e.state.stage, GenStage::Borders));
    assert!(e.path.is_empty());
    for y in 0..e.grid.height() {
        for x in 0..e.grid.width() {
            let c = e.grid.xy(x, y);
            assert!(matches!(c.kind, GridCellKind::Empty));
            assert!(matches!(c.left_edge, EdgeState::Unset));
            assert!(matches!(c.bottom_edge, EdgeState::Unset));
        }
    }
    // The engine carves a fresh maze afterwards.
    run_to_done(&mut e, &mut now);
    assert!(matches!(e.state.stage, GenStage::Done));
}

#[test]
fn exit_command_is_reported_to_the_host() {
    let mut e = GridState::new(1, 5, 5, 3, 0);
    e.next_command = Some(Command::Exit);
    let exit = e.process_command(0);
    assert!(exit);
    assert!(e.next_command.is_none());
    assert!(matches!(e.state.stage, GenStage::Borders));
}

#[test]
fn pacing_pause_gates_the_next_stage() {
    let mut e = GridState::new(3, 5, 5, 3, 0);
    // The border stage finishes at once and schedules carving after a
    // 1000 ms pause.
    e.update(0);
    assert!(matches!(e.state.stage, GenStage::TimedTransition(1000, _)));
    let before = encode(&e.grid);
    e.update(500);
    assert!(matches!(e.state.stage, GenStage::TimedTransition(1000, _)));
    assert_eq!(encode(&e.grid), before);
    e.update(1000);
    assert!(matches!(e.state.stage, GenStage::Path));
    assert_eq!(encode(&e.grid), before);
}

#[test]
fn borders_stage_walls_the_outer_boundary() {
    let mut e = GridState::new(6, 5, 4, 3, 0);
    e.update(0);
    let g = &e.grid;
    let (w, h) = (g.width(), g.height());
    for y in 0..h {
        for x in 0..w {
            let c = g.xy(x, y);
            let left = if y != h - 1 && (x == 0 || x == w - 1) {
                EdgeState::On
            } else {
                EdgeState::Unset
            };
            let bottom = if x != w - 1 && (y == 0 || y == h - 1) {
                EdgeState::On
            } else {
                EdgeState::Unset
            };
            assert_eq!(c.left_edge, left);
            assert_eq!(c.bottom_edge, bottom);
            assert!(matches!(c.kind, GridCellKind::Empty));
        }
    }
}

#[test]
fn golden_run_seed_42() {
    let mut e = GridState::new(42, 5, 5, 3, 0);
    let mut now: u64 = 0;
    run_to_done(&mut e, &mut now);
    let got = encode(&e.grid);
    assert_eq!(
        got,
        ".NN.UN!NO.UN.NN/.NN.NU+UO.UN.NN/.NU.UU+NO.NN.NN/.NN.UN1UO0OU.ON/.NN.NN.NN.NN.NN/",
    );

    // Every one of the 16 conceptual cells is reachable from (0, 0).
    let traversal = GridState::visit_all(&e.grid, &XY(0, 0));
    let mut reached = 0usize;
    for y in 0..4 {
        for x in 0..4 {
            if *traversal.xy(x, y) {
                reached += 1;
            }
        }
    }
    assert_eq!(reached, 16);
}

#[test]
fn a_pending_command_is_not_overwritten() {
    let mut e = GridState::new(2, 5, 5, 3, 0);
    assert!(e.offer_command(Command::Refresh));
    assert!(!e.offer_command(Command::Exit));
    assert!(matches!(e.next_command, Some(Command::Refresh)));
    let exit = e.process_command(0);
    assert!(!exit);
}

#[test]
fn minimal_size_maze_generates() {
    let mut e = GridState::new(13, 4, 4, 2, 0);
    let mut now: u64 = 0;
    run_to_done(&mut e, &mut now);
    assert!(GridState::has_inner_grid_walls(&e.grid));
    assert_eq!(e.path.len(), 2);
}

#[test]
fn count_exits_counts_absent_walls() {
    let mut e = GridState::new(9, 5, 5, 3, 0);
    // After the border stage the interior is entirely open.
    e.update(0);
    assert_eq!(GridState::count_exits(&e.grid, &XY(1, 1)), 4);
    // A corner cell keeps its two border walls.
    assert_eq!(GridState::count_exits(&e.grid, &XY(0, 0)), 2);
}

#[test]
fn valid_edges_means_the_density_invariant() {
    let mut e = GridState::new(10, 5, 5, 3, 0);
    // A blank grid has no walls at all, so some 2-by-2 block is open.
    assert!(!GridState::has_valid_edges(&e.grid));
    let mut now: u64 = 0;
    run_to_done(&mut e, &mut now);
    assert!(GridState::has_valid_edges(&e.grid));
}

#[test]
fn carving_touches_nothing_beyond_the_route() {
    let mut e = GridState::new(31, 6, 6, 3, 0);
    let mut now: u64 = 0;
    run_to_carved(&mut e, &mut now);
    let g = &e.grid;
    for y in 0..g.height() {
        for x in 0..g.width() {
            let c = g.xy(x, y);
            // Carving only ever opens walls: nothing is tentatively or
            // newly raised before the density filler runs.
            assert!(!matches!(c.left_edge, EdgeState::ProvisionallyOn));
            assert!(!matches!(c.bottom_edge, EdgeState::ProvisionallyOn));
            // A cell off the route is still empty; a slid-through cell
            // sits next to a wall the slide opened.
            if matches!(c.kind, GridCellKind::PathIntermediate) {
                let opened = matches!(c.left_edge, EdgeState::Off)
                    || matches!(c.bottom_edge, EdgeState::Off)
                    || (x + 1 < g.width()
                        && matches!(g.xy(x + 1, y).left_edge, EdgeState::Off))
                    || (y + 1 < g.height()
                        && matches!(g.xy(x, y + 1).bottom_edge, EdgeState::Off));
                assert!(opened, "slid-through cell with no opened wall");
            }
        }
    }
}

#[test]
fn repair_leaves_open_walls_open() {
    // Walls opened by carving stay open through randomize, repair and
    // the rest stage: at Done the route's openings are still there.
    let mut e = GridState::new(42, 5, 5, 3, 0);
    let mut now: u64 = 0;
    run_to_carved(&mut e, &mut now);
    let open_before = open_border_walls(&e.grid);
    run_to_done(&mut e, &mut now);
    let open_after = open_border_walls(&e.grid);
    for wall in &open_before {
        assert!(open_after.contains(wall), "a border opening was sealed");
    }
}
