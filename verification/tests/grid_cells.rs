use mazes::cell::{EdgeState, GridCell, GridCellKind};
use mazes::grid::{Grid, XY};

#[test]
fn grid_new_fills_with_template() {
    let g: Grid<u8> = Grid::new(3, 4, &7u8);
    assert_eq!(g.width(), 3);
    assert_eq!(g.height(), 4);
    assert_eq!(g.len(), 12);
    for y in 0..4 {
        for x in 0..3 {
            assert_eq!(*g.xy(x, y), 7u8);
        }
    }
}

#[test]
fn grid_set_and_get_by_xy_and_rc() {
    let mut g: Grid<u32> = Grid::new(4, 3, &0u32);
    g.set_xy(2, 1, 99);
    assert_eq!(*g.xy(2, 1), 99);
    // (row, col) = (1, 2) addresses the same cell as (x, y) = (2, 1).
    assert_eq!(*g.rc(1, 2), 99);
    assert_eq!(*g.xy(1, 2), 0);
}

#[test]
fn index_to_xy_inverts_flat_index() {
    let g: Grid<bool> = Grid::new(5, 4, &false);
    for i in 0..20usize {
        let p = g.index_to_xy(i);
        assert_eq!(p.1 * 5 + p.0, i);
        assert_eq!(p.0, i % 5);
        assert_eq!(p.1, i / 5);
    }
}

#[test]
fn new_cell_is_blank() {
    let c = GridCell::new();
    assert!(matches!(c.kind, GridCellKind::Empty));
    assert!(matches!(c.left_edge, EdgeState::Unset));
    assert!(matches!(c.bottom_edge, EdgeState::Unset));
}

#[test]
fn wall_presence_follows_edge_state() {
    let mut c = GridCell::new();
    assert!(!c.has_left_edge());
    assert!(!c.has_bottom_edge());
    c.left_edge = EdgeState::On;
    c.bottom_edge = EdgeState::ProvisionallyOn;
    assert!(c.has_left_edge());
    assert!(c.has_bottom_edge());
    c.left_edge = EdgeState::Off;
    c.bottom_edge = EdgeState::Unset;
    assert!(!c.has_left_edge());
    assert!(!c.has_bottom_edge());
}

#[test]
fn xy_equality_is_by_coordinates() {
    assert_eq!(XY(2, 3), XY(2, 3));
    assert_ne!(XY(2, 3), XY(3, 2));
}
