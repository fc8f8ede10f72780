use gridnav::grid::{CellType, Grid, Traversal, IMPASSABLE_COST};
use gridnav::point::Point;

#[test]
fn glyphs_round_trip() {
    for c in [CellType::Empty, CellType::Wall, CellType::Start, CellType::CommandRoom, CellType::Unknown] {
        assert_eq!(CellType::from_char(c.as_char()), c);
    }
    assert_eq!(CellType::from_char('x'), CellType::Unknown);
    assert_eq!(CellType::Wall.as_char(), '#');
    assert_eq!(CellType::CommandRoom.as_char(), 'C');
}

#[test]
fn new_grid_is_empty_and_sized() {
    let g = Grid::new(3, 2, Traversal::AnyButWall);
    assert_eq!(g.width, 3);
    assert_eq!(g.height, 2);
    assert_eq!(g.cells.len(), 6);
    assert_eq!(g.get_cell(&Point::new(2, 1)), Some(CellType::Empty));
}

#[test]
fn lookups_outside_the_grid_are_absent() {
    let g = Grid::new(3, 2, Traversal::AnyButWall);
    assert_eq!(g.get_cell(&Point::new(3, 0)), None);
    assert_eq!(g.get_cell(&Point::new(-1, 0)), None);
    assert_eq!(g.get_cell(&Point::new(0, 2)), None);
    assert_eq!(g.get_cell_cost(&Point::new(0, -1)), IMPASSABLE_COST);
}

#[test]
fn writes_outside_the_grid_are_ignored() {
    let mut g = Grid::new(2, 2, Traversal::AnyButWall);
    let before = g.cells.clone();
    g.set_cell_type(&Point::new(2, 0), CellType::Wall);
    g.set_cell_type(&Point::new(-1, 1), CellType::Wall);
    assert_eq!(g.cells, before);
    g.set_cell_type(&Point::new(1, 1), CellType::Wall);
    assert_eq!(g.get_cell(&Point::new(1, 1)), Some(CellType::Wall));
    assert_eq!(g.get_cell_index(&Point::new(1, 1)), 3);
}

#[test]
fn costs_by_class() {
    let mut g = Grid::new(4, 1, Traversal::AnyButWall);
    g.set_cell_type(&Point::new(1, 0), CellType::Wall);
    g.set_cell_type(&Point::new(2, 0), CellType::CommandRoom);
    g.set_cell_type(&Point::new(3, 0), CellType::Unknown);
    assert_eq!(g.get_cell_cost(&Point::new(0, 0)), 1);
    assert_eq!(g.get_cell_cost(&Point::new(1, 0)), IMPASSABLE_COST);
    assert_eq!(g.get_cell_cost(&Point::new(2, 0)), 10);
    assert_eq!(g.get_cell_cost(&Point::new(3, 0)), 1);
}

#[test]
fn costs_under_empty_only() {
    let mut g = Grid::new(2, 1, Traversal::EmptyOnly);
    g.set_cell_type(&Point::new(1, 0), CellType::CommandRoom);
    assert_eq!(g.get_cell_cost(&Point::new(0, 0)), 1);
    assert_eq!(g.get_cell_cost(&Point::new(1, 0)), IMPASSABLE_COST);
    assert!(!g.is_passable(&Point::new(1, 0)));
}

#[test]
fn neighbours_in_order_and_filtered() {
    let mut g = Grid::new(3, 3, Traversal::AnyButWall);
    assert_eq!(
        g.get_neighbors_points(&Point::new(1, 1)),
        vec![Point::new(0, 1), Point::new(2, 1), Point::new(1, 0), Point::new(1, 2)]
    );
    g.set_cell_type(&Point::new(2, 1), CellType::Wall);
    assert_eq!(
        g.get_neighbors_points(&Point::new(1, 1)),
        vec![Point::new(0, 1), Point::new(1, 0), Point::new(1, 2)]
    );
    assert_eq!(g.get_neighbors_points(&Point::new(0, 0)), vec![Point::new(1, 0), Point::new(0, 1)]);
}

#[test]
fn neighbours_do_not_wrap_rows() {
    let g = Grid::new(3, 2, Traversal::AnyButWall);
    let n = g.get_neighbors_points(&Point::new(0, 1));
    assert!(!n.contains(&Point::new(2, 0)));
    assert_eq!(n, vec![Point::new(1, 1), Point::new(0, 0)]);
}

#[test]
fn unknown_turns_to_wall() {
    let mut g = Grid::new(3, 1, Traversal::AnyButWall);
    g.set_cell_type(&Point::new(0, 0), CellType::Unknown);
    g.set_cell_type(&Point::new(1, 0), CellType::CommandRoom);
    g.set_unknown_as_wall();
    assert_eq!(g.cells, vec![CellType::Wall, CellType::CommandRoom, CellType::Empty]);
}

#[test]
fn filled_grid_has_one_class() {
    let g = Grid::filled(2, 2, CellType::Unknown, Traversal::EmptyOnly);
    assert!(g.cells.iter().all(|c| *c == CellType::Unknown));
    assert_eq!(g.traversal, Traversal::EmptyOnly);
}

#[test]
fn point_distances() {
    let a = Point::new(1, 2);
    let b = Point::new(4, -2);
    assert_eq!(a.manhattan_distance(&b), 7);
    assert_eq!(a.get_squared_distance(&b), 25);
    assert_eq!(a.manhattan_distance(&a), 0);
}
