use gridnav::grid::{CellType, Grid, Traversal};
use gridnav::point::Point;

fn grid_of(rows: &[&str], traversal: Traversal) -> Grid {
    let h = rows.len() as i32;
    let w = rows[0].chars().count() as i32;
    let mut g = Grid::new(w, h, traversal);
    for (y, row) in rows.iter().enumerate() {
        for (x, c) in row.chars().enumerate() {
            g.set_cell_type(&Point::new(x as i32, y as i32), CellType::from_char(c));
        }
    }
    g
}

fn cost_of(g: &Grid, path: &[Point]) -> i64 {
    path.iter().map(|p| g.get_cell_cost(p) as i64).sum()
}

fn pts(v: &[(i32, i32)]) -> Vec<Point> {
    v.iter().map(|&(x, y)| Point::new(x, y)).collect()
}

#[test]
fn open_row_gives_straight_path() {
    let g = grid_of(&[".....", ".###.", "....."], Traversal::AnyButWall);
    let path = g.astar(&Point::new(0, 0), &Point::new(4, 0));
    assert_eq!(path, pts(&[(1, 0), (2, 0), (3, 0), (4, 0)]));
    assert_eq!(cost_of(&g, &path), 4);
}

#[test]
fn blocked_target_gives_empty_path() {
    let g = grid_of(&[".....", ".###.", "....."], Traversal::AnyButWall);
    let path = g.astar(&Point::new(0, 0), &Point::new(2, 1));
    assert!(path.is_empty());
}

#[test]
fn special_cell_off_the_short_route() {
    let g = grid_of(&[".....", ".C...", "....."], Traversal::AnyButWall);
    let path = g.astar(&Point::new(0, 0), &Point::new(0, 2));
    assert_eq!(path, pts(&[(0, 1), (0, 2)]));
    assert_eq!(cost_of(&g, &path), 2);
}

#[test]
fn detour_beats_crossing_special_cell() {
    let g = grid_of(&[".....", "C....", "....."], Traversal::AnyButWall);
    let path = g.astar(&Point::new(0, 0), &Point::new(0, 2));
    assert_eq!(cost_of(&g, &path), 4);
    assert!(!path.contains(&Point::new(0, 1)));
    assert_eq!(path.last(), Some(&Point::new(0, 2)));
}

#[test]
fn special_cell_used_when_it_is_the_only_way() {
    let g = grid_of(&["#.#", "#C#", "#.#"], Traversal::AnyButWall);
    let path = g.astar(&Point::new(1, 0), &Point::new(1, 2));
    assert_eq!(path, pts(&[(1, 1), (1, 2)]));
    assert_eq!(cost_of(&g, &path), 11);
}

#[test]
fn walled_off_target_is_unreachable() {
    let g = grid_of(&["..#..", "..#..", "..#.."], Traversal::AnyButWall);
    assert!(g.astar(&Point::new(0, 0), &Point::new(4, 2)).is_empty());
}

#[test]
fn start_equal_to_target_gives_empty_path() {
    let g = grid_of(&["...", "..."], Traversal::AnyButWall);
    assert!(g.astar(&Point::new(1, 1), &Point::new(1, 1)).is_empty());
}

#[test]
fn path_shape_holds() {
    let g = grid_of(&["..#....", ".##.##.", "...#...", "#.....#"], Traversal::AnyButWall);
    let start = Point::new(0, 0);
    let path = g.astar(&start, &Point::new(6, 0));
    assert!(!path.is_empty());
    assert!(!path.contains(&start));
    assert_eq!(path.last(), Some(&Point::new(6, 0)));
    let mut prev = start;
    for p in &path {
        assert_eq!(prev.manhattan_distance(p), 1);
        assert!(g.is_passable(p));
        prev = *p;
    }
    assert_eq!(path.len(), 12);
}

#[test]
fn repeated_search_gives_same_path() {
    let g = grid_of(&["......", "......", "......", "......"], Traversal::AnyButWall);
    let a = g.astar(&Point::new(0, 0), &Point::new(5, 3));
    let b = g.astar(&Point::new(0, 0), &Point::new(5, 3));
    assert_eq!(a, b);
    assert_eq!(a.len(), 8);
}

#[test]
fn empty_only_traversal_avoids_other_classes() {
    let g = grid_of(&["...", "?C.", "..."], Traversal::EmptyOnly);
    let path = g.astar(&Point::new(0, 0), &Point::new(0, 2));
    assert_eq!(path, pts(&[(1, 0), (2, 0), (2, 1), (2, 2), (1, 2), (0, 2)]));
}

#[test]
fn unknown_cells_are_passable_when_only_walls_block() {
    let g = grid_of(&["?????"], Traversal::AnyButWall);
    let path = g.astar(&Point::new(0, 0), &Point::new(4, 0));
    assert_eq!(path.len(), 4);
}

#[test]
fn equal_grids_give_equal_paths() {
    let rows = [".......", ".#.#.#.", "......."];
    let a = grid_of(&rows, Traversal::AnyButWall);
    let mut b = Grid::new(7, 3, Traversal::AnyButWall);
    for (y, row) in rows.iter().enumerate().rev() {
        for (x, c) in row.chars().collect::<Vec<_>>().into_iter().enumerate().rev() {
            b.set_cell_type(&Point::new(x as i32, y as i32), CellType::from_char(c));
        }
    }
    let start = Point::new(0, 1);
    let target = Point::new(6, 1);
    assert_eq!(a.astar(&start, &target), b.astar(&start, &target));
    assert_eq!(a.astar(&start, &target).len(), 8);
}
