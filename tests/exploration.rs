use gridnav::grid::{CellType, Grid, Traversal};
use gridnav::point::Point;

fn grid_of(rows: &[&str]) -> Grid {
    let h = rows.len() as i32;
    let w = rows[0].chars().count() as i32;
    let mut g = Grid::new(w, h, Traversal::AnyButWall);
    for (y, row) in rows.iter().enumerate() {
        for (x, c) in row.chars().enumerate() {
            g.set_cell_type(&Point::new(x as i32, y as i32), CellType::from_char(c));
        }
    }
    g
}

#[test]
fn tie_goes_to_the_earlier_row() {
    let g = grid_of(&["....?", ".....", ".....", ".....", "?...."]);
    let r = g.next_exploration_step(&Point::new(0, 0), None, None);
    assert_eq!(r, Some((Point::new(1, 0), Some(Point::new(4, 0)))));
}

#[test]
fn nearest_cells_in_trial_order() {
    let g = grid_of(&["....?", "?....", ".....", "..?..", "?...?"]);
    let c = g.nearest_unknown_cells(&Point::new(0, 0), 4);
    assert_eq!(c, vec![Point::new(0, 1), Point::new(4, 0), Point::new(0, 4), Point::new(2, 3)]);
    let all = g.nearest_unknown_cells(&Point::new(0, 0), 10);
    assert_eq!(all.len(), 5);
    assert_eq!(all[4], Point::new(4, 4));
    assert!(g.nearest_unknown_cells(&Point::new(0, 0), 0).is_empty());
}

#[test]
fn kept_target_is_followed() {
    let g = grid_of(&["?....", ".....", "....?"]);
    let r = g.next_exploration_step(&Point::new(2, 1), Some(Point::new(4, 2)), None);
    assert_eq!(r.map(|(_, t)| t), Some(Some(Point::new(4, 2))));
    let (step, _) = r.unwrap();
    assert_eq!(step.manhattan_distance(&Point::new(2, 1)), 1);
    assert_eq!(step.manhattan_distance(&Point::new(4, 2)), 2);
}

#[test]
fn revealed_target_is_dropped() {
    let g = grid_of(&["?....", ".....", "....."]);
    let r = g.next_exploration_step(&Point::new(2, 1), Some(Point::new(4, 2)), None);
    assert_eq!(r.map(|(_, t)| t), Some(Some(Point::new(0, 0))));
}

#[test]
fn chosen_target_is_unexplored() {
    let g = grid_of(&["..#?.", "..#..", ".?..."]);
    let r = g.next_exploration_step(&Point::new(0, 0), Some(Point::new(4, 2)), None);
    let (step, kept) = r.unwrap();
    let t = kept.unwrap();
    assert_eq!(g.get_cell(&t), Some(CellType::Unknown));
    assert_eq!(t, Point::new(3, 0));
    assert_eq!(step.manhattan_distance(&Point::new(0, 0)), 1);
}

#[test]
fn unreachable_candidates_are_skipped() {
    let g = grid_of(&[".#?", "##.", "?.."]);
    let r = g.next_exploration_step(&Point::new(0, 0), None, None);
    assert_eq!(r, None);
    let g2 = grid_of(&[".#?", "..#", "?.#"]);
    let r2 = g2.next_exploration_step(&Point::new(0, 0), None, None);
    assert_eq!(r2, Some((Point::new(0, 1), Some(Point::new(0, 2)))));
}

#[test]
fn falls_back_to_the_goal() {
    let g = grid_of(&["..C", "...", "#.#", "#?#"]);
    let mut blocked = g.clone();
    blocked.set_cell_type(&Point::new(1, 2), CellType::Wall);
    let r = blocked.next_exploration_step(&Point::new(0, 0), None, Some(Point::new(2, 0)));
    assert_eq!(r, Some((Point::new(1, 0), None)));
}

#[test]
fn nothing_to_do_without_frontier_or_goal() {
    let g = grid_of(&["...", "..."]);
    assert_eq!(g.next_exploration_step(&Point::new(0, 0), None, None), None);
    assert_eq!(g.next_exploration_step(&Point::new(0, 0), Some(Point::new(2, 1)), None), None);
}

#[test]
fn unreachable_kept_target_survives_goal_fallback() {
    let g = grid_of(&["C.#?"]);
    let r = g.next_exploration_step(&Point::new(1, 0), Some(Point::new(3, 0)), Some(Point::new(0, 0)));
    assert_eq!(r, Some((Point::new(0, 0), Some(Point::new(3, 0)))));
}

#[test]
fn reached_or_revealed_target_is_not_retained() {
    let g = grid_of(&["C.#?", "...."]);
    assert_eq!(g.retained_target(&Point::new(3, 0), Some(Point::new(3, 0))), None);
    assert_eq!(g.retained_target(&Point::new(0, 0), Some(Point::new(1, 0))), None);
    assert_eq!(g.retained_target(&Point::new(0, 0), Some(Point::new(3, 0))), Some(Point::new(3, 0)));
}
