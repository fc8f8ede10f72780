use gridnav::game::{direction_to, Direction, Game, NavigationState};
use gridnav::grid::CellType;
use gridnav::point::Point;

fn game_of(rows: &[&str]) -> Game {
    let h = rows.len() as i32;
    let w = rows[0].chars().count() as i32;
    let mut g = Game::new(w, h, 0);
    for (y, row) in rows.iter().enumerate() {
        g.decode_row(y as i32, row.to_string());
    }
    g
}

#[test]
fn new_game_knows_nothing() {
    let g = Game::new(4, 3, 7);
    assert!(g.grid.cells.iter().all(|c| *c == CellType::Unknown));
    assert_eq!(g.state, NavigationState::Exploring);
    assert_eq!(g.command_pos, None);
    assert_eq!(g.alarm, 7);
}

#[test]
fn decode_row_records_classes_and_landmarks() {
    let mut g = Game::new(5, 2, 0);
    g.decode_row(1, "T.C#?".to_string());
    assert_eq!(g.start_pos, Point::new(0, 1));
    assert_eq!(g.command_pos, Some(Point::new(2, 1)));
    assert_eq!(g.grid.get_cell(&Point::new(3, 1)), Some(CellType::Wall));
    assert_eq!(g.grid.get_cell(&Point::new(4, 1)), Some(CellType::Unknown));
    assert_eq!(g.grid.get_cell(&Point::new(0, 0)), Some(CellType::Unknown));
}

#[test]
fn revealed_cells_stay_revealed() {
    let mut g = Game::new(3, 1, 0);
    g.decode_row(0, ".#?".to_string());
    g.decode_row(0, "???".to_string());
    assert_eq!(g.grid.cells, vec![CellType::Empty, CellType::Wall, CellType::Unknown]);
}

#[test]
fn rows_outside_the_grid_are_ignored() {
    let mut g = Game::new(3, 1, 0);
    g.decode_row(1, "C..".to_string());
    g.decode_row(-1, "C..".to_string());
    g.decode_row(0, "..#C".to_string());
    assert_eq!(g.command_pos, None);
    assert_eq!(g.grid.cells, vec![CellType::Empty, CellType::Empty, CellType::Wall]);
}

#[test]
fn returning_starts_on_the_goal_and_lasts() {
    let mut g = game_of(&["T..C"]);
    g.set_player_pos(Point::new(2, 0));
    assert_eq!(g.state, NavigationState::Exploring);
    g.set_player_pos(Point::new(3, 0));
    assert_eq!(g.state, NavigationState::Returning);
    g.set_player_pos(Point::new(2, 0));
    assert_eq!(g.state, NavigationState::Returning);
    assert_eq!(g.round, 3);
}

#[test]
fn returning_heads_home_and_freezes_the_map() {
    let mut g = game_of(&["T..C", ".??."]);
    g.set_player_pos(Point::new(3, 0));
    let next = g.get_next_target_point();
    assert_eq!(next, Some(Point::new(2, 0)));
    assert_eq!(g.grid.get_cell(&Point::new(1, 1)), Some(CellType::Wall));
    assert_eq!(g.roam_to, None);
    g.decode_row(1, ".??.".to_string());
    assert_eq!(g.grid.get_cell(&Point::new(1, 1)), Some(CellType::Wall));
}

#[test]
fn returning_next_to_origin_steps_onto_it() {
    let mut g = game_of(&["TC"]);
    g.set_player_pos(Point::new(1, 0));
    assert_eq!(g.get_next_target_point(), Some(Point::new(0, 0)));
}

#[test]
fn exploring_keeps_its_target() {
    let mut g = game_of(&["T...?", ".....", "?...."]);
    g.set_player_pos(Point::new(0, 0));
    let first = g.get_next_target_point();
    assert_eq!(first, Some(Point::new(0, 1)));
    assert_eq!(g.roam_to, Some(Point::new(0, 2)));
    g.set_player_pos(Point::new(0, 1));
    assert_eq!(g.get_next_target_point(), Some(Point::new(0, 2)));
    assert_eq!(g.roam_to, Some(Point::new(0, 2)));
}

#[test]
fn exploring_without_anything_left_gives_nothing() {
    let mut g = game_of(&["T.."]);
    g.set_player_pos(Point::new(1, 0));
    assert_eq!(g.get_next_target_point(), None);
}

#[test]
fn moves_between_neighbours() {
    let p = Point::new(3, 3);
    assert_eq!(direction_to(&p, &Point::new(3, 2)), Some(Direction::Up));
    assert_eq!(direction_to(&p, &Point::new(3, 4)), Some(Direction::Down));
    assert_eq!(direction_to(&p, &Point::new(2, 3)), Some(Direction::Left));
    assert_eq!(direction_to(&p, &Point::new(4, 3)), Some(Direction::Right));
    assert_eq!(direction_to(&p, &p), None);
    assert_eq!(direction_to(&p, &Point::new(4, 4)), None);
    assert_eq!(direction_to(&p, &Point::new(3, 5)), None);
}

#[test]
fn move_words() {
    assert_eq!(Direction::Up.as_str(), "UP");
    assert_eq!(Direction::Down.as_str(), "DOWN");
    assert_eq!(Direction::Left.as_str(), "LEFT");
    assert_eq!(Direction::Right.as_str(), "RIGHT");
}

#[test]
fn unreachable_target_is_kept_without_a_decision() {
    let mut g = game_of(&["T.#?"]);
    g.roam_to = Some(Point::new(3, 0));
    g.set_player_pos(Point::new(1, 0));
    assert_eq!(g.get_next_target_point(), None);
    assert_eq!(g.roam_to, Some(Point::new(3, 0)));
}
