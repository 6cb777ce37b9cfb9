use bomberman::errors::MazeError;
use bomberman::maze_types::{
    next_indexes, BombType, BurstEnd, FireBurst, FireDirection, Maze, MazeElement, NextAction,
};

const BOARD: &str = "B2 R R _ F1 _ _\n_ W R W _ W _\nB5 _ _ _ B2 _ _\n_ W _ W _ W _\n_ _ _ _ _ _ _\n_ W _ W _ W _\n_ _ _ _ _ _ _";

fn maze(text: &str) -> Maze {
    Maze::new(text).unwrap()
}

fn rows(text: &str) -> Vec<Vec<MazeElement>> {
    Maze::new(text).unwrap().matrix
}

#[test]
fn a_bomb_sets_off_the_bombs_that_its_fire_reaches() {
    let mut board = maze(BOARD);
    assert_eq!(board.detonate_bomb(0, 0), Ok(()));
    assert_eq!(board.get_maze_element(0, 0), Some(&MazeElement::Empty));
    assert_eq!(board.get_maze_element(0, 2), Some(&MazeElement::Empty));
    assert_eq!(board.get_maze_element(1, 0), Some(&MazeElement::Rock));
    assert_eq!(board.get_maze_element(0, 1), Some(&MazeElement::Empty));
    assert_eq!(
        board.matrix,
        rows("_ R R _ _ _ _\n_ W R W _ W _\n_ _ _ _ _ _ _\n_ W _ W _ W _\n_ _ _ _ _ _ _\n_ W _ W _ W _\n_ _ _ _ _ _ _")
    );
}

#[test]
fn the_bombs_that_went_off_are_listed_in_order() {
    let mut board = maze(BOARD);
    board.matrix[0][0] = MazeElement::Empty;
    let detonated = board.advance_fire_bursts(0, 0, &2, &BombType::Normal);
    assert_eq!(detonated, vec![(0, 2), (4, 2)]);
    assert_eq!(
        board.matrix,
        rows("_ R R _ _ _ _\n_ W R W _ W _\n_ _ _ _ _ _ _\n_ W _ W _ W _\n_ _ _ _ _ _ _\n_ W _ W _ W _\n_ _ _ _ _ _ _")
    );
}

#[test]
fn a_cell_without_a_bomb_is_refused_and_nothing_changes() {
    for (x, y) in [(1, 0), (3, 0), (4, 0), (1, 1), (0, 1), (6, 6)] {
        let mut board = maze(BOARD);
        assert_eq!(board.detonate_bomb(x, y), Err(MazeError::NoBomb));
        assert_eq!(board.matrix, rows(BOARD));
    }
    let mut board = maze("DU DD\nDL DR");
    for (x, y) in [(0, 0), (1, 0), (0, 1), (1, 1)] {
        assert_eq!(board.detonate_bomb(x, y), Err(MazeError::NoBomb));
        assert_eq!(board.matrix, rows("DU DD\nDL DR"));
    }
}

#[test]
fn a_coordinate_off_the_board_is_refused_and_nothing_changes() {
    for (x, y) in [(7, 0), (0, 7), (7, 7), (usize::MAX, 0), (0, usize::MAX), (usize::MAX, usize::MAX), (100, 2)] {
        let mut board = maze(BOARD);
        assert_eq!(board.detonate_bomb(x, y), Err(MazeError::OutOfBounds));
        assert_eq!(board.matrix, rows(BOARD));
    }
    let mut empty = maze("");
    assert_eq!(empty.detonate_bomb(0, 0), Err(MazeError::OutOfBounds));
}

#[test]
fn a_coordinate_is_column_then_row() {
    let mut board = maze("_ _ B1\n_ _ _");
    assert_eq!(board.detonate_bomb(0, 2), Err(MazeError::OutOfBounds));
    assert_eq!(board.detonate_bomb(2, 1), Err(MazeError::NoBomb));
    assert_eq!(board.detonate_bomb(2, 0), Ok(()));
    assert_eq!(board.matrix, rows("_ _ _\n_ _ _"));
}

#[test]
fn a_wall_stops_fire_of_either_kind() {
    let mut board = maze("B3 W F2");
    assert_eq!(board.detonate_bomb(0, 0), Ok(()));
    assert_eq!(board.matrix, rows("_ W F2"));
    let mut board = maze("S3 W F2");
    assert_eq!(board.detonate_bomb(0, 0), Ok(()));
    assert_eq!(board.matrix, rows("_ W F2"));
    let mut board = maze("F1 W S9 W F1\nF1 W W W F1");
    assert_eq!(board.detonate_bomb(2, 0), Ok(()));
    assert_eq!(board.matrix, rows("F1 W _ W F1\nF1 W W W F1"));
}

#[test]
fn a_rock_stops_a_normal_bomb() {
    let mut board = maze("B3 R F2 F2 F2");
    assert_eq!(board.detonate_bomb(0, 0), Ok(()));
    assert_eq!(board.matrix, rows("_ R F2 F2 F2"));
}

#[test]
fn a_penetrating_bomb_passes_a_rock_and_spends_a_step_on_it() {
    let mut board = maze("S3 R F2 F2 F2");
    assert_eq!(board.detonate_bomb(0, 0), Ok(()));
    assert_eq!(board.matrix, rows("_ R F1 F1 F2"));
    let mut board = maze("S2 R R F2");
    assert_eq!(board.detonate_bomb(0, 0), Ok(()));
    assert_eq!(board.matrix, rows("_ R R F2"));
}

#[test]
fn a_turning_tile_sends_fire_its_way_and_costs_a_step() {
    let mut board = maze("B3 DD F2\n_ F2 _\n_ F2 _\n_ F2 _");
    assert_eq!(board.detonate_bomb(0, 0), Ok(()));
    assert_eq!(board.matrix, rows("_ DD F2\n_ F1 _\n_ F1 _\n_ F2 _"));
}

#[test]
fn fire_turns_as_often_as_tiles_tell_it() {
    let mut board = maze("B9 _ DD\nF5 _ _\nF5 F3 DL");
    assert_eq!(board.detonate_bomb(0, 0), Ok(()));
    assert_eq!(board.matrix, rows("_ _ DD\nF4 _ _\nF3 F2 DL"));
}

#[test]
fn fire_may_circle_until_its_steps_are_spent() {
    let mut board = maze("DR F9 DD\nB9 _ _\nDU _ DL");
    assert_eq!(board.detonate_bomb(0, 1), Ok(()));
    assert_eq!(board.matrix, rows("DR F7 DD\n_ _ _\nDU _ DL"));
}

#[test]
fn fire_travels_as_far_as_the_reach() {
    let mut board = maze("B2 _ F1 F1");
    assert_eq!(board.detonate_bomb(0, 0), Ok(()));
    assert_eq!(board.matrix, rows("_ _ _ F1"));
    let mut board = maze("B3 F2 F1 F3 F9");
    assert_eq!(board.detonate_bomb(0, 0), Ok(()));
    assert_eq!(board.matrix, rows("_ F1 _ F2 F9"));
    let mut board = maze("F1 F1 F1 F1 B3 F1 F1 F1 F1");
    assert_eq!(board.detonate_bomb(4, 0), Ok(()));
    assert_eq!(board.matrix, rows("F1 _ _ _ _ _ _ _ F1"));
}

#[test]
fn fire_goes_up_and_down_as_well() {
    let mut board = maze("F2 F2 F2\nF2 F2 F2\nF2 B1 F2\nF2 F2 F2\nF2 F2 F2");
    assert_eq!(board.detonate_bomb(1, 2), Ok(()));
    assert_eq!(board.matrix, rows("F2 F2 F2\nF2 F1 F2\nF1 _ F1\nF2 F1 F2\nF2 F2 F2"));
}

#[test]
fn a_bomb_without_reach_only_vanishes() {
    let mut board = maze("F1 B0 F1");
    assert_eq!(board.detonate_bomb(1, 0), Ok(()));
    assert_eq!(board.matrix, rows("F1 _ F1"));
}

#[test]
fn fire_takes_one_point_of_health() {
    let mut board = maze("B1 F3");
    assert_eq!(board.detonate_bomb(0, 0), Ok(()));
    assert_eq!(board.matrix, rows("_ F2"));
    let mut board = maze("B1 F1");
    assert_eq!(board.detonate_bomb(0, 0), Ok(()));
    assert_eq!(board.matrix, rows("_ _"));
    let mut board = maze("B1 F0");
    assert_eq!(board.detonate_bomb(0, 0), Ok(()));
    assert_eq!(board.matrix, rows("_ _"));
    let mut board = Maze { matrix: vec![vec![
        MazeElement::Bomb { reach: 1, kind: BombType::Normal },
        MazeElement::Enemy { health: 255 },
    ]] };
    assert_eq!(board.detonate_bomb(0, 0), Ok(()));
    assert_eq!(board.matrix, vec![vec![MazeElement::Empty, MazeElement::Enemy { health: 254 }]]);
}

#[test]
fn a_bomb_swallows_the_burst_that_sets_it_off() {
    let mut board = maze("B9 B1 F5 B1");
    assert_eq!(board.detonate_bomb(0, 0), Ok(()));
    assert_eq!(board.matrix, rows("_ _ F4 B1"));
}

#[test]
fn bombs_that_reach_each_other_go_off_once_each() {
    let mut board = maze("B3 F3 B3");
    assert_eq!(board.detonate_bomb(0, 0), Ok(()));
    assert_eq!(board.matrix, rows("_ F1 _"));
    let mut board = maze("B3 F3 B3");
    assert_eq!(board.detonate_bomb(2, 0), Ok(()));
    assert_eq!(board.matrix, rows("_ F1 _"));
}

#[test]
fn a_bomb_in_the_way_of_two_bursts_goes_off_once() {
    let text = "B2 F9 B2\nF9 _ F9\nB2 F9 B2";
    let mut board = maze(text);
    assert_eq!(board.detonate_bomb(0, 0), Ok(()));
    assert_eq!(board.matrix, rows("_ F7 _\nF7 _ F7\n_ F7 _"));
    let mut board = maze(text);
    board.matrix[0][0] = MazeElement::Empty;
    let detonated = board.advance_fire_bursts(0, 0, &2, &BombType::Normal);
    assert_eq!(detonated, vec![(0, 2), (2, 2), (2, 0)]);
    let mut seen = detonated.clone();
    seen.sort();
    seen.dedup();
    assert_eq!(seen.len(), detonated.len());
}

#[test]
fn a_chain_is_done_before_the_next_burst_starts() {
    let mut board = maze("_ S2 _\nB1 B2 F2\n_ _ _");
    assert_eq!(board.detonate_bomb(1, 1), Ok(()));
    assert_eq!(board.matrix, rows("_ _ _\n_ _ F1\n_ _ _"));
    let mut board = maze("_ S2 _\nB1 B2 F2\n_ _ _");
    board.matrix[1][1] = MazeElement::Empty;
    assert_eq!(board.advance_fire_bursts(1, 1, &2, &BombType::Normal), vec![(1, 0), (0, 1)]);
}

#[test]
fn a_bomb_that_went_off_lets_later_fire_pass() {
    let text = "B9 _ B1 F5\nB9 _ DU _";
    let mut board = maze(text);
    assert_eq!(board.detonate_bomb(0, 0), Ok(()));
    assert_eq!(board.matrix, rows("_ _ _ F3\n_ _ DU _"));
    let mut board = maze(text);
    board.set_maze_element(0, 0, MazeElement::Empty);
    assert_eq!(board.advance_fire_bursts(0, 0, &9, &BombType::Normal), vec![(0, 1), (2, 0)]);
}

#[test]
fn a_cell_is_replaced_by_column_and_row() {
    let mut board = maze("_ _ _\n_ _ _");
    board.set_maze_element(2, 0, MazeElement::Wall);
    board.set_maze_element(0, 1, MazeElement::Enemy { health: 4 });
    assert_eq!(board.matrix, rows("_ _ W\nF4 _ _"));
    board.set_maze_element(2, 0, MazeElement::Rock);
    assert_eq!(board.matrix, rows("_ _ R\nF4 _ _"));
}

#[test]
fn every_bomb_of_a_full_board_goes_off() {
    let mut board = maze("B1 B1 B1\nB1 B1 B1\nB1 B1 B1");
    assert_eq!(board.detonate_bomb(1, 1), Ok(()));
    assert_eq!(board.matrix, rows("_ _ _\n_ _ _\n_ _ _"));
    let mut board = maze("B1 B1 B1\nB1 B1 B1\nB1 B1 B1");
    board.matrix[1][1] = MazeElement::Empty;
    let mut detonated = board.advance_fire_bursts(1, 1, &1, &BombType::Normal);
    assert_eq!(detonated.len(), 8);
    detonated.sort();
    detonated.dedup();
    assert_eq!(detonated.len(), 8);
}

#[test]
fn a_board_with_rows_of_different_lengths_is_taken_row_by_row() {
    let mut board = Maze {
        matrix: vec![
            vec![MazeElement::Bomb { reach: 3, kind: BombType::Normal }],
            vec![MazeElement::Empty, MazeElement::Bomb { reach: 1, kind: BombType::Normal }],
            vec![],
            vec![MazeElement::Enemy { health: 1 }],
        ],
    };
    assert_eq!(board.detonate_bomb(1, 0), Err(MazeError::OutOfBounds));
    assert_eq!(board.detonate_bomb(0, 2), Err(MazeError::OutOfBounds));
    assert_eq!(board.detonate_bomb(0, 0), Ok(()));
    assert_eq!(
        board.matrix,
        vec![
            vec![MazeElement::Empty],
            vec![MazeElement::Empty, MazeElement::Bomb { reach: 1, kind: BombType::Normal }],
            vec![],
            vec![MazeElement::Enemy { health: 1 }],
        ]
    );
}

#[test]
fn a_cell_is_found_by_column_and_row() {
    let board = maze(BOARD);
    assert_eq!(
        board.get_maze_element(0, 0),
        Some(&MazeElement::Bomb { reach: 2, kind: BombType::Normal })
    );
    assert_eq!(board.get_maze_element(4, 0), Some(&MazeElement::Enemy { health: 1 }));
    assert_eq!(
        board.get_maze_element(0, 2),
        Some(&MazeElement::Bomb { reach: 5, kind: BombType::Normal })
    );
    assert_eq!(board.get_maze_element(6, 6), Some(&MazeElement::Empty));
    assert_eq!(board.get_maze_element(7, 0), None);
    assert_eq!(board.get_maze_element(0, 7), None);
    assert_eq!(board.get_maze_element(usize::MAX, usize::MAX), None);
}

#[test]
fn the_next_indexes_stay_in_range() {
    assert_eq!(next_indexes(3, 4, FireDirection::Up), (Some(3), Some(3)));
    assert_eq!(next_indexes(3, 4, FireDirection::Down), (Some(3), Some(5)));
    assert_eq!(next_indexes(3, 4, FireDirection::Left), (Some(2), Some(4)));
    assert_eq!(next_indexes(3, 4, FireDirection::Right), (Some(4), Some(4)));
    assert_eq!(next_indexes(0, 0, FireDirection::Up), (Some(0), None));
    assert_eq!(next_indexes(0, 0, FireDirection::Left), (None, Some(0)));
    assert_eq!(next_indexes(usize::MAX, 5, FireDirection::Right), (None, Some(5)));
    assert_eq!(next_indexes(5, usize::MAX, FireDirection::Down), (Some(5), None));
    assert_eq!(
        next_indexes(usize::MAX, usize::MAX, FireDirection::Up),
        (Some(usize::MAX), Some(usize::MAX - 1))
    );
}

#[test]
fn the_cell_in_front_decides_what_a_burst_does() {
    let board = maze("_ W R\nF1 _ B1\nDU DL _");
    let normal = BombType::Normal;
    let penetrating = BombType::Penetrating;
    let at_centre = |kind: &BombType, direction| board.calulate_next_action(1, 1, kind, direction);
    assert_eq!(at_centre(&normal, FireDirection::Up), NextAction::Stop);
    assert_eq!(at_centre(&penetrating, FireDirection::Up), NextAction::Stop);
    assert_eq!(at_centre(&normal, FireDirection::Left), NextAction::Continue);
    assert_eq!(at_centre(&normal, FireDirection::Right), NextAction::Bomb);
    assert_eq!(at_centre(&penetrating, FireDirection::Right), NextAction::Bomb);
    assert_eq!(
        at_centre(&normal, FireDirection::Down),
        NextAction::ChangeDirection(FireDirection::Left)
    );
    assert_eq!(board.calulate_next_action(2, 1, &normal, FireDirection::Up), NextAction::Stop);
    assert_eq!(
        board.calulate_next_action(2, 1, &penetrating, FireDirection::Up),
        NextAction::Continue
    );
    assert_eq!(board.calulate_next_action(1, 0, &normal, FireDirection::Left), NextAction::Continue);
    assert_eq!(
        board.calulate_next_action(0, 1, &normal, FireDirection::Down),
        NextAction::ChangeDirection(FireDirection::Up)
    );
    assert_eq!(board.calulate_next_action(0, 0, &normal, FireDirection::Up), NextAction::Stop);
    assert_eq!(board.calulate_next_action(0, 0, &normal, FireDirection::Left), NextAction::Stop);
    assert_eq!(board.calulate_next_action(2, 2, &normal, FireDirection::Right), NextAction::Stop);
    assert_eq!(board.calulate_next_action(2, 2, &normal, FireDirection::Down), NextAction::Stop);
    assert_eq!(
        board.calulate_next_action(usize::MAX, 0, &normal, FireDirection::Right),
        NextAction::Stop
    );
    assert_eq!(board.calulate_next_action(3, 0, &normal, FireDirection::Left), NextAction::Stop);
    assert_eq!(
        board.calulate_next_action(3, 0, &penetrating, FireDirection::Left),
        NextAction::Continue
    );
}

fn ended(x: usize, y: usize, remaining_steps: u8, direction: FireDirection, kind: BombType, chained: Option<(usize, usize)>) -> BurstEnd {
    BurstEnd { burst: FireBurst { x, y, remaining_steps, direction, kind }, chained }
}

#[test]
fn a_burst_says_where_it_ended() {
    let mut board = maze("_ _ _ W F1");
    let end = board.advance_fire_burst(5, 0, 0, &BombType::Normal, FireDirection::Right);
    assert_eq!(end, ended(2, 0, 3, FireDirection::Right, BombType::Normal, None));
    assert_eq!(board.matrix, rows("_ _ _ W F1"));

    let mut board = maze("_ F2 _ _ _");
    let end = board.advance_fire_burst(3, 0, 0, &BombType::Penetrating, FireDirection::Right);
    assert_eq!(end, ended(3, 0, 0, FireDirection::Right, BombType::Penetrating, None));
    assert_eq!(board.matrix, rows("_ F1 _ _ _"));

    let mut board = maze("_ _ _");
    let end = board.advance_fire_burst(9, 0, 0, &BombType::Normal, FireDirection::Right);
    assert_eq!(end, ended(2, 0, 7, FireDirection::Right, BombType::Normal, None));

    let mut board = maze("_ _ _");
    let end = board.advance_fire_burst(0, 1, 0, &BombType::Normal, FireDirection::Right);
    assert_eq!(end, ended(1, 0, 0, FireDirection::Right, BombType::Normal, None));
}

#[test]
fn a_burst_reports_the_bomb_that_swallowed_it_and_leaves_it_standing() {
    let mut board = maze("_ F3 B1 F3");
    let end = board.advance_fire_burst(5, 0, 0, &BombType::Normal, FireDirection::Right);
    assert_eq!(end, ended(1, 0, 4, FireDirection::Right, BombType::Normal, Some((2, 0))));
    assert_eq!(board.matrix, rows("_ F2 B1 F3"));
}

#[test]
fn a_burst_that_turned_ends_heading_the_new_way() {
    let mut board = maze("_ DD\n_ _\n_ _");
    let end = board.advance_fire_burst(2, 0, 0, &BombType::Normal, FireDirection::Right);
    assert_eq!(end, ended(1, 1, 0, FireDirection::Down, BombType::Normal, None));
    let mut board = maze("_ DD\n_ _\n_ _");
    let end = board.advance_fire_burst(7, 0, 0, &BombType::Normal, FireDirection::Right);
    assert_eq!(end, ended(1, 2, 4, FireDirection::Down, BombType::Normal, None));
}

#[test]
fn a_burst_may_enter_the_board_from_outside() {
    let mut board = maze("F2 F2");
    let end = board.advance_fire_burst(1, 2, 0, &BombType::Normal, FireDirection::Left);
    assert_eq!(end, ended(1, 0, 0, FireDirection::Left, BombType::Normal, None));
    assert_eq!(board.matrix, rows("F2 F1"));
}
