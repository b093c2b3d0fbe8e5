use lines::ball::{BallColor, BallEntity};
use lines::board::Board;
use lines::coordinates::Coordinates;
use lines::game::score_events;

fn put(board: &mut Board, a: u8, b: u8, color: BallColor, entity: u64) {
    board.set(Coordinates(a, b), Some(BallEntity::new(color, entity)));
}

fn cells(list: &[(u8, u8)]) -> Vec<Coordinates> {
    list.iter().map(|&(a, b)| Coordinates(a, b)).collect()
}

#[test]
fn empty_board_has_no_run() {
    let board = Board::new(9, 5);
    assert_eq!(board.get_balls_for_despawn(), Vec::<Vec<Coordinates>>::new());
}

#[test]
fn run_of_four_is_never_returned() {
    let mut board = Board::new(9, 5);
    for a in 0..4u8 {
        put(&mut board, a, 0, BallColor::Red, a as u64);
    }
    assert!(board.get_balls_for_despawn().is_empty());
    let despawned = board.despawn_balls_and_inc_score();
    assert!(despawned.lines.is_empty());
    assert!(despawned.balls.is_empty());
    assert_eq!(board.score, 0);
    assert_eq!(board.free_coordinates().len(), 77);
}

#[test]
fn run_of_five_is_returned_once() {
    let mut board = Board::new(9, 5);
    for a in 2..7u8 {
        put(&mut board, a, 3, BallColor::Cyan, a as u64);
    }
    assert_eq!(
        board.get_balls_for_despawn(),
        vec![cells(&[(2, 3), (3, 3), (4, 3), (5, 3), (6, 3)])]
    );
}

#[test]
fn run_of_six_is_one_run_worth_twelve() {
    let mut board = Board::new(9, 5);
    for b in 1..7u8 {
        put(&mut board, 4, b, BallColor::Brown, b as u64);
    }
    let despawned = board.despawn_balls_and_inc_score();
    assert_eq!(despawned.lines, vec![cells(&[(4, 1), (4, 2), (4, 3), (4, 4), (4, 5), (4, 6)])]);
    assert_eq!(despawned.balls.len(), 6);
    assert_eq!(board.score, 12);
    assert_eq!(board.free_coordinates().len(), 81);
}

#[test]
fn another_color_or_a_gap_breaks_a_run() {
    let mut board = Board::new(9, 5);
    for a in 0..9u8 {
        let color = if a == 4 { BallColor::Blue } else { BallColor::Red };
        put(&mut board, a, 0, color, a as u64);
    }
    assert!(board.get_balls_for_despawn().is_empty());
    board.set(Coordinates(4, 0), None);
    assert!(board.get_balls_for_despawn().is_empty());
}

#[test]
fn two_runs_on_one_line() {
    let mut board = Board::new(12, 5);
    for a in 0..5u8 {
        put(&mut board, a, 2, BallColor::Red, a as u64);
    }
    for a in 5..11u8 {
        put(&mut board, a, 2, BallColor::Green, a as u64);
    }
    assert_eq!(
        board.get_balls_for_despawn(),
        vec![
            cells(&[(0, 2), (1, 2), (2, 2), (3, 2), (4, 2)]),
            cells(&[(5, 2), (6, 2), (7, 2), (8, 2), (9, 2), (10, 2)]),
        ]
    );
    let despawned = board.despawn_balls_and_inc_score();
    assert_eq!(despawned.lines.len(), 2);
    assert_eq!(board.score, 22);
    assert_eq!(board.free_coordinates().len(), 144);
}

#[test]
fn run_at_the_end_of_a_line_is_found() {
    let mut board = Board::new(9, 5);
    for b in 4..9u8 {
        put(&mut board, 8, b, BallColor::Yellow, b as u64);
    }
    assert_eq!(
        board.get_balls_for_despawn(),
        vec![cells(&[(8, 4), (8, 5), (8, 6), (8, 7), (8, 8)])]
    );
}

#[test]
fn runs_on_both_diagonals() {
    let mut board = Board::new(9, 5);
    for k in 0..5u8 {
        put(&mut board, k, k + 2, BallColor::Purple, k as u64);
    }
    assert_eq!(
        board.get_balls_for_despawn(),
        vec![cells(&[(0, 2), (1, 3), (2, 4), (3, 5), (4, 6)])]
    );
    let mut other = Board::new(9, 5);
    for k in 0..5u8 {
        put(&mut other, k + 1, 7 - k, BallColor::Purple, k as u64);
    }
    assert_eq!(
        other.get_balls_for_despawn(),
        vec![cells(&[(1, 7), (2, 6), (3, 5), (4, 4), (5, 3)])]
    );
}

#[test]
fn fifth_red_ball_completes_the_row() {
    let mut board = Board::new(9, 5);
    for a in 0..4u8 {
        put(&mut board, a, 0, BallColor::Red, a as u64);
    }
    assert!(board.get_balls_for_despawn().is_empty());
    put(&mut board, 4, 0, BallColor::Red, 4);
    assert_eq!(
        board.get_balls_for_despawn(),
        vec![cells(&[(0, 0), (1, 0), (2, 0), (3, 0), (4, 0)])]
    );
    let despawned = board.despawn_balls_and_inc_score();
    assert_eq!(board.score, 10);
    for a in 0..5u8 {
        assert_eq!(board.get(Coordinates(a, 0)), None);
    }
    let mut handles: Vec<u64> = despawned.balls.iter().map(|(_, ball)| ball.entity).collect();
    handles.sort();
    assert_eq!(handles, vec![0, 1, 2, 3, 4]);
    for (cell, ball) in &despawned.balls {
        assert_eq!(ball.color, BallColor::Red);
        assert_eq!(cell.0 as u64, ball.entity);
        assert_eq!(cell.1, 0);
    }
}

#[test]
fn crossing_runs_count_apart_and_clear_together() {
    let mut plain = Board::new(9, 5);
    for a in 0..5u8 {
        put(&mut plain, a, 4, BallColor::Blue, a as u64);
    }
    for k in 1..5u8 {
        put(&mut plain, 4 + k, 4 + k, BallColor::Blue, 10 + k as u64);
    }
    let runs = plain.get_balls_for_despawn();
    assert_eq!(runs.len(), 2);
    assert!(runs.contains(&cells(&[(0, 4), (1, 4), (2, 4), (3, 4), (4, 4)])));
    assert!(runs.contains(&cells(&[(4, 4), (5, 5), (6, 6), (7, 7), (8, 8)])));
    let despawned = plain.despawn_balls_and_inc_score();
    assert_eq!(despawned.lines.len(), 2);
    assert_eq!(despawned.balls.len(), 9);
    assert_eq!(plain.score, 20);
    assert_eq!(plain.free_coordinates().len(), 81);
}

#[test]
fn score_grows_from_where_it_stood() {
    let mut board = Board::new(9, 5);
    board.score = 100;
    for a in 0..7u8 {
        put(&mut board, a, 8, BallColor::Green, a as u64);
    }
    board.despawn_balls_and_inc_score();
    assert_eq!(board.score, 114);
}

#[test]
fn clearing_the_armed_ball_disarms_it() {
    let mut board = Board::new(9, 5);
    for a in 0..5u8 {
        put(&mut board, a, 0, BallColor::Red, a as u64);
    }
    put(&mut board, 7, 7, BallColor::Blue, 70);
    board.active_ball = Some(Coordinates(2, 0));
    board.despawn_balls_and_inc_score();
    assert_eq!(board.active_ball, None);

    let mut other = Board::new(9, 5);
    for a in 0..5u8 {
        put(&mut other, a, 0, BallColor::Red, a as u64);
    }
    put(&mut other, 7, 7, BallColor::Blue, 70);
    other.active_ball = Some(Coordinates(7, 7));
    other.despawn_balls_and_inc_score();
    assert_eq!(other.active_ball, Some(Coordinates(7, 7)));
}

#[test]
fn one_score_event_for_each_run() {
    let runs = vec![
        cells(&[(0, 0), (1, 0), (2, 0), (3, 0), (4, 0)]),
        cells(&[(0, 1), (1, 1), (2, 1), (3, 1), (4, 1), (5, 1)]),
    ];
    let events = score_events(&runs);
    assert_eq!(events.len(), 2);
    assert_eq!(events[0].0, 10);
    assert_eq!(events[1].0, 12);
    assert!(score_events(&Vec::new()).is_empty());
}

#[test]
fn collect_runs_appends_in_line_order() {
    let mut board = Board::new(9, 5);
    for a in 0..5u8 {
        put(&mut board, a, 1, BallColor::Red, a as u64);
    }
    let line: Vec<Coordinates> = (0..9u8).map(|a| Coordinates(a, 1)).collect();
    let mut result = vec![cells(&[(8, 8)])];
    board.collect_runs(&line, &mut result);
    assert_eq!(
        result,
        vec![cells(&[(8, 8)]), cells(&[(0, 1), (1, 1), (2, 1), (3, 1), (4, 1)])]
    );
}

#[test]
fn despawning_the_board_takes_every_ball() {
    let mut board = Board::new(9, 5);
    put(&mut board, 7, 1, BallColor::Red, 71);
    put(&mut board, 0, 3, BallColor::Blue, 3);
    put(&mut board, 7, 0, BallColor::Green, 70);
    board.active_ball = Some(Coordinates(0, 3));
    board.score = 24;
    let balls = board.despawn_board_balls();
    assert_eq!(
        balls,
        vec![
            (Coordinates(0, 3), BallEntity { color: BallColor::Blue, entity: 3 }),
            (Coordinates(7, 0), BallEntity { color: BallColor::Green, entity: 70 }),
            (Coordinates(7, 1), BallEntity { color: BallColor::Red, entity: 71 }),
        ]
    );
    assert_eq!(board.free_coordinates().len(), 81);
    assert_eq!(board.active_ball, None);
    assert_eq!(board.score, 24);
    assert!(board.despawn_board_balls().is_empty());
}
