use lines::ball::{BallColor, BallEntity};
use lines::board::Board;
use lines::coordinates::Coordinates;
use lines::game::{Game, GameState};
use lines::spawn::{NextBall, SpawnOutcome};
use rand::rngs::StdRng;
use rand::SeedableRng;

fn put(board: &mut Board, a: u8, b: u8, color: BallColor, entity: u64) {
    board.set(Coordinates(a, b), Some(BallEntity::new(color, entity)));
}

fn pattern(a: u8, b: u8) -> BallColor {
    BallColor::from_index((a + 2 * b) % 7)
}

fn snapshot(board: &Board) -> Vec<Vec<Option<BallEntity>>> {
    board.tiles.clone()
}

fn check_way(board: &Board, way: &[Coordinates], from: Coordinates, to: Coordinates) {
    assert_eq!(way[0], from);
    assert_eq!(way[way.len() - 1], to);
    for pair in way.windows(2) {
        let da = (pair[0].0 as i32 - pair[1].0 as i32).abs();
        let db = (pair[0].1 as i32 - pair[1].1 as i32).abs();
        assert_eq!(da + db, 1);
        assert_eq!(board.get(pair[1]), None);
    }
}

#[test]
fn way_over_an_empty_board() {
    let mut board = Board::new(9, 5);
    put(&mut board, 0, 0, BallColor::Red, 1);
    let way = board.get_path_to_move(&Coordinates(0, 0), &Coordinates(8, 8)).unwrap();
    check_way(&board, &way, Coordinates(0, 0), Coordinates(8, 8));
    assert_eq!(way.len(), 17);
}

#[test]
fn way_to_the_own_cell_is_that_cell() {
    let mut board = Board::new(9, 5);
    put(&mut board, 3, 3, BallColor::Red, 1);
    assert_eq!(
        board.get_path_to_move(&Coordinates(3, 3), &Coordinates(3, 3)),
        Some(vec![Coordinates(3, 3)])
    );
}

#[test]
fn way_around_a_wall() {
    let mut board = Board::new(5, 5);
    put(&mut board, 0, 0, BallColor::Red, 1);
    for b in 0..4u8 {
        put(&mut board, 1, b, BallColor::from_index(b), 10 + b as u64);
    }
    let way = board.get_path_to_move(&Coordinates(0, 0), &Coordinates(2, 0)).unwrap();
    check_way(&board, &way, Coordinates(0, 0), Coordinates(2, 0));
    assert_eq!(way.len(), 11);
}

#[test]
fn no_way_onto_a_ball() {
    let mut board = Board::new(9, 5);
    put(&mut board, 0, 0, BallColor::Red, 1);
    put(&mut board, 5, 5, BallColor::Blue, 2);
    assert_eq!(board.get_path_to_move(&Coordinates(0, 0), &Coordinates(5, 5)), None);
}

#[test]
fn cornered_ball_cannot_move() {
    let mut game = Game::new(9, 5, &mut StdRng::seed_from_u64(1));
    put(&mut game.board, 0, 0, BallColor::Red, 1);
    put(&mut game.board, 1, 0, BallColor::Blue, 2);
    put(&mut game.board, 0, 1, BallColor::Green, 3);
    assert_eq!(game.board.get_path_to_move(&Coordinates(0, 0), &Coordinates(2, 0)), None);
    assert!(game.select(Coordinates(0, 0)));
    let tiles = snapshot(&game.board);
    let preview = game.next_balls.clone();
    let mut rng = StdRng::seed_from_u64(5);
    let report = game.attempt_move(Coordinates(2, 0), &mut rng, &vec![100, 101, 102]);
    assert!(report.path.is_none());
    assert!(report.ball.is_none());
    assert!(report.despawned.is_none());
    assert!(report.spawn.is_none());
    assert!(report.cascade.is_none());
    assert!(report.change_next.is_none());
    assert_eq!(snapshot(&game.board), tiles);
    assert_eq!(game.board.active_ball, Some(Coordinates(0, 0)));
    assert_eq!(game.board.score, 0);
    assert_eq!(game.state, GameState::Playing);
    assert_eq!(game.next_balls, preview);
}

#[test]
fn walled_off_cell_is_out_of_reach_however_near() {
    let mut board = Board::new(9, 5);
    put(&mut board, 4, 2, BallColor::Red, 1);
    put(&mut board, 3, 4, BallColor::Blue, 2);
    put(&mut board, 5, 4, BallColor::Blue, 3);
    put(&mut board, 4, 3, BallColor::Green, 4);
    put(&mut board, 4, 5, BallColor::Green, 5);
    assert_eq!(board.get_path_to_move(&Coordinates(4, 2), &Coordinates(4, 4)), None);
    assert!(board.get_path_to_move(&Coordinates(4, 2), &Coordinates(4, 6)).is_some());
}

#[test]
fn select_arms_and_reselect_wins() {
    let mut game = Game::new(9, 5, &mut StdRng::seed_from_u64(1));
    put(&mut game.board, 2, 2, BallColor::Red, 1);
    put(&mut game.board, 6, 6, BallColor::Blue, 2);
    assert!(!game.select(Coordinates(0, 0)));
    assert_eq!(game.board.active_ball, None);
    assert!(game.select(Coordinates(2, 2)));
    assert_eq!(game.board.active_ball, Some(Coordinates(2, 2)));
    assert!(!game.select(Coordinates(0, 0)));
    assert_eq!(game.board.active_ball, Some(Coordinates(2, 2)));
    assert!(game.select(Coordinates(6, 6)));
    assert_eq!(game.board.active_ball, Some(Coordinates(6, 6)));
    assert_eq!(game.board.free_coordinates().len(), 79);
    assert_eq!(game.board.score, 0);
}

#[test]
fn move_to_the_own_cell_does_nothing() {
    let mut game = Game::new(9, 5, &mut StdRng::seed_from_u64(1));
    put(&mut game.board, 2, 2, BallColor::Red, 1);
    game.select(Coordinates(2, 2));
    let mut rng = StdRng::seed_from_u64(5);
    let report = game.attempt_move(Coordinates(2, 2), &mut rng, &vec![100, 101, 102]);
    assert!(report.path.is_none());
    assert!(report.spawn.is_none());
    assert_eq!(game.board.active_ball, Some(Coordinates(2, 2)));
    assert_eq!(game.board.free_coordinates().len(), 80);
}

#[test]
fn move_without_a_ball_armed_does_nothing() {
    let mut game = Game::new(9, 5, &mut StdRng::seed_from_u64(1));
    put(&mut game.board, 2, 2, BallColor::Red, 1);
    let mut rng = StdRng::seed_from_u64(5);
    let report = game.attempt_move(Coordinates(3, 3), &mut rng, &vec![100, 101, 102]);
    assert!(report.path.is_none());
    assert_eq!(game.board.free_coordinates().len(), 80);
    assert_eq!(game.state, GameState::Playing);
}

#[test]
fn move_that_completes_a_run_scores_and_spawns_nothing() {
    let mut game = Game::new(9, 5, &mut StdRng::seed_from_u64(1));
    for a in 0..4u8 {
        put(&mut game.board, a, 0, BallColor::Red, a as u64);
    }
    put(&mut game.board, 4, 1, BallColor::Red, 4);
    put(&mut game.board, 8, 8, BallColor::Blue, 5);
    let preview = game.next_balls.clone();
    assert!(game.select(Coordinates(4, 1)));
    let mut rng = StdRng::seed_from_u64(5);
    let report = game.attempt_move(Coordinates(4, 0), &mut rng, &vec![100, 101, 102]);
    assert_eq!(report.path, Some(vec![Coordinates(4, 1), Coordinates(4, 0)]));
    assert_eq!(report.ball, Some(BallEntity { color: BallColor::Red, entity: 4 }));
    let despawned = report.despawned.unwrap();
    assert_eq!(despawned.lines.len(), 1);
    assert_eq!(despawned.lines[0].len(), 5);
    assert_eq!(despawned.balls.len(), 5);
    assert!(report.spawn.is_none());
    assert!(report.cascade.is_none());
    assert!(report.change_next.is_none());
    assert_eq!(game.board.score, 10);
    assert_eq!(game.board.active_ball, None);
    assert_eq!(game.board.free_coordinates().len(), 80);
    assert_eq!(game.board.get(Coordinates(8, 8)), Some(BallEntity { color: BallColor::Blue, entity: 5 }));
    assert_eq!(game.next_balls, preview);
    assert_eq!(game.state, GameState::Playing);
}

#[test]
fn move_that_completes_two_runs_scores_both() {
    let mut game = Game::new(9, 5, &mut StdRng::seed_from_u64(1));
    for a in 0..4u8 {
        put(&mut game.board, a, 4, BallColor::Blue, a as u64);
    }
    for k in 1..5u8 {
        put(&mut game.board, 4 + k, 4 + k, BallColor::Blue, 10 + k as u64);
    }
    put(&mut game.board, 4, 3, BallColor::Blue, 20);
    assert!(game.select(Coordinates(4, 3)));
    let mut rng = StdRng::seed_from_u64(5);
    let report = game.attempt_move(Coordinates(4, 4), &mut rng, &vec![100, 101, 102]);
    assert!(report.path.is_some());
    let despawned = report.despawned.unwrap();
    assert_eq!(despawned.lines.len(), 2);
    assert_eq!(despawned.lines[0].len(), 5);
    assert_eq!(despawned.lines[1].len(), 5);
    assert_eq!(despawned.balls.len(), 9);
    assert!(report.spawn.is_none());
    assert_eq!(game.board.score, 20);
    assert_eq!(game.board.free_coordinates().len(), 81);
}

#[test]
fn move_without_a_run_brings_the_upcoming_balls() {
    let mut game = Game::new(9, 5, &mut StdRng::seed_from_u64(1));
    put(&mut game.board, 0, 0, BallColor::Red, 1);
    game.next_balls = vec![
        NextBall { color: BallColor::Green },
        NextBall { color: BallColor::Blue },
        NextBall { color: BallColor::Yellow },
    ];
    assert!(game.select(Coordinates(0, 0)));
    let mut rng = StdRng::seed_from_u64(9);
    let report = game.attempt_move(Coordinates(8, 8), &mut rng, &vec![100, 101, 102]);
    assert_eq!(report.ball, Some(BallEntity { color: BallColor::Red, entity: 1 }));
    assert!(report.despawned.unwrap().lines.is_empty());
    let placed = match report.spawn.unwrap() {
        SpawnOutcome::Placed(cells) => cells,
        SpawnOutcome::BoardFull(_) => panic!("the board has room"),
    };
    assert_eq!(placed.len(), 3);
    assert_eq!(placed[0].1, BallColor::Green);
    assert_eq!(placed[1].1, BallColor::Blue);
    assert_eq!(placed[2].1, BallColor::Yellow);
    for (k, (cell, color)) in placed.iter().enumerate() {
        assert_ne!(*cell, Coordinates(8, 8));
        assert_eq!(game.board.get(*cell), Some(BallEntity { color: *color, entity: 100 + k as u64 }));
    }
    assert_ne!(placed[0].0, placed[1].0);
    assert_ne!(placed[0].0, placed[2].0);
    assert_ne!(placed[1].0, placed[2].0);
    assert!(report.cascade.unwrap().lines.is_empty());
    assert!(report.change_next.is_some());
    assert_eq!(game.next_balls.len(), 3);
    assert_eq!(game.board.get(Coordinates(0, 0)).is_some(), placed.iter().any(|p| p.0 == Coordinates(0, 0)));
    assert_eq!(game.board.get(Coordinates(8, 8)), Some(BallEntity { color: BallColor::Red, entity: 1 }));
    assert_eq!(game.board.free_coordinates().len(), 77);
    assert_eq!(game.board.score, 0);
    assert_eq!(game.board.active_ball, None);
    assert_eq!(game.state, GameState::Playing);
}

#[test]
fn spawned_ball_that_completes_a_run_is_scored_in_the_same_turn() {
    let mut game = Game::new(9, 5, &mut StdRng::seed_from_u64(1));
    let mut entity = 0u64;
    for a in 0..9u8 {
        for b in 0..9u8 {
            let free = (a, b) == (0, 2) || (a, b) == (0, 3) || (a, b) == (1, 4);
            if !free {
                let color = if (a, b) == (0, 1) {
                    BallColor::Red
                } else if (a, b) == (0, 4) {
                    pattern(1, 4)
                } else {
                    pattern(a, b)
                };
                put(&mut game.board, a, b, color, entity);
            }
            entity += 1;
        }
    }
    assert!(game.board.get_balls_for_despawn().is_empty());
    game.next_balls = vec![NextBall { color: BallColor::Red }; 3];
    assert!(game.select(Coordinates(0, 4)));
    let mut rng = StdRng::seed_from_u64(77);
    let report = game.attempt_move(Coordinates(1, 4), &mut rng, &vec![500, 501, 502]);
    assert_eq!(report.path, Some(vec![Coordinates(0, 4), Coordinates(1, 4)]));
    assert!(report.despawned.unwrap().lines.is_empty());
    let placed = match report.spawn.unwrap() {
        SpawnOutcome::Placed(cells) => cells,
        SpawnOutcome::BoardFull(_) => panic!("three cells were free"),
    };
    let mut cells: Vec<Coordinates> = placed.iter().map(|p| p.0).collect();
    cells.sort();
    assert_eq!(cells, vec![Coordinates(0, 2), Coordinates(0, 3), Coordinates(0, 4)]);
    let cascade = report.cascade.unwrap();
    assert_eq!(
        cascade.lines,
        vec![vec![
            Coordinates(0, 0),
            Coordinates(0, 1),
            Coordinates(0, 2),
            Coordinates(0, 3),
            Coordinates(0, 4)
        ]]
    );
    assert_eq!(cascade.balls.len(), 5);
    let mut handles: Vec<u64> = cascade.balls.iter().map(|(_, ball)| ball.entity).collect();
    handles.sort();
    assert_eq!(handles, vec![0, 1, 500, 501, 502]);
    assert!(report.change_next.is_some());
    assert_eq!(game.board.score, 10);
    assert_eq!(game.board.free_coordinates().len(), 5);
    for b in 0..5u8 {
        assert_eq!(game.board.get(Coordinates(0, b)), None);
    }
    assert_eq!(game.state, GameState::Playing);
    assert_eq!(game.next_balls.len(), 3);
}

#[test]
fn batch_on_a_board_with_one_free_cell_ends_the_round() {
    let mut game = Game::new(9, 5, &mut StdRng::seed_from_u64(1));
    let mut entity = 0u64;
    for a in 0..9u8 {
        for b in 0..9u8 {
            if (a, b) != (6, 2) {
                put(&mut game.board, a, b, pattern(a, b), entity);
            }
            entity += 1;
        }
    }
    game.next_balls = vec![
        NextBall { color: BallColor::Purple },
        NextBall { color: BallColor::Blue },
        NextBall { color: BallColor::Yellow },
    ];
    let before = snapshot(&game.board);
    let mut rng = StdRng::seed_from_u64(4);
    let outcome = game.spawn_batch(&mut rng, &vec![900, 901, 902]);
    match outcome {
        SpawnOutcome::BoardFull(cells) => {
            assert_eq!(cells, vec![(Coordinates(6, 2), BallColor::Purple)]);
        },
        SpawnOutcome::Placed(_) => panic!("only one cell was free"),
    }
    assert_eq!(game.state, GameState::GameOver);
    assert_eq!(
        game.board.get(Coordinates(6, 2)),
        Some(BallEntity { color: BallColor::Purple, entity: 900 })
    );
    for a in 0..9u8 {
        for b in 0..9u8 {
            if (a, b) != (6, 2) {
                assert_eq!(game.board.get(Coordinates(a, b)), before[a as usize][b as usize]);
            }
        }
    }
    assert_eq!(game.next_balls[0].color, BallColor::Purple);
    assert_eq!(game.next_balls[1].color, BallColor::Blue);
    assert_eq!(game.next_balls[2].color, BallColor::Yellow);
    assert!(game.board.free_coordinates().is_empty());
}

#[test]
fn batch_on_a_full_board_places_nothing() {
    let mut game = Game::new(3, 3, &mut StdRng::seed_from_u64(1));
    let mut entity = 0u64;
    for a in 0..3u8 {
        for b in 0..3u8 {
            put(&mut game.board, a, b, pattern(a, b), entity);
            entity += 1;
        }
    }
    let before = snapshot(&game.board);
    let mut rng = StdRng::seed_from_u64(4);
    match game.spawn_batch(&mut rng, &vec![900, 901, 902]) {
        SpawnOutcome::BoardFull(cells) => assert!(cells.is_empty()),
        SpawnOutcome::Placed(_) => panic!("no cell was free"),
    }
    assert_eq!(snapshot(&game.board), before);
    assert_eq!(game.state, GameState::GameOver);
}

#[test]
fn batch_with_three_free_cells_fills_them() {
    let mut game = Game::new(3, 3, &mut StdRng::seed_from_u64(1));
    let mut entity = 0u64;
    for a in 0..3u8 {
        for b in 0..3u8 {
            if a != b {
                put(&mut game.board, a, b, pattern(a, b), entity);
            }
            entity += 1;
        }
    }
    let mut rng = StdRng::seed_from_u64(4);
    match game.spawn_batch(&mut rng, &vec![900, 901, 902]) {
        SpawnOutcome::Placed(cells) => {
            let mut where_to: Vec<Coordinates> = cells.iter().map(|p| p.0).collect();
            where_to.sort();
            assert_eq!(where_to, vec![Coordinates(0, 0), Coordinates(1, 1), Coordinates(2, 2)]);
        },
        SpawnOutcome::BoardFull(_) => panic!("three cells were free"),
    }
    assert_eq!(game.state, GameState::Playing);
    assert!(game.board.free_coordinates().is_empty());
}

#[test]
fn batches_never_overwrite() {
    let mut rng = StdRng::seed_from_u64(123);
    let mut game = Game::new(9, 5, &mut rng);
    let mut handle = 0u64;
    let mut placed_so_far = 0usize;
    loop {
        let before = snapshot(&game.board);
        let handles = vec![handle, handle + 1, handle + 2];
        handle += 3;
        let outcome = game.spawn_batch(&mut rng, &handles);
        let (cells, full) = match outcome {
            SpawnOutcome::Placed(cells) => (cells, false),
            SpawnOutcome::BoardFull(cells) => (cells, true),
        };
        for (cell, _) in &cells {
            assert_eq!(before[cell.0 as usize][cell.1 as usize], None);
        }
        for a in 0..9u8 {
            for b in 0..9u8 {
                if before[a as usize][b as usize].is_some() {
                    assert_eq!(game.board.get(Coordinates(a, b)), before[a as usize][b as usize]);
                }
            }
        }
        placed_so_far += cells.len();
        assert_eq!(game.board.free_coordinates().len(), 81 - placed_so_far);
        if full {
            assert_eq!(game.state, GameState::GameOver);
            assert_eq!(placed_so_far, 81);
            break;
        }
        assert_eq!(cells.len(), 3);
        assert_eq!(game.state, GameState::Playing);
    }
}

#[test]
fn single_ball_spawn() {
    let mut game = Game::new(2, 2, &mut StdRng::seed_from_u64(1));
    let mut rng = StdRng::seed_from_u64(8);
    let mut taken = Vec::new();
    for k in 0..4u64 {
        let tile = game.spawn_new_ball(BallColor::Cyan, k, &mut rng).unwrap();
        assert!(!taken.contains(&tile));
        assert_eq!(game.board.get(tile), Some(BallEntity { color: BallColor::Cyan, entity: k }));
        taken.push(tile);
        assert_eq!(game.state, GameState::Playing);
    }
    assert_eq!(game.spawn_new_ball(BallColor::Cyan, 4, &mut rng), None);
    assert_eq!(game.state, GameState::GameOver);
}

#[test]
fn spawn_at_a_given_cell() {
    let mut game = Game::new(9, 5, &mut StdRng::seed_from_u64(1));
    assert!(game.spawn_at(Some(Coordinates(4, 0)), BallColor::Red, 7));
    assert_eq!(game.board.get(Coordinates(4, 0)), Some(BallEntity { color: BallColor::Red, entity: 7 }));
    assert_eq!(game.state, GameState::Playing);
    assert!(!game.spawn_at(None, BallColor::Red, 8));
    assert_eq!(game.state, GameState::GameOver);
    assert_eq!(game.board.free_coordinates().len(), 80);
}

#[test]
fn nothing_moves_once_the_round_is_over() {
    let mut game = Game::new(9, 5, &mut StdRng::seed_from_u64(1));
    put(&mut game.board, 0, 0, BallColor::Red, 1);
    assert!(game.select(Coordinates(0, 0)));
    game.state = GameState::GameOver;
    let mut rng = StdRng::seed_from_u64(5);
    let report = game.attempt_move(Coordinates(5, 5), &mut rng, &vec![1, 2, 3]);
    assert!(report.path.is_none());
    assert_eq!(game.board.free_coordinates().len(), 80);
    put(&mut game.board, 3, 3, BallColor::Blue, 2);
    assert!(!game.select(Coordinates(3, 3)));
    assert_eq!(game.board.active_ball, Some(Coordinates(0, 0)));
}

#[test]
fn click_on_a_ball_arms_and_click_on_a_free_cell_moves() {
    let mut game = Game::new(9, 5, &mut StdRng::seed_from_u64(1));
    put(&mut game.board, 0, 0, BallColor::Red, 1);
    put(&mut game.board, 1, 1, BallColor::Blue, 2);
    let mut rng = StdRng::seed_from_u64(5);
    let handles = vec![10, 11, 12];
    assert!(game.handle_mouse_clicks(Coordinates(0, 0), &mut rng, &handles).is_none());
    assert_eq!(game.board.active_ball, Some(Coordinates(0, 0)));
    assert!(game.handle_mouse_clicks(Coordinates(1, 1), &mut rng, &handles).is_none());
    assert_eq!(game.board.active_ball, Some(Coordinates(1, 1)));
    let report = game.handle_mouse_clicks(Coordinates(1, 2), &mut rng, &handles).unwrap();
    assert_eq!(report.path, Some(vec![Coordinates(1, 1), Coordinates(1, 2)]));
    assert_eq!(game.board.active_ball, None);
    assert!(report.spawn.is_some());
    let idle = game.handle_mouse_clicks(Coordinates(8, 8), &mut rng, &handles);
    assert!(idle.is_none() || idle.unwrap().path.is_none());
}

#[test]
fn restart_empties_the_board() {
    let mut rng = StdRng::seed_from_u64(6);
    let mut game = Game::new(9, 5, &mut rng);
    game.spawn_batch(&mut rng, &vec![1, 2, 3]);
    game.board.score = 44;
    game.state = GameState::GameOver;
    game.restart(&mut rng);
    assert_eq!(game.state, GameState::Playing);
    assert_eq!(game.board.score, 0);
    assert_eq!(game.board.active_ball, None);
    assert_eq!(game.board.free_coordinates().len(), 81);
    assert_eq!(game.board.tile_count, 9);
    assert_eq!(game.board.min_balls_on_line, 5);
    assert_eq!(game.next_balls.len(), 3);
}

#[test]
fn startup_batch_places_three_balls() {
    let mut rng = StdRng::seed_from_u64(6);
    let mut game = Game::new(9, 5, &mut rng);
    let preview = game.next_balls.clone();
    match game.spawn_startup_balls(&mut rng, &vec![1, 2, 3]) {
        SpawnOutcome::Placed(cells) => {
            assert_eq!(cells.len(), 3);
            for k in 0..3 {
                assert_eq!(cells[k].1, preview[k].color);
            }
        },
        SpawnOutcome::BoardFull(_) => panic!("the board was empty"),
    }
    assert_eq!(game.board.free_coordinates().len(), 78);
}
