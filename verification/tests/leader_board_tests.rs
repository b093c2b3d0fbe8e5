use lines::leader_board::{sort_players, LeaderBoard, LeaderBoardState, Player, MAX_PLAYERS};

fn named(name: &str, score: u32) -> Player {
    (Some(name.to_string()), score)
}

#[test]
fn fresh_leader_board_has_ten_players() {
    let board = LeaderBoard::new(None);
    assert_eq!(board.players.len(), MAX_PLAYERS);
    assert_eq!(board.players[0], named("Player 10", 1000));
    assert_eq!(board.players[1], named("Player 9", 900));
    assert_eq!(board.players[9], named("Player 1", 100));
    assert_eq!(board.get_best_score(), Some(1000));
    assert_eq!(board.get_lowest_score(), Some(100));
    assert_eq!(board.get_best_player(), Some("Player 10".to_string()));
}

#[test]
fn stored_players_are_sorted_and_cut() {
    let stored: Vec<Player> = (0..14u32).map(|k| named(&format!("p{k}"), (k * 37) % 11)).collect();
    let board = LeaderBoard::new(Some(stored.clone()));
    assert_eq!(board.players.len(), 10);
    let mut expected = stored;
    expected.sort_by_key(|x| !x.1);
    expected.truncate(10);
    assert_eq!(board.players, expected);
}

#[test]
fn sorting_keeps_the_order_of_equal_scores() {
    let players = vec![named("a", 5), named("b", 7), named("c", 5), named("d", 7), named("e", 1)];
    assert_eq!(
        sort_players(players),
        vec![named("b", 7), named("d", 7), named("a", 5), named("c", 5), named("e", 1)]
    );
    assert_eq!(sort_players(Vec::new()), Vec::<Player>::new());
}

#[test]
fn empty_leader_board() {
    let board = LeaderBoard::new(Some(Vec::new()));
    assert!(board.players.is_empty());
    assert_eq!(board.get_best_score(), None);
    assert_eq!(board.get_lowest_score(), None);
    assert_eq!(board.get_best_player(), None);
}

#[test]
fn added_player_goes_behind_equal_scores_and_the_last_falls_off() {
    let mut board = LeaderBoard::new(None);
    board.add_player(500);
    assert_eq!(board.players.len(), 10);
    assert_eq!(board.players[5], named("Player 5", 500));
    assert_eq!(board.players[6], (None, 500));
    assert_eq!(board.players[9], named("Player 2", 200));
    board.add_player(50);
    assert_eq!(board.players.len(), 10);
    assert_eq!(board.players[9], named("Player 2", 200));
    board.add_player(5000);
    assert_eq!(board.players[0], (None, 5000));
    assert_eq!(board.get_best_player(), None);
}

#[test]
fn name_goes_to_the_lines_without_one() {
    let mut board = LeaderBoard::new(Some(vec![named("a", 9), (None, 7), named("b", 5), (None, 3)]));
    board.set_name("zed".to_string());
    assert_eq!(
        board.players,
        vec![named("a", 9), named("zed", 7), named("b", 5), named("zed", 3)]
    );
    board.set_name("other".to_string());
    assert_eq!(
        board.players,
        vec![named("a", 9), named("zed", 7), named("b", 5), named("zed", 3)]
    );
}

#[test]
fn best_player_is_the_last_of_the_best() {
    let board = LeaderBoard { players: vec![named("a", 9), named("b", 9), named("c", 5)] };
    assert_eq!(board.get_best_player(), Some("b".to_string()));
    let unsorted = LeaderBoard { players: vec![named("a", 3), named("b", 9), (None, 9), named("c", 5)] };
    assert_eq!(unsorted.get_best_player(), None);
    assert_eq!(unsorted.get_best_score(), Some(9));
    assert_eq!(unsorted.get_lowest_score(), Some(3));
}

#[test]
fn score_above_the_lowest_enters_the_board() {
    let mut board = LeaderBoard::new(None);
    assert_eq!(board.change_leaders(100), LeaderBoardState::Show);
    assert_eq!(board.players[9], named("Player 1", 100));
    assert_eq!(board.change_leaders(101), LeaderBoardState::InputName);
    assert_eq!(board.players[9], (None, 101));
    assert_eq!(board.players.len(), 10);
    let mut empty = LeaderBoard::new(Some(Vec::new()));
    assert_eq!(empty.change_leaders(1000), LeaderBoardState::Show);
    assert!(empty.players.is_empty());
}
