pub mod ball;
pub mod board;
pub mod coordinates;
pub mod events;
pub mod game;
pub mod game_score;
pub mod leader_board;
pub mod lines;
pub mod matcher;
pub mod path;
pub mod random;
pub mod resolve;
pub mod score;
pub mod spawn;
