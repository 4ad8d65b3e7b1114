pub mod board;
pub mod coord;
pub mod game;
pub mod move_result;
pub mod piece;
pub mod play;
pub mod valid_move;
