pub mod control;
pub mod game;
pub mod player;
