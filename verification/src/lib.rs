pub mod code;
pub mod game;
