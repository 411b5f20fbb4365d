//! The traits that a game implements to be searched.

pub mod game;
