//! A 52-card deck for a trick-taking card game: suits, ranks, trump
//! designation from a revealed card, draw operations, and an exact
//! rational strength score for a drawn hand.

pub mod game_pieces;
pub mod scoring;
