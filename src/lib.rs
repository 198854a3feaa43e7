//! Replay of recorded Go games: a parser for the bracketed game-record text,
//! a board, a replay engine with a navigable cursor, rotated board views, the
//! ordering of a playlist of record files, and the decisions of an
//! interactive replay session.
pub mod board_view;
pub mod game;
pub mod parser;
pub mod playlist;
pub mod session;
pub mod text;
