pub mod edit;
pub mod game;
pub mod life;
pub mod pattern;
pub mod search;
pub mod storage;
pub mod text;
pub mod ui;
