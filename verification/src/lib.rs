//! The rules engine of a falling-block puzzle game: piece shapes and their
//! closed-form rotation, bounding-box clamping into the play area, the
//! settled stack of landed blocks with line clearing, and the state machine
//! that ties them together — movement, landing, scoring, next-piece cycling
//! and the drop preview. Rendering, input mapping and scheduling are left to
//! callers, which drive the engine through [`tetris::Tetris::run`] and read
//! it through [`tetris::Tetris::get_display_state`].

pub mod blocks;
pub mod geometry;
pub mod prototype;
pub mod rows;
pub mod stash;
pub mod tetris;
pub mod tetronimo;
