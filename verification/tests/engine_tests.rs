use tetris::geometry::Position;
use tetris::tetris::{DisplayState, Event, Tetris};
use tetris::tetronimo::Tetronimo;

const I: u8 = 0;
const O: u8 = 3;

fn assert_same_state(a: &DisplayState, b: &DisplayState) {
    assert_eq!(a.player, b.player);
    assert_eq!(a.next, b.next);
    assert_eq!(a.projection, b.projection);
    assert_eq!(a.blocks, b.blocks);
    assert_eq!(a.scene_area, b.scene_area);
    assert_eq!(a.score, b.score);
}

#[test]
fn display_state_is_idempotent() {
    let game = Tetris::with_pieces(Position::new(10, 20), I, 0, O, 0);
    let first = game.get_display_state();
    let second = game.get_display_state();
    assert_same_state(&first, &second);
}

#[test]
fn single_line_clear_scores_one() {
    // a horizontal I piece exactly fills the one bottom row of a width-4
    // field: the landing clears it, adds 2^1 - 1 = 1 point, and leaves the
    // stash as empty as before
    let mut game = Tetris::with_pieces(Position::new(4, 4), I, 0, I, 0);
    game.step_with(Event::MoveDown, I, 0);
    game.step_with(Event::MoveDown, I, 0);
    game.step_with(Event::MoveDown, I, 0);
    let before = game.get_display_state();
    assert_eq!(before.score, 0);
    assert_eq!(before.blocks.len(), 0);
    // the piece now hovers one cell above the floor; this move lands it
    game.step_with(Event::MoveDown, I, 0);
    let after = game.get_display_state();
    assert_eq!(after.score, 1);
    assert_eq!(after.blocks.len(), 0);
}

#[test]
fn two_o_pieces_clear_two_rows() {
    // two O pieces side by side fill both bottom rows of a width-4 field;
    // the second landing clears both rows at once: 2^2 - 1 = 3 points and
    // the stash is empty again
    let mut game = Tetris::with_pieces(Position::new(4, 4), O, 0, O, 0);
    game.step_with(Event::MoveLeft, O, 0);
    game.step_with(Event::Drop, O, 0);
    let mid = game.get_display_state();
    assert_eq!(mid.score, 0);
    assert_eq!(mid.blocks.len(), 4);
    game.step_with(Event::MoveRight, O, 0);
    game.step_with(Event::MoveDown, O, 0);
    game.step_with(Event::MoveDown, O, 0);
    game.step_with(Event::MoveDown, O, 0);
    let after = game.get_display_state();
    assert_eq!(after.score, 3);
    assert_eq!(after.blocks.len(), 0);
}

#[test]
fn drop_equals_repeated_move_down() {
    // hard drop reaches exactly the state of distance - 1 plain downward
    // moves followed by the landing downward move
    let mut dropped = Tetris::with_pieces(Position::new(10, 20), I, 0, O, 1);
    let mut stepped = Tetris::with_pieces(Position::new(10, 20), I, 0, O, 1);
    dropped.step_with(Event::Drop, O, 2);
    // the I piece spawns at the top row of an empty field: distance 20
    for _ in 0..19 {
        stepped.step_with(Event::MoveDown, I, 0);
    }
    stepped.step_with(Event::MoveDown, O, 2);
    assert_same_state(&dropped.get_display_state(), &stepped.get_display_state());
}

#[test]
fn rejected_moves_leave_state_unchanged() {
    // at the left wall, a further move left is clamped back; the state is
    // the same afterwards
    let mut game = Tetris::with_pieces(Position::new(4, 4), O, 0, O, 0);
    game.step_with(Event::MoveLeft, O, 0);
    let at_wall = game.get_display_state();
    game.step_with(Event::MoveLeft, O, 0);
    assert_same_state(&at_wall, &game.get_display_state());
}

#[test]
fn blocked_spawn_reports_game_over() {
    // O pieces stack in the middle columns; once the stack reaches the
    // spawn cells, the landing leaves the fresh piece at distance zero and
    // run reports no further tick interval
    let mut game = Tetris::with_pieces(Position::new(4, 4), O, 0, O, 0);
    game.step_with(Event::Drop, O, 0);
    let r = game.run(Event::Drop);
    assert!(r.is_none());
}

#[test]
fn interval_shrinks_with_level() {
    // score 0 is level 0: 1500 / 3 = 500 ms
    let mut game = Tetris::with_pieces(Position::new(10, 20), I, 0, O, 0);
    let r = game.run(Event::MoveDown);
    assert_eq!(r, Some(500));
}

#[test]
fn reset_starts_over() {
    let mut game = Tetris::with_pieces(Position::new(4, 4), I, 0, I, 0);
    for _ in 0..4 {
        game.step_with(Event::MoveDown, I, 0);
    }
    assert_eq!(game.get_display_state().score, 1);
    game.reset();
    let fresh = game.get_display_state();
    assert_eq!(fresh.score, 0);
    assert_eq!(fresh.blocks.len(), 0);
    assert_eq!(fresh.scene_area, Position::new(4, 4));
}

#[test]
fn projection_is_empty_at_game_over() {
    let mut game = Tetris::with_pieces(Position::new(4, 4), O, 0, O, 0);
    game.step_with(Event::Drop, O, 0);
    game.step_with(Event::Drop, O, 0);
    // the freshly spawned piece overlaps the stack: game over
    let state = game.get_display_state();
    assert_eq!(state.projection.len(), 0);
    assert_eq!(state.player.len(), 4);
}

#[test]
fn level_is_score_over_hundred() {
    let mut game = Tetris::with_pieces(Position::new(4, 4), I, 0, I, 0);
    assert_eq!(game.get_level(), 0);
    for _ in 0..4 {
        game.step_with(Event::MoveDown, I, 0);
    }
    // one cleared line: score 1, still level 0
    assert_eq!(game.get_display_state().score, 1);
    assert_eq!(game.get_level(), 0);
}

#[test]
fn lowest_row_tracks_bottommost_cell() {
    // a horizontal I piece spawns in the top row
    let flat = Tetronimo::at_top(I, 0, Position::new(10, 20));
    assert_eq!(flat.lowest_row(), 0);
    // turned once it spans four rows, clamped to start at the top edge
    let upright = Tetronimo::at_top(I, 1, Position::new(10, 20));
    assert_eq!(upright.lowest_row(), 3);
}

#[test]
fn random_game_runs() {
    let mut game = Tetris::new(Position::new(10, 20));
    let state = game.get_display_state();
    assert_eq!(state.player.len(), 4);
    assert_eq!(state.next.len(), 4);
    for p in state.player.iter() {
        assert!(p.x < 10 && p.y < 20);
    }
    for p in state.next.iter() {
        assert!(p.x < 4 && p.y < 4);
    }
    let r = game.run(Event::Rotate);
    assert!(r.is_some());
}
