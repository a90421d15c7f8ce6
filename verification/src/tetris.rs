//! The game state machine: the falling piece, the queued next piece, the
//! stash of dropped blocks, the score, and the event loop contract.
//!
//! Every event handler is specified against [`step_view`], a pure function
//! of the previous state, the event, and the shape/rotation drawn for a
//! replacement piece. Randomness only chooses that replacement: everything
//! else is deterministic.

use vstd::prelude::*;
use vstd::arithmetic::power2::pow2;
use crate::blocks::Blocks;
use crate::geometry::{positions_view, Direction, Position};
use crate::rows::{
    cleared, distance_of, no_full, rows_ok, stash_positions, with_cells,
};
use crate::tetronimo::{
    at_top_view, cells_of, in_bounds, limits_ok, shape_ok, transform_view, TetroView, Tetronimo,
};

verus! {

/// One abstract input event.
#[derive(Debug, Clone, Copy)]
pub enum Event {
    MoveLeft,
    MoveRight,
    MoveDown,
    MoveUp,
    Rotate,
    Drop,
}

/// A read-only snapshot of everything a renderer needs.
#[derive(Default)]
pub struct DisplayState {
    /// Cells of the falling piece.
    pub player: Vec<Position>,
    /// Cells of the queued piece, re-centered into a 4 by 4 preview box.
    pub next: Vec<Position>,
    /// Cells of the falling piece moved to its resting place; empty when
    /// the piece already touches the stash.
    pub projection: Vec<Position>,
    /// All cells of the settled stash.
    pub blocks: Vec<Position>,
    /// The play-area size.
    pub scene_area: Position,
    /// The current score.
    pub score: u64,
}

/// The ghost value of a snapshot.
pub struct DisplayView {
    pub player: Seq<(int, int)>,
    pub next: Seq<(int, int)>,
    pub projection: Seq<(int, int)>,
    pub blocks: Seq<Position>,
    pub scene_area: Position,
    pub score: int,
}

impl View for DisplayState {
    type V = DisplayView;

    open spec fn view(&self) -> DisplayView {
        DisplayView {
            player: positions_view(self.player@),
            next: positions_view(self.next@),
            projection: positions_view(self.projection@),
            blocks: self.blocks@,
            scene_area: self.scene_area,
            score: self.score as int,
        }
    }
}

/// The engine state.
#[derive(Debug)]
pub struct Tetris {
    /// Total score, non-decreasing over the life of a game.
    pub score: u64,
    /// The play-area size: cells satisfy `0 <= x < scene_area.x` and
    /// `0 <= y < scene_area.y`.
    pub scene_area: Position,
    /// The falling piece.
    pub tetronimo: Tetronimo,
    /// The piece that spawns after the next landing.
    pub next: Tetronimo,
    /// The settled stash; its floor is `scene_area.y`.
    pub dropped: Blocks,
}

/// The ghost value of the engine state.
pub struct GameView {
    pub score: int,
    pub area: Position,
    pub piece: TetroView,
    pub next: TetroView,
    pub rows: Seq<Seq<u8>>,
}

impl View for Tetris {
    type V = GameView;

    open spec fn view(&self) -> GameView {
        GameView {
            score: self.score as int,
            area: self.scene_area,
            piece: self.tetronimo@,
            next: self.next@,
            rows: self.dropped.rows(),
        }
    }
}

/// The piece's distance to its resting place: the least gap between one of
/// its cells and the stash or the floor below it.
pub open spec fn distance_view(g: GameView) -> int {
    distance_of(g.rows, g.area.y as int, cells_of(g.piece))
}

/// The state invariant, purely over the ghost value: a big-enough area,
/// both pieces well-formed and inside it, and a consistent stash with no
/// full row left standing.
pub open spec fn wf_view(g: GameView) -> bool {
    &&& 4 <= g.area.x
    &&& 4 <= g.area.y
    &&& 0 <= g.score <= u64::MAX
    &&& shape_ok(g.piece.blocks)
    &&& in_bounds(g.piece, g.area.x as int, g.area.y as int)
    &&& 0 <= g.piece.x <= u8::MAX && 0 <= g.piece.y <= u8::MAX
    &&& shape_ok(g.next.blocks)
    &&& in_bounds(g.next, g.area.x as int, g.area.y as int)
    &&& 0 <= g.next.x <= u8::MAX && 0 <= g.next.y <= u8::MAX
    &&& g.rows.len() <= g.area.y as int
    &&& rows_ok(g.rows, g.area.x as int)
    &&& no_full(g.rows, g.area.x as int)
}

/// The state after the falling piece lands: its cells join the stash, full
/// rows are cleared, the score grows by `2^n - 1` for `n` cleared rows
/// (capped at the score type's maximum), the queued piece starts falling
/// and a piece of the drawn shape and rotation is queued.
pub open spec fn landing_view(g: GameView, kind: int, rot: int) -> GameView {
    let added = with_cells(g.rows, g.area.y as int, cells_of(g.piece));
    let n = added.len() - cleared(added, g.area.x as int).len();
    let bonus = pow2(n as nat) - 1;
    GameView {
        score: if g.score + bonus > u64::MAX {
            u64::MAX as int
        } else {
            g.score + bonus
        },
        area: g.area,
        piece: g.next,
        next: at_top_view(kind, rot, g.area.x as int, g.area.y as int),
        rows: cleared(added, g.area.x as int),
    }
}

/// The state after a plain move or rotation attempt: the transformed piece
/// replaces the old one only if it does not touch the stash or the floor.
pub open spec fn move_view(g: GameView, d: Direction) -> GameView {
    let cand = transform_view(g.piece, d, 1, g.area.x as int, g.area.y as int);
    if distance_of(g.rows, g.area.y as int, cells_of(cand)) > 0 {
        GameView { piece: cand, ..g }
    } else {
        g
    }
}

/// One movement event: a downward move lands the piece exactly when it
/// hovers one cell above its resting place.
pub open spec fn move_or_land_view(g: GameView, d: Direction, kind: int, rot: int) -> GameView {
    if d is Down && distance_view(g) == 1 {
        landing_view(g, kind, rot)
    } else {
        move_view(g, d)
    }
}

/// The falling piece shifted straight down to one cell above its resting
/// place.
pub open spec fn projection_view(g: GameView) -> TetroView {
    let d = distance_view(g);
    transform_view(
        g.piece,
        Direction::Down,
        if d >= 1 {
            d - 1
        } else {
            0
        },
        g.area.x as int,
        g.area.y as int,
    )
}

/// The full transition relation of the engine, one event at a time. The
/// `kind` and `rot` parameters choose the replacement piece should the
/// event land the falling piece.
pub open spec fn step_view(g: GameView, e: Event, kind: int, rot: int) -> GameView {
    match e {
        Event::MoveLeft => move_or_land_view(g, Direction::Left, kind, rot),
        Event::MoveRight => move_or_land_view(g, Direction::Right, kind, rot),
        Event::MoveUp => move_or_land_view(g, Direction::Up, kind, rot),
        Event::MoveDown => move_or_land_view(g, Direction::Down, kind, rot),
        Event::Rotate => move_or_land_view(g, Direction::Rotate, kind, rot),
        Event::Drop => move_or_land_view(
            GameView { piece: projection_view(g), ..g },
            Direction::Down,
            kind,
            rot,
        ),
    }
}

/// The recommended wait before the next automatic downward move, in
/// milliseconds: it shrinks as the score-derived level grows.
pub open spec fn interval_view(score: int) -> int {
    1500int / (score / 100 + 3)
}

/// The four absolute cells of a well-formed piece are pairwise distinct,
/// sit inside the play area, and — one cell above landing or higher — are
/// all free of the stash.
pub proof fn lemma_piece_cells(g: GameView)
    requires
        wf_view(g),
        distance_view(g) >= 1,
    ensures
        forall|j: int, l: int|
            0 <= j < l < cells_of(g.piece).len() ==> #[trigger] cells_of(g.piece)[j]
                != #[trigger] cells_of(g.piece)[l],
        forall|j: int|
            0 <= j < cells_of(g.piece).len() ==> {
                &&& 0 <= (#[trigger] cells_of(g.piece)[j]).0 < g.area.x
                &&& 0 <= cells_of(g.piece)[j].1 < g.area.y
                &&& !crate::rows::occupied(
                    g.rows,
                    g.area.y as int,
                    cells_of(g.piece)[j].0,
                    cells_of(g.piece)[j].1,
                )
            },
{
    let cs = cells_of(g.piece);
    let start = g.area.y as int;
    assert forall|j: int, l: int| 0 <= j < l < cs.len() implies #[trigger] cs[j]
        != #[trigger] cs[l] by {
        assert(cs[j] == (g.piece.x + g.piece.blocks[j].0, g.piece.y + g.piece.blocks[j].1));
        assert(cs[l] == (g.piece.x + g.piece.blocks[l].0, g.piece.y + g.piece.blocks[l].1));
        if cs[j] == cs[l] {
            assert(g.piece.blocks[j] == g.piece.blocks[l]);
        }
    }
    crate::rows::lemma_distance_of(g.rows, start, cs);
    assert forall|j: int|
        0 <= j < cs.len() implies {
        &&& 0 <= (#[trigger] cs[j]).0 < g.area.x
        &&& 0 <= cs[j].1 < g.area.y
        &&& !crate::rows::occupied(g.rows, start, cs[j].0, cs[j].1)
    } by {
        assert(cs[j] == (g.piece.x + g.piece.blocks[j].0, g.piece.y + g.piece.blocks[j].1));
        assert(crate::rows::gap(g.rows, start, cs[j].0, cs[j].1) >= distance_view(g));
        crate::rows::lemma_gap_zero(g.rows, start, cs[j].0, cs[j].1);
    }
}

/// What a landing does to the stash: the result is consistent again, no
/// full row survives, and between zero and four rows are removed.
pub proof fn lemma_landing_stash(g: GameView)
    requires
        wf_view(g),
        distance_view(g) >= 1,
    ensures
        ({
            let start = g.area.y as int;
            let width = g.area.x as int;
            let added = with_cells(g.rows, start, cells_of(g.piece));
            let n = added.len() - cleared(added, width).len();
            &&& rows_ok(added, width)
            &&& added.len() <= start
            &&& rows_ok(cleared(added, width), width)
            &&& no_full(cleared(added, width), width)
            &&& cleared(added, width).len() <= added.len()
            &&& 0 <= n <= 4
        }),
{
    let cs = cells_of(g.piece);
    let start = g.area.y as int;
    let width = g.area.x as int;
    let added = with_cells(g.rows, start, cs);
    lemma_piece_cells(g);
    crate::rows::lemma_with_cells_ok(g.rows, start, cs, width);
    crate::rows::lemma_with_cells_len(g.rows, start, cs);
    crate::rows::lemma_cleared_rows_ok(added, width);
    crate::rows::lemma_cleared_no_full(added, width);
    crate::rows::lemma_full_rows_none(g.rows, width);
    crate::rows::lemma_full_rows_with_cells(g.rows, start, cs, width);
    crate::rows::lemma_full_rows_partition(added, width);
    crate::rows::lemma_full_rows_nonneg(added, width);
    added.lemma_filter_len(|row: Seq<u8>| row.len() < width);
}

/// Clearing exactly `n` rows in one landing adds exactly `2^n - 1` points,
/// and a single landing clears at most four rows.
pub proof fn lemma_landing_score(g: GameView, kind: int, rot: int)
    requires
        wf_view(g),
        distance_view(g) >= 1,
        g.score + 15 <= u64::MAX,
    ensures
        ({
            let added = with_cells(g.rows, g.area.y as int, cells_of(g.piece));
            let n = added.len() - cleared(added, g.area.x as int).len();
            &&& 0 <= n <= 4
            &&& landing_view(g, kind, rot).score == g.score + pow2(n as nat) - 1
        }),
{
    let added = with_cells(g.rows, g.area.y as int, cells_of(g.piece));
    let n = added.len() - cleared(added, g.area.x as int).len();
    lemma_landing_stash(g);
    vstd::arithmetic::power2::lemma2_to64();
    assert(pow2(n as nat) <= 16) by {
        if n == 0 {
        } else if n == 1 {
        } else if n == 2 {
        } else if n == 3 {
        } else {
            assert(n == 4);
        }
    }
}

/// A snapshot is a pure function of the state: two snapshots of one state
/// are identical.
pub proof fn lemma_display_deterministic(g: GameView, d1: DisplayView, d2: DisplayView)
    requires
        d1 == display_view(g),
        d2 == display_view(g),
    ensures
        d1 == d2,
{
}

/// When the piece that spawns after a landing finds one of its cells
/// already occupied (or on the floor), the new state is game over: its
/// distance is zero, so `run` reports no further tick interval.
pub proof fn lemma_spawn_blocked_game_over(g: GameView, kind: int, rot: int)
    requires
        wf_view(g),
        distance_view(g) == 1,
        ({
            let after = landing_view(g, kind, rot);
            crate::rows::overlaps(after.rows, after.area.y as int, cells_of(after.piece))
        }),
    ensures
        distance_view(landing_view(g, kind, rot)) == 0,
{
    let after = landing_view(g, kind, rot);
    let cs = cells_of(after.piece);
    assert(after.piece == g.next);
    assert(cs.len() == 4);
    assert forall|j: int| 0 <= j < cs.len() implies (#[trigger] cs[j]).1
        <= after.area.y as int by {
        assert(cs[j] == (g.next.x + g.next.blocks[j].0, g.next.y + g.next.blocks[j].1));
    }
    crate::rows::lemma_distance_zero(after.rows, after.area.y as int, cs);
}

/// The state after `m` plain downward moves.
pub open spec fn downs(g: GameView, m: int) -> GameView
    decreases m,
{
    if m <= 0 {
        g
    } else {
        move_view(downs(g, m - 1), Direction::Down)
    }
}

/// One plain downward move of a piece hanging at least two cells above its
/// resting place: the anchor slides down one row, nothing else changes,
/// and the distance shrinks by exactly one.
pub proof fn lemma_move_down_exact(g: GameView)
    requires
        wf_view(g),
        distance_view(g) >= 2,
    ensures
        wf_view(move_view(g, Direction::Down)),
        move_view(g, Direction::Down) == (GameView {
            piece: TetroView { x: g.piece.x, y: g.piece.y + 1, blocks: g.piece.blocks },
            ..g
        }),
        distance_view(move_view(g, Direction::Down)) == distance_view(g) - 1,
{
    let start = g.area.y as int;
    let cs = cells_of(g.piece);
    let d = distance_view(g);
    crate::rows::lemma_distance_of(g.rows, start, cs);
    crate::prototype::lemma_bottom_of(g.piece.blocks);
    let jb = choose|j: int|
        0 <= j < g.piece.blocks.len() && (#[trigger] g.piece.blocks[j]).1 == crate::prototype::bottom_of(
            g.piece.blocks,
        );
    assert(cs[jb] == (g.piece.x + g.piece.blocks[jb].0, g.piece.y + g.piece.blocks[jb].1));
    assert(crate::rows::gap(g.rows, start, cs[jb].0, cs[jb].1) >= d);
    crate::rows::lemma_obstruction_range(g.rows, start, cs[jb].0, cs[jb].1);
    assert(g.piece.y + crate::prototype::bottom_of(g.piece.blocks) + d <= start);
    assert(g.piece.y + 1 <= u8::MAX);
    let shifted = TetroView { x: g.piece.x, y: g.piece.y + 1, blocks: g.piece.blocks };
    assert forall|j: int|
        0 <= j < shifted.blocks.len() implies {
        &&& 0 <= shifted.x + (#[trigger] shifted.blocks[j]).0 < g.area.x as int
        &&& 0 <= shifted.y + shifted.blocks[j].1 < start
    } by {
        assert(cs[j] == (g.piece.x + g.piece.blocks[j].0, g.piece.y + g.piece.blocks[j].1));
        assert(crate::rows::gap(g.rows, start, cs[j].0, cs[j].1) >= d);
        crate::rows::lemma_obstruction_range(g.rows, start, cs[j].0, cs[j].1);
    }
    crate::tetronimo::lemma_reposition_in_bounds(shifted, g.area.x as int, g.area.y as int);
    let cand = transform_view(g.piece, Direction::Down, 1, g.area.x as int, g.area.y as int);
    assert(cand == shifted);
    let cs2 = cells_of(shifted);
    assert forall|j: int| 0 <= j < cs.len() implies #[trigger] cs2[j] == ((#[trigger] cs[j]).0, cs[j].1
        + 1) by {
        assert(cs2[j] == (shifted.x + shifted.blocks[j].0, shifted.y + shifted.blocks[j].1));
        assert(cs[j] == (g.piece.x + g.piece.blocks[j].0, g.piece.y + g.piece.blocks[j].1));
    }
    assert forall|j: int| 0 <= j < cs.len() implies {
        &&& (#[trigger] cs[j]).1 <= start
        &&& crate::rows::gap(g.rows, start, cs[j].0, cs[j].1) >= 1
    } by {
        assert(cs[j] == (g.piece.x + g.piece.blocks[j].0, g.piece.y + g.piece.blocks[j].1));
    }
    crate::rows::lemma_distance_shift(g.rows, start, cs, cs2);
}

/// `m` plain downward moves, while the piece stays above its resting
/// place, slide the anchor down `m` rows, leave everything else alone,
/// and shrink the distance by `m`.
pub proof fn lemma_downs(g: GameView, m: int)
    requires
        wf_view(g),
        0 <= m <= distance_view(g) - 1,
    ensures
        wf_view(downs(g, m)),
        downs(g, m) == (GameView {
            piece: TetroView { x: g.piece.x, y: g.piece.y + m, blocks: g.piece.blocks },
            ..g
        }),
        distance_view(downs(g, m)) == distance_view(g) - m,
    decreases m,
{
    if m <= 0 {
        assert(downs(g, 0) == g);
        assert(g.piece == TetroView { x: g.piece.x, y: g.piece.y + 0, blocks: g.piece.blocks });
    } else {
        lemma_downs(g, m - 1);
        lemma_move_down_exact(downs(g, m - 1));
    }
}

/// The projection is exactly the piece slid down to one cell above its
/// resting place.
pub proof fn lemma_projection(g: GameView)
    requires
        wf_view(g),
        distance_view(g) >= 1,
    ensures
        projection_view(g) == (TetroView {
            x: g.piece.x,
            y: g.piece.y + distance_view(g) - 1,
            blocks: g.piece.blocks,
        }),
{
    let start = g.area.y as int;
    let cs = cells_of(g.piece);
    let d = distance_view(g);
    crate::rows::lemma_distance_of(g.rows, start, cs);
    crate::prototype::lemma_bottom_of(g.piece.blocks);
    let jb = choose|j: int|
        0 <= j < g.piece.blocks.len() && (#[trigger] g.piece.blocks[j]).1 == crate::prototype::bottom_of(
            g.piece.blocks,
        );
    assert(cs[jb] == (g.piece.x + g.piece.blocks[jb].0, g.piece.y + g.piece.blocks[jb].1));
    assert(crate::rows::gap(g.rows, start, cs[jb].0, cs[jb].1) >= d);
    crate::rows::lemma_obstruction_range(g.rows, start, cs[jb].0, cs[jb].1);
    assert(g.piece.y + d - 1 <= u8::MAX);
    let moved = TetroView { x: g.piece.x, y: g.piece.y + d - 1, blocks: g.piece.blocks };
    assert forall|j: int|
        0 <= j < moved.blocks.len() implies {
        &&& 0 <= moved.x + (#[trigger] moved.blocks[j]).0 < g.area.x as int
        &&& 0 <= moved.y + moved.blocks[j].1 < start
    } by {
        assert(cs[j] == (g.piece.x + g.piece.blocks[j].0, g.piece.y + g.piece.blocks[j].1));
        assert(crate::rows::gap(g.rows, start, cs[j].0, cs[j].1) >= d);
        crate::rows::lemma_obstruction_range(g.rows, start, cs[j].0, cs[j].1);
    }
    crate::tetronimo::lemma_reposition_in_bounds(moved, g.area.x as int, g.area.y as int);
}

/// A downward move away from the resting place is a plain move, no
/// landing.
pub proof fn lemma_movedown_plain(g: GameView, kind: int, rot: int)
    requires
        distance_view(g) != 1,
    ensures
        step_view(g, Event::MoveDown, kind, rot) == move_view(g, Direction::Down),
{
}

/// Hard-drop equivalence: from distance `d >= 1`, a `Drop` reaches exactly
/// the state of `d - 1` plain downward moves followed by one landing
/// downward move, whatever replacement piece is drawn.
pub proof fn lemma_drop_equiv(g: GameView, kind: int, rot: int)
    requires
        wf_view(g),
        distance_view(g) >= 1,
    ensures
        step_view(g, Event::Drop, kind, rot) == move_or_land_view(
            downs(g, distance_view(g) - 1),
            Direction::Down,
            kind,
            rot,
        ),
{
    let d = distance_view(g);
    lemma_downs(g, d - 1);
    lemma_projection(g);
    assert((GameView { piece: projection_view(g), ..g }) == downs(g, d - 1));
}

/// The state after one snapshot query, unchanged: what each field shows.
pub open spec fn display_view(g: GameView) -> DisplayView {
    DisplayView {
        player: cells_of(g.piece),
        next: cells_of(transform_view(g.next, Direction::Rotate, 0, 4, 4)),
        projection: if distance_view(g) == 0 {
            Seq::empty()
        } else {
            cells_of(projection_view(g))
        },
        blocks: stash_positions(g.rows, g.area.y as int),
        scene_area: g.area,
        score: g.score,
    }
}

/// `2^n - 1`, the line-clear bonus for `n` cleared rows.
fn pow2_minus_1(n: u8) -> (r: u64)
    requires
        n <= 63,
    ensures
        r as int == pow2(n as nat) - 1,
{
    let mut r: u64 = 0;
    let mut i: u8 = 0;
    proof {
        vstd::arithmetic::power2::lemma2_to64();
    }
    while i < n
        invariant
            i <= n <= 63,
            r as int == pow2(i as nat) - 1,
        decreases n - i,
    {
        proof {
            vstd::arithmetic::power2::lemma_pow2_unfold(i as nat + 1);
            vstd::arithmetic::power2::lemma_pow2_strictly_increases(i as nat + 1, 64);
            vstd::arithmetic::power2::lemma2_to64();
            vstd::arithmetic::power2::lemma2_to64_rest();
        }
        r = 2 * r + 1;
        i = i + 1;
    }
    r
}

impl Tetris {
    /// The state invariant, plus the cached shape limits being correct.
    pub open spec fn wf(&self) -> bool {
        &&& wf_view(self@)
        &&& limits_ok(self.tetronimo.prototype)
        &&& limits_ok(self.next.prototype)
        &&& self.dropped.start == self.scene_area.y
    }

    /// A fresh game over an empty stash, with two random pieces drawn.
    pub fn new(scene_area: Position) -> (r: Self)
        requires
            scene_area.x >= 4,
            scene_area.y >= 4,
        ensures
            r.wf(),
            r@.score == 0,
            r@.area == scene_area,
            r@.rows == Seq::<Seq<u8>>::empty(),
    {
        Self {
            scene_area,
            score: 0,
            tetronimo: Tetronimo::random_at_top(scene_area),
            next: Tetronimo::random_at_top(scene_area),
            dropped: Blocks::new(scene_area.y),
        }
    }

    /// A fresh game with both pieces chosen by the caller: the same states
    /// `new` can produce, minus the randomness.
    pub fn with_pieces(
        scene_area: Position,
        kind: u8,
        rotation: u8,
        next_kind: u8,
        next_rotation: u8,
    ) -> (r: Self)
        requires
            scene_area.x >= 4,
            scene_area.y >= 4,
            kind < 7,
            rotation < 4,
            next_kind < 7,
            next_rotation < 4,
        ensures
            r.wf(),
            r@.score == 0,
            r@.area == scene_area,
            r@.rows == Seq::<Seq<u8>>::empty(),
            r@.piece == at_top_view(
                kind as int,
                rotation as int,
                scene_area.x as int,
                scene_area.y as int,
            ),
            r@.next == at_top_view(
                next_kind as int,
                next_rotation as int,
                scene_area.x as int,
                scene_area.y as int,
            ),
    {
        Self {
            scene_area,
            score: 0,
            tetronimo: Tetronimo::at_top(kind, rotation, scene_area),
            next: Tetronimo::at_top(next_kind, next_rotation, scene_area),
            dropped: Blocks::new(scene_area.y),
        }
    }

    /// Start over at the same play area: empty stash, zero score, fresh
    /// random pieces.
    pub fn reset(&mut self)
        requires
            old(self).wf(),
        ensures
            final(self).wf(),
            final(self)@.score == 0,
            final(self)@.area == old(self)@.area,
            final(self)@.rows == Seq::<Seq<u8>>::empty(),
    {
        let area = self.scene_area;
        *self = Self::new(area);
    }

    /// The falling piece's distance to its resting place; zero means game
    /// over.
    pub fn get_distance_to_drop(&self) -> (r: u8)
        requires
            self.wf(),
        ensures
            r as int == distance_view(self@),
    {
        self.dropped.distance_to(&self.tetronimo)
    }

    /// The score-derived level: one level per hundred points.
    pub fn get_level(&self) -> (r: u64)
        ensures
            r as int == self.score as int / 100,
    {
        self.score / 100
    }

    /// The recommended wait before the next automatic downward move.
    fn calculate_interval(&self) -> (r: u64)
        ensures
            r as int == interval_view(self.score as int),
    {
        let player_level = self.score / 100;
        1500 / (player_level + 3)
    }

    /// Handle one movement or rotation request; a downward move one cell
    /// above the resting place lands the piece instead, consuming the
    /// drawn replacement shape.
    fn move_tetronimo(&mut self, direction: Direction, kind: u8, rot: u8)
        requires
            old(self).wf(),
            kind < 7,
            rot < 4,
        ensures
            final(self).wf(),
            final(self)@ == move_or_land_view(old(self)@, direction, kind as int, rot as int),
    {
        let ghost g = self@;
        let is_down = matches!(direction, Direction::Down);
        let d = self.get_distance_to_drop();
        if is_down && d == 1 {
            proof {
                lemma_landing_stash(g);
                lemma_piece_cells(g);
            }
            self.dropped.add(&self.tetronimo);
            let cleared_lines = self.dropped.clear_completed_rows(self.scene_area.x);
            let bonus = pow2_minus_1(cleared_lines);
            self.score = if self.score > u64::MAX - bonus {
                u64::MAX
            } else {
                self.score + bonus
            };
            self.tetronimo = self.next;
            self.next = Tetronimo::at_top(kind, rot, self.scene_area);
            proof {
                assert(self@ == landing_view(g, kind as int, rot as int));
            }
        } else {
            let moved = self.tetronimo.transform(direction, 1, self.scene_area);
            if self.dropped.distance_to(&moved) > 0 {
                self.tetronimo = moved;
            }
            proof {
                assert(self@ == move_view(g, direction));
            }
        }
    }

    /// The falling piece shifted straight down to one cell above its
    /// resting place.
    fn build_projection(&self) -> (r: Tetronimo)
        requires
            self.wf(),
        ensures
            r@ == projection_view(self@),
            limits_ok(r.prototype),
            shape_ok(r@.blocks),
            in_bounds(r@, self@.area.x as int, self@.area.y as int),
    {
        let d = self.get_distance_to_drop();
        let step = if d >= 1 {
            d - 1
        } else {
            0
        };
        self.tetronimo.transform(Direction::Down, step, self.scene_area)
    }

    /// Hard drop: move the piece to its resting place and land it there,
    /// consuming the drawn replacement shape.
    fn drop(&mut self, kind: u8, rot: u8)
        requires
            old(self).wf(),
            kind < 7,
            rot < 4,
        ensures
            final(self).wf(),
            final(self)@ == step_view(old(self)@, Event::Drop, kind as int, rot as int),
    {
        self.tetronimo = self.build_projection();
        self.move_tetronimo(Direction::Down, kind, rot);
    }

    /// Process one event deterministically: `kind` and `rotation` choose
    /// the piece queued should this event land the falling piece.
    pub fn step_with(&mut self, event: Event, kind: u8, rotation: u8)
        requires
            old(self).wf(),
            kind < 7,
            rotation < 4,
        ensures
            final(self).wf(),
            final(self)@ == step_view(old(self)@, event, kind as int, rotation as int),
    {
        match event {
            Event::MoveLeft => self.move_tetronimo(Direction::Left, kind, rotation),
            Event::MoveRight => self.move_tetronimo(Direction::Right, kind, rotation),
            Event::MoveUp => self.move_tetronimo(Direction::Up, kind, rotation),
            Event::MoveDown => self.move_tetronimo(Direction::Down, kind, rotation),
            Event::Rotate => self.move_tetronimo(Direction::Rotate, kind, rotation),
            Event::Drop => self.drop(kind, rotation),
        }
    }

    /// Process one event and report the recommended wait before the next
    /// automatic downward move, or nothing when the game is over.
    pub fn run(&mut self, event: Event) -> (r: Option<u64>)
        requires
            old(self).wf(),
        ensures
            final(self).wf(),
            exists|kind: int, rot: int|
                0 <= kind < 7 && 0 <= rot < 4 && final(self)@ == step_view(
                    old(self)@,
                    event,
                    kind,
                    rot,
                ),
            match r {
                Some(i) => distance_view(final(self)@) > 0 && i as int == interval_view(
                    final(self)@.score,
                ),
                None => distance_view(final(self)@) == 0,
            },
    {
        let kind = (crate::tetronimo::random_u32() % 7) as u8;
        let rot = (crate::tetronimo::random_u32() % 4) as u8;
        self.step_with(event, kind, rot);
        proof {
            assert(final(self)@ == step_view(old(self)@, event, kind as int, rot as int));
        }
        if self.get_distance_to_drop() > 0 {
            Some(self.calculate_interval())
        } else {
            None
        }
    }

    /// A read-only snapshot for rendering: the piece, the preview of the
    /// queued piece in a 4 by 4 box, the drop projection (empty once the
    /// game is over), the settled blocks, the area and the score.
    pub fn get_display_state(&self) -> (r: DisplayState)
        requires
            self.wf(),
        ensures
            r@ == display_view(self@),
    {
        let d = self.get_distance_to_drop();
        let projection = if d == 0 {
            Vec::new()
        } else {
            self.build_projection().now()
        };
        proof {
            if d == 0 {
                assert(positions_view(Seq::<Position>::empty()) =~= Seq::<(int, int)>::empty());
            }
        }
        DisplayState {
            player: self.tetronimo.now(),
            next: self.next.transform(Direction::Rotate, 0, Position::new(4, 4)).now(),
            projection,
            blocks: self.dropped.get_blocks(),
            scene_area: self.scene_area,
            score: self.score,
        }
    }
}

} // verus!
