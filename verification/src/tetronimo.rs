//! The falling piece: a shape with cached bounding-box limits and an anchor
//! position inside a play area.
//!
//! The play area is a [`Position`] read as an exclusive width/height pair:
//! a well-formed piece keeps all four absolute cells at coordinates
//! `0 <= x < area.x` and `0 <= y < area.y`. Every movement or rotation
//! builds a brand-new piece and clamps it back into the area.

use vstd::prelude::*;
use vstd::arithmetic::div_mod::lemma_add_mod_noop;
use crate::geometry::{Direction, Position};
use crate::prototype::{
    blocks_view, bottom_of, left_of, lemma_bottom_of, lemma_left_of, lemma_repos_axis,
    lemma_right_of, lemma_rot_cell_injective, lemma_top_of, repos_axis, right_of, rot_seq, top_of,
};

use rand::RngCore;

verus! {

/// The ghost value of a piece: its anchor and its four relative offsets.
pub struct TetroView {
    pub x: int,
    pub y: int,
    pub blocks: Seq<(int, int)>,
}

/// The four absolute cells of a piece.
pub open spec fn cells_of(t: TetroView) -> Seq<(int, int)> {
    t.blocks.map_values(|c: (int, int)| (t.x + c.0, t.y + c.1))
}

/// All four absolute cells lie inside a `ax` by `ay` play area.
pub open spec fn in_bounds(t: TetroView, ax: int, ay: int) -> bool {
    forall|j: int|
        0 <= j < t.blocks.len() ==> {
            &&& 0 <= t.x + (#[trigger] t.blocks[j]).0 < ax
            &&& 0 <= t.y + t.blocks[j].1 < ay
        }
}

/// What every reachable shape satisfies: four pairwise distinct offsets in
/// `-2..=1` on both axes, sticking out at or past the anchor on the low
/// sides and reaching at least column/row `-1` on the high sides. The seven
/// catalog shapes satisfy this, and a quarter turn preserves it.
pub open spec fn shape_ok(bs: Seq<(int, int)>) -> bool {
    &&& bs.len() == 4
    &&& forall|j: int|
        0 <= j < 4 ==> -2 <= (#[trigger] bs[j]).0 <= 1 && -2 <= bs[j].1 <= 1
    &&& forall|i: int, j: int| 0 <= i < j < 4 ==> #[trigger] bs[i] != #[trigger] bs[j]
    &&& left_of(bs) <= 0
    &&& top_of(bs) <= 0
    &&& right_of(bs) >= -1
    &&& bottom_of(bs) >= -1
}

/// A quarter-turn count preserves [`shape_ok`].
pub proof fn lemma_rot_shape_ok(bs: Seq<(int, int)>, r: int)
    requires
        shape_ok(bs),
    ensures
        shape_ok(rot_seq(bs, r)),
{
    let rb = rot_seq(bs, r);
    lemma_left_of(bs);
    lemma_right_of(bs);
    lemma_top_of(bs);
    lemma_bottom_of(bs);
    lemma_left_of(rb);
    lemma_right_of(rb);
    lemma_top_of(rb);
    lemma_bottom_of(rb);
    assert forall|i: int, j: int| 0 <= i < j < 4 implies #[trigger] rb[i] != #[trigger] rb[j] by {
        if rb[i] == rb[j] {
            lemma_rot_cell_injective(bs[i], bs[j], r);
        }
    }
    let jl = choose|j: int| 0 <= j < bs.len() && (#[trigger] bs[j]).0 == left_of(bs);
    let jr = choose|j: int| 0 <= j < bs.len() && (#[trigger] bs[j]).0 == right_of(bs);
    let jt = choose|j: int| 0 <= j < bs.len() && (#[trigger] bs[j]).1 == top_of(bs);
    let jb = choose|j: int| 0 <= j < bs.len() && (#[trigger] bs[j]).1 == bottom_of(bs);
    let m = r % 4;
    if m == 0 {
        assert(rb[jl].0 <= 0 && rb[jr].0 >= -1 && rb[jt].1 <= 0 && rb[jb].1 >= -1);
    } else if m == 1 {
        assert(rb[jt].0 <= 0 && rb[jb].0 >= -1 && rb[jr].1 <= 0 && rb[jl].1 >= -1);
    } else if m == 2 {
        assert(rb[jr].0 <= 0 && rb[jl].0 >= -1 && rb[jb].1 <= 0 && rb[jt].1 >= -1);
    } else {
        assert(rb[jb].0 <= 0 && rb[jt].0 >= -1 && rb[jl].1 <= 0 && rb[jr].1 >= -1);
    }
}

/// Cached bounding-box limits of a shape: the extreme offsets on each axis.
#[derive(Debug, Clone, Copy)]
pub struct ProtoTypeLimits {
    pub left: i8,
    pub right: i8,
    pub top: i8,
    pub bottom: i8,
}

/// A shape together with its cached limits.
#[derive(Debug, Clone, Copy)]
pub struct TetronimoPrototype {
    pub blocks: [(i8, i8); 4],
    pub limits: ProtoTypeLimits,
}

/// The cached limits agree with the actual extremes of the offsets.
pub open spec fn limits_ok(p: TetronimoPrototype) -> bool {
    let bs = blocks_view(p.blocks);
    &&& p.limits.left as int == left_of(bs)
    &&& p.limits.right as int == right_of(bs)
    &&& p.limits.top as int == top_of(bs)
    &&& p.limits.bottom as int == bottom_of(bs)
}

impl TetronimoPrototype {
    /// Build a shape from bare offsets, computing its limits.
    pub fn from(blocks: [(i8, i8); 4]) -> (r: Self)
        ensures
            r.blocks == blocks,
            limits_ok(r),
    {
        proof {
            assert(rot_seq(blocks_view(blocks), 0) =~= blocks_view(blocks));
        }
        Self {
            blocks,
            limits: ProtoTypeLimits {
                left: crate::prototype::left(blocks, 0),
                right: crate::prototype::right(blocks, 0),
                top: crate::prototype::top(blocks, 0),
                bottom: crate::prototype::bottom(blocks, 0),
            },
        }
    }

    /// The shape after `step` clockwise quarter turns; `step` may be
    /// negative, only its value modulo four matters.
    pub fn rotate(&self, step: i8) -> (r: Self)
        ensures
            blocks_view(r.blocks) == rot_seq(blocks_view(self.blocks), step as int),
            limits_ok(r),
            shape_ok(blocks_view(self.blocks)) ==> shape_ok(blocks_view(r.blocks)),
    {
        let m: u8 = ((step as i16 + 128) as u8) % 4;
        proof {
            lemma_add_mod_noop(step as int, 128, 4);
            assert(m as int % 4 == step as int % 4);
            assert(rot_seq(blocks_view(self.blocks), m as int) =~= rot_seq(
                blocks_view(self.blocks),
                step as int,
            ));
            if shape_ok(blocks_view(self.blocks)) {
                lemma_rot_shape_ok(blocks_view(self.blocks), step as int);
            }
        }
        Self::from(crate::prototype::rotate_prototype(self.blocks, m))
    }
}

/// The offsets of one of the seven catalog shapes, leftmost first:
/// I, S, Z, O, J, L, T.
pub open spec fn shape_blocks(kind: int) -> Seq<(int, int)> {
    if kind == 0 {
        seq![(-2, 0), (-1, 0), (0, 0), (1, 0)]
    } else if kind == 1 {
        seq![(-1, 0), (0, 0), (0, -1), (1, -1)]
    } else if kind == 2 {
        seq![(-1, -1), (0, 0), (0, -1), (1, 0)]
    } else if kind == 3 {
        seq![(-1, -1), (-1, 0), (0, 0), (0, -1)]
    } else if kind == 4 {
        seq![(-1, -1), (-1, 0), (0, 0), (1, 0)]
    } else if kind == 5 {
        seq![(1, -1), (-1, 0), (0, 0), (1, 0)]
    } else {
        seq![(-1, 0), (0, 0), (0, -1), (1, 0)]
    }
}

/// One of the seven catalog shapes, with its limits filled in.
pub fn catalog(kind: u8) -> (r: TetronimoPrototype)
    requires
        kind < 7,
    ensures
        blocks_view(r.blocks) == shape_blocks(kind as int),
        limits_ok(r),
        shape_ok(blocks_view(r.blocks)),
{
    let blocks: [(i8, i8); 4] = if kind == 0 {
        [(-2, 0), (-1, 0), (0, 0), (1, 0)]
    } else if kind == 1 {
        [(-1, 0), (0, 0), (0, -1), (1, -1)]
    } else if kind == 2 {
        [(-1, -1), (0, 0), (0, -1), (1, 0)]
    } else if kind == 3 {
        [(-1, -1), (-1, 0), (0, 0), (0, -1)]
    } else if kind == 4 {
        [(-1, -1), (-1, 0), (0, 0), (1, 0)]
    } else if kind == 5 {
        [(1, -1), (-1, 0), (0, 0), (1, 0)]
    } else {
        [(-1, 0), (0, 0), (0, -1), (1, 0)]
    };
    proof {
        assert(blocks_view(blocks) =~= shape_blocks(kind as int));
        lemma_left_of(blocks_view(blocks));
        lemma_right_of(blocks_view(blocks));
        lemma_top_of(blocks_view(blocks));
        lemma_bottom_of(blocks_view(blocks));
    }
    TetronimoPrototype::from(blocks)
}

/// The anchor after clamping a shape into the area on both axes.
pub open spec fn reposition_view(t: TetroView, ax: int, ay: int) -> TetroView {
    TetroView {
        x: repos_axis(t.x, left_of(t.blocks), right_of(t.blocks), 0, ax),
        y: repos_axis(t.y, top_of(t.blocks), bottom_of(t.blocks), 0, ay),
        blocks: t.blocks,
    }
}

/// Clamping a well-formed shape with a legal anchor into an area of at
/// least four cells a side puts all cells in bounds, keeps the anchor in
/// the coordinate range, and moves nothing that already fits.
pub proof fn lemma_reposition_in_bounds(t: TetroView, ax: int, ay: int)
    requires
        shape_ok(t.blocks),
        0 <= t.x,
        0 <= t.y,
        4 <= ax <= u8::MAX,
        4 <= ay <= u8::MAX,
    ensures
        in_bounds(reposition_view(t, ax, ay), ax, ay),
        0 <= reposition_view(t, ax, ay).x <= u8::MAX,
        0 <= reposition_view(t, ax, ay).y <= u8::MAX,
        in_bounds(t, ax, ay) ==> reposition_view(t, ax, ay) == t,
{
    lemma_left_of(t.blocks);
    lemma_right_of(t.blocks);
    lemma_top_of(t.blocks);
    lemma_bottom_of(t.blocks);
    lemma_repos_axis(t.x, left_of(t.blocks), right_of(t.blocks), 0, ax);
    lemma_repos_axis(t.y, top_of(t.blocks), bottom_of(t.blocks), 0, ay);
    let r = reposition_view(t, ax, ay);
    if in_bounds(t, ax, ay) {
        let jl = choose|j: int| 0 <= j < t.blocks.len() && (#[trigger] t.blocks[j]).0 == left_of(t.blocks);
        let jr = choose|j: int| 0 <= j < t.blocks.len() && (#[trigger] t.blocks[j]).0 == right_of(t.blocks);
        let jt = choose|j: int| 0 <= j < t.blocks.len() && (#[trigger] t.blocks[j]).1 == top_of(t.blocks);
        let jb = choose|j: int| 0 <= j < t.blocks.len() && (#[trigger] t.blocks[j]).1 == bottom_of(t.blocks);
        assert(0 <= t.x + t.blocks[jl].0 && t.x + t.blocks[jr].0 < ax);
        assert(0 <= t.y + t.blocks[jt].1 && t.y + t.blocks[jb].1 < ay);
    }
}

/// Clamp an anchor coordinate into `0..scene_max` for a shape spanning
/// `left..=right` around it.
fn repos_axis_exec(pos: u8, scene_max: u8, lo: i8, hi: i8) -> (r: u8)
    requires
        lo <= 0,
        hi - lo < scene_max,
    ensures
        r as int == repos_axis(pos as int, lo as int, hi as int, 0, scene_max as int),
{
    proof {
        lemma_repos_axis(pos as int, lo as int, hi as int, 0, scene_max as int);
    }
    let p = pos as i32;
    let lc = if -(p + lo as i32) > 0 {
        -(p + lo as i32)
    } else {
        0
    };
    let rc = if p + hi as i32 - scene_max as i32 + 1 > 0 {
        p + hi as i32 - scene_max as i32 + 1
    } else {
        0
    };
    (p + lc - rc) as u8
}

/// The piece: a shape and its anchor position in the play area.
#[derive(Debug, Clone, Copy)]
pub struct Tetronimo {
    pub position: Position,
    pub prototype: TetronimoPrototype,
}

impl View for Tetronimo {
    type V = TetroView;

    open spec fn view(&self) -> TetroView {
        TetroView {
            x: self.position.x as int,
            y: self.position.y as int,
            blocks: blocks_view(self.prototype.blocks),
        }
    }
}

/// The anchor of a freshly spawned shape: top middle of the area, then
/// clamped so the whole shape fits.
pub open spec fn at_top_view(kind: int, rot: int, ax: int, ay: int) -> TetroView {
    reposition_view(
        TetroView { x: ax / 2, y: 0, blocks: rot_seq(shape_blocks(kind), rot) },
        ax,
        ay,
    )
}

impl Tetronimo {
    /// The piece is internally consistent and lies inside `scene_area`.
    pub open spec fn wf(&self, scene_area: Position) -> bool {
        &&& limits_ok(self.prototype)
        &&& shape_ok(self@.blocks)
        &&& in_bounds(self@, scene_area.x as int, scene_area.y as int)
    }

    /// The catalog shape `kind`, turned `rotation` quarter turns, spawned
    /// at the top middle of `scene_area`.
    pub fn at_top(kind: u8, rotation: u8, scene_area: Position) -> (r: Self)
        requires
            kind < 7,
            rotation < 4,
            scene_area.x >= 4,
            scene_area.y >= 4,
        ensures
            r@ == at_top_view(
                kind as int,
                rotation as int,
                scene_area.x as int,
                scene_area.y as int,
            ),
            r.wf(scene_area),
    {
        let prototype = catalog(kind).rotate(rotation as i8);
        let position = Tetronimo::repostion(&prototype, scene_area.top_middle(), scene_area);
        proof {
            lemma_reposition_in_bounds(
                TetroView {
                    x: scene_area.x as int / 2,
                    y: 0,
                    blocks: blocks_view(prototype.blocks),
                },
                scene_area.x as int,
                scene_area.y as int,
            );
        }
        Self { position, prototype }
    }

    /// A uniformly random catalog shape under a uniformly random rotation,
    /// spawned at the top middle of `scene_area`.
    pub fn random_at_top(scene_area: Position) -> (r: Self)
        requires
            scene_area.x >= 4,
            scene_area.y >= 4,
        ensures
            r.wf(scene_area),
            exists|kind: int, rot: int|
                0 <= kind < 7 && 0 <= rot < 4 && r@ == at_top_view(
                    kind,
                    rot,
                    scene_area.x as int,
                    scene_area.y as int,
                ),
    {
        let kind = (random_u32() % 7) as u8;
        let rot = (random_u32() % 4) as u8;
        let r = Self::at_top(kind, rot, scene_area);
        proof {
            assert(r@ == at_top_view(
                kind as int,
                rot as int,
                scene_area.x as int,
                scene_area.y as int,
            ));
        }
        r
    }

    /// A new piece moved `step` cells in `direction` (or turned `step`
    /// quarter turns), then clamped back into `scene_area`. Horizontal and
    /// vertical moves saturate at the coordinate range before clamping.
    pub fn transform(&self, direction: Direction, step: u8, scene_area: Position) -> (r: Self)
        requires
            limits_ok(self.prototype),
            shape_ok(self@.blocks),
            scene_area.x >= 4,
            scene_area.y >= 4,
        ensures
            r@ == transform_view(
                self@,
                direction,
                step as int,
                scene_area.x as int,
                scene_area.y as int,
            ),
            limits_ok(r.prototype),
            shape_ok(r@.blocks),
            in_bounds(r@, scene_area.x as int, scene_area.y as int),
            r.wf(scene_area),
    {
        let mut next_prot = self.prototype;
        let mut next_pos = self.position;
        match direction {
            Direction::Left => {
                next_pos.x = if step > next_pos.x {
                    0
                } else {
                    next_pos.x - step
                };
            },
            Direction::Right => {
                next_pos.x = if next_pos.x as u16 + step as u16 > u8::MAX as u16 {
                    u8::MAX
                } else {
                    next_pos.x + step
                };
            },
            Direction::Up => {
                next_pos.y = if step > next_pos.y {
                    0
                } else {
                    next_pos.y - step
                };
            },
            Direction::Down => {
                next_pos.y = if next_pos.y as u16 + step as u16 > u8::MAX as u16 {
                    u8::MAX
                } else {
                    next_pos.y + step
                };
            },
            Direction::Rotate => {
                next_prot = next_prot.rotate((step % 4) as i8);
                proof {
                    lemma_add_mod_noop(step as int, 0, 4);
                    assert(rot_seq(self@.blocks, (step % 4) as int) =~= rot_seq(
                        self@.blocks,
                        step as int,
                    ));
                }
            },
        }
        let moved = Self { position: next_pos, prototype: next_prot };
        proof {
            lemma_reposition_in_bounds(moved@, scene_area.x as int, scene_area.y as int);
        }
        let position = Tetronimo::repostion(&next_prot, next_pos, scene_area);
        Self { position, prototype: next_prot }
    }

    /// The four absolute cells of the piece, anchor plus offsets.
    pub fn now(&self) -> (r: Vec<Position>)
        requires
            forall|j: int|
                0 <= j < self@.blocks.len() ==> {
                    &&& 0 <= self@.x + (#[trigger] self@.blocks[j]).0 <= u8::MAX
                    &&& 0 <= self@.y + self@.blocks[j].1 <= u8::MAX
                },
        ensures
            crate::geometry::positions_view(r@) == cells_of(self@),
    {
        let mut cells: Vec<Position> = Vec::new();
        let mut i: usize = 0;
        while i < 4
            invariant
                0 <= i <= 4,
                self@.blocks.len() == 4,
                forall|j: int|
                    0 <= j < self@.blocks.len() ==> {
                        &&& 0 <= self@.x + (#[trigger] self@.blocks[j]).0 <= u8::MAX
                        &&& 0 <= self@.y + self@.blocks[j].1 <= u8::MAX
                    },
                cells@.len() == i,
                crate::geometry::positions_view(cells@) =~= cells_of(self@).take(i as int),
            decreases 4 - i,
        {
            let b = self.prototype.blocks[i];
            proof {
                assert(self@.blocks[i as int] == (b.0 as int, b.1 as int));
            }
            let x = (self.position.x as i16 + b.0 as i16) as u8;
            let y = (self.position.y as i16 + b.1 as i16) as u8;
            let ghost prev = cells@;
            cells.push(Position { x, y });
            proof {
                assert((x as int, y as int) == cells_of(self@)[i as int]);
                assert(cells@ == prev.push(Position { x, y }));
                assert(prev.len() == i as int);
                let full = crate::geometry::positions_view(cells@);
                let want = cells_of(self@).take(i as int + 1);
                assert forall|k: int| 0 <= k < i as int + 1 implies full[k] == want[k] by {
                    if k < i as int {
                        assert(crate::geometry::positions_view(prev)[k] == cells_of(
                            self@,
                        ).take(i as int)[k]);
                        assert(cells@[k] == prev[k]);
                    } else {
                        assert(cells@[k] == Position { x, y });
                    }
                }
                assert(full =~= want);
            }
            i = i + 1;
        }
        proof {
            assert(cells_of(self@).take(4) =~= cells_of(self@));
            assert(crate::geometry::positions_view(cells@) =~= cells_of(self@));
        }
        cells
    }

    /// The grid row of the piece's bottommost cell.
    pub fn lowest_row(&self) -> (r: u8)
        requires
            limits_ok(self.prototype),
            0 <= self@.y + bottom_of(self@.blocks) <= u8::MAX,
        ensures
            r as int == self@.y + bottom_of(self@.blocks),
    {
        (self.position.y as i16 + self.prototype.limits.bottom as i16) as u8
    }

    /// The anchor that keeps all of `prototype`'s cells inside
    /// `scene_area`, starting from `current_pos` and moving as little as
    /// possible on each axis.
    pub fn repostion(
        prototype: &TetronimoPrototype,
        current_pos: Position,
        scene_area: Position,
    ) -> (r: Position)
        requires
            limits_ok(*prototype),
            shape_ok(blocks_view(prototype.blocks)),
            scene_area.x >= 4,
            scene_area.y >= 4,
        ensures
            ({
                let bs = blocks_view(prototype.blocks);
                &&& r.x as int == repos_axis(
                    current_pos.x as int,
                    left_of(bs),
                    right_of(bs),
                    0,
                    scene_area.x as int,
                )
                &&& r.y as int == repos_axis(
                    current_pos.y as int,
                    top_of(bs),
                    bottom_of(bs),
                    0,
                    scene_area.y as int,
                )
            }),
    {
        proof {
            let bs = blocks_view(prototype.blocks);
            lemma_left_of(bs);
            lemma_right_of(bs);
            lemma_top_of(bs);
            lemma_bottom_of(bs);
        }
        Position {
            x: repos_axis_exec(
                current_pos.x,
                scene_area.x,
                prototype.limits.left,
                prototype.limits.right,
            ),
            y: repos_axis_exec(
                current_pos.y,
                scene_area.y,
                prototype.limits.top,
                prototype.limits.bottom,
            ),
        }
    }
}

/// The piece after one transform request: the anchor moved or the shape
/// turned, then everything clamped back into the area.
pub open spec fn transform_view(t: TetroView, d: Direction, step: int, ax: int, ay: int) -> TetroView {
    let moved = match d {
        Direction::Left => TetroView {
            x: if t.x - step >= 0 {
                t.x - step
            } else {
                0
            },
            y: t.y,
            blocks: t.blocks,
        },
        Direction::Right => TetroView {
            x: if t.x + step <= u8::MAX {
                t.x + step
            } else {
                u8::MAX as int
            },
            y: t.y,
            blocks: t.blocks,
        },
        Direction::Up => TetroView {
            x: t.x,
            y: if t.y - step >= 0 {
                t.y - step
            } else {
                0
            },
            blocks: t.blocks,
        },
        Direction::Down => TetroView {
            x: t.x,
            y: if t.y + step <= u8::MAX {
                t.y + step
            } else {
                u8::MAX as int
            },
            blocks: t.blocks,
        },
        Direction::Rotate => TetroView { x: t.x, y: t.y, blocks: rot_seq(t.blocks, step) },
    };
    reposition_view(moved, ax, ay)
}

/// Relies on rand::thread_rng and rand::RngCore::next_u32 for one random
/// draw; nothing is assumed about the returned value.
#[verifier::external_body]
pub(crate) fn random_u32() -> u32 {
    rand::thread_rng().next_u32()
}

} // verus!
