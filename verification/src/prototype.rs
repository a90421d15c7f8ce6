//! Piece shapes as bare offset arrays, closed-form rotation, and the
//! bounding-box clamp that keeps a shape inside a play field.
//!
//! A shape is four offsets `(dx, dy)` relative to an anchor cell. A clockwise
//! quarter turn around the anchor maps an offset `(x, y)` to `(-y - 1, x)`;
//! the `- 1` is the half-cell correction that keeps the four-cell bounding
//! boxes symmetric on an integer grid. [`rot_cell`] states the effect of `r`
//! such turns directly, one case per residue of `r` modulo four;
//! [`lemma_rot_cell_formula`] relates it to the equivalent arithmetic form
//! `x' = dx*turn(r) + dy*turn(r-1) - shift(r)`.

use vstd::prelude::*;
use vstd::arithmetic::div_mod::lemma_add_mod_noop;

verus! {

/// A shape as plain data: four `(dx, dy)` offsets from the anchor.
pub type TetronimoPrototype = [(i8, i8); 4];

/// The offsets of an i8 pair array, as mathematical integers.
pub open spec fn blocks_view(a: TetronimoPrototype) -> Seq<(int, int)> {
    a@.map_values(|c: (i8, i8)| (c.0 as int, c.1 as int))
}

/// The factor sequence 1, 0, -1, 0 for rotation steps 0, 1, 2, 3 (mod 4).
pub open spec fn turn_val(r: int) -> int {
    if r % 4 == 0 {
        1
    } else if r % 4 == 2 {
        -1
    } else {
        0
    }
}

/// The half-cell correction: 0, 0, 1, 1 for rotation steps 0, 1, 2, 3 (mod 4).
pub open spec fn shift_val(r: int) -> int {
    if r % 4 >= 2 {
        1
    } else {
        0
    }
}

/// One offset after `r` clockwise quarter turns, written out per residue.
pub open spec fn rot_cell(c: (int, int), r: int) -> (int, int) {
    let m = r % 4;
    if m == 0 {
        c
    } else if m == 1 {
        (c.1, -c.0 - 1)
    } else if m == 2 {
        (-c.0 - 1, -c.1 - 1)
    } else {
        (-c.1 - 1, c.0)
    }
}

/// All four offsets of a shape after `r` quarter turns.
pub open spec fn rot_seq(bs: Seq<(int, int)>, r: int) -> Seq<(int, int)> {
    bs.map_values(|c: (int, int)| rot_cell(c, r))
}

/// The case-by-case [`rot_cell`] equals the closed arithmetic form
/// `(dx*turn(r) + dy*turn(r-1) - shift(r), dx*turn(r+1) + dy*turn(r) - shift(r+1))`.
pub proof fn lemma_rot_cell_formula(c: (int, int), r: int)
    ensures
        rot_cell(c, r).0 == c.0 * turn_val(r) + c.1 * turn_val(r - 1) - shift_val(r),
        rot_cell(c, r).1 == c.0 * turn_val(r + 1) + c.1 * turn_val(r) - shift_val(r + 1),
{
    lemma_add_mod_noop(r, 1, 4);
    lemma_add_mod_noop(r - 1, 1, 4);
    assert((r + 1) % 4 == (r % 4 + 1) % 4);
    assert(r % 4 == ((r - 1) % 4 + 1) % 4);
}

/// Rotating once and then three more times restores every offset, and a
/// full period of four turns acts like no turn at all.
pub proof fn lemma_rot_cell_period(c: (int, int))
    ensures
        rot_cell(rot_cell(c, 1), 3) == c,
        rot_cell(c, 4) == rot_cell(c, 0),
{
}

/// Rotation is a period-four permutation of shapes: one turn followed by
/// three more turns gives the original offsets back, and four turns equal
/// zero turns.
pub proof fn lemma_rotation_period(bs: Seq<(int, int)>)
    ensures
        rot_seq(rot_seq(bs, 1), 3) == bs,
        rot_seq(bs, 4) == rot_seq(bs, 0),
{
    assert(rot_seq(rot_seq(bs, 1), 3) =~= bs);
    assert(rot_seq(bs, 4) =~= rot_seq(bs, 0));
}

/// A quarter turn maps distinct offsets to distinct offsets.
pub proof fn lemma_rot_cell_injective(a: (int, int), b: (int, int), r: int)
    requires
        rot_cell(a, r) == rot_cell(b, r),
    ensures
        a == b,
{
}

/// The least `dx` among a shape's offsets.
pub open spec fn left_of(bs: Seq<(int, int)>) -> int
    recommends
        bs.len() > 0,
    decreases bs.len(),
{
    if bs.len() <= 1 {
        bs[0].0
    } else {
        let rest = left_of(bs.drop_last());
        if bs.last().0 < rest {
            bs.last().0
        } else {
            rest
        }
    }
}

/// The greatest `dx` among a shape's offsets.
pub open spec fn right_of(bs: Seq<(int, int)>) -> int
    recommends
        bs.len() > 0,
    decreases bs.len(),
{
    if bs.len() <= 1 {
        bs[0].0
    } else {
        let rest = right_of(bs.drop_last());
        if bs.last().0 > rest {
            bs.last().0
        } else {
            rest
        }
    }
}

/// The least `dy` among a shape's offsets.
pub open spec fn top_of(bs: Seq<(int, int)>) -> int
    recommends
        bs.len() > 0,
    decreases bs.len(),
{
    if bs.len() <= 1 {
        bs[0].1
    } else {
        let rest = top_of(bs.drop_last());
        if bs.last().1 < rest {
            bs.last().1
        } else {
            rest
        }
    }
}

/// The greatest `dy` among a shape's offsets.
pub open spec fn bottom_of(bs: Seq<(int, int)>) -> int
    recommends
        bs.len() > 0,
    decreases bs.len(),
{
    if bs.len() <= 1 {
        bs[0].1
    } else {
        let rest = bottom_of(bs.drop_last());
        if bs.last().1 > rest {
            bs.last().1
        } else {
            rest
        }
    }
}

/// `left_of` is a lower bound on the `dx` values and is attained.
pub proof fn lemma_left_of(bs: Seq<(int, int)>)
    requires
        bs.len() > 0,
    ensures
        forall|j: int| 0 <= j < bs.len() ==> left_of(bs) <= (#[trigger] bs[j]).0,
        exists|j: int| 0 <= j < bs.len() && (#[trigger] bs[j]).0 == left_of(bs),
    decreases bs.len(),
{
    if bs.len() == 1 {
        assert(bs[0].0 == left_of(bs));
    } else {
        let rest = bs.drop_last();
        lemma_left_of(rest);
        assert forall|j: int| 0 <= j < bs.len() implies left_of(bs) <= (#[trigger] bs[j]).0 by {
            if j < bs.len() - 1 {
                assert(rest[j] == bs[j]);
            }
        }
        if bs.last().0 < left_of(rest) {
            assert(bs[bs.len() - 1].0 == left_of(bs));
        } else {
            let k = choose|j: int| 0 <= j < rest.len() && (#[trigger] rest[j]).0 == left_of(rest);
            assert(bs[k].0 == left_of(bs));
        }
    }
}

/// `right_of` is an upper bound on the `dx` values and is attained.
pub proof fn lemma_right_of(bs: Seq<(int, int)>)
    requires
        bs.len() > 0,
    ensures
        forall|j: int| 0 <= j < bs.len() ==> (#[trigger] bs[j]).0 <= right_of(bs),
        exists|j: int| 0 <= j < bs.len() && (#[trigger] bs[j]).0 == right_of(bs),
    decreases bs.len(),
{
    if bs.len() == 1 {
        assert(bs[0].0 == right_of(bs));
    } else {
        let rest = bs.drop_last();
        lemma_right_of(rest);
        assert forall|j: int| 0 <= j < bs.len() implies (#[trigger] bs[j]).0 <= right_of(bs) by {
            if j < bs.len() - 1 {
                assert(rest[j] == bs[j]);
            }
        }
        if bs.last().0 > right_of(rest) {
            assert(bs[bs.len() - 1].0 == right_of(bs));
        } else {
            let k = choose|j: int| 0 <= j < rest.len() && (#[trigger] rest[j]).0 == right_of(rest);
            assert(bs[k].0 == right_of(bs));
        }
    }
}

/// `top_of` is a lower bound on the `dy` values and is attained.
pub proof fn lemma_top_of(bs: Seq<(int, int)>)
    requires
        bs.len() > 0,
    ensures
        forall|j: int| 0 <= j < bs.len() ==> top_of(bs) <= (#[trigger] bs[j]).1,
        exists|j: int| 0 <= j < bs.len() && (#[trigger] bs[j]).1 == top_of(bs),
    decreases bs.len(),
{
    if bs.len() == 1 {
        assert(bs[0].1 == top_of(bs));
    } else {
        let rest = bs.drop_last();
        lemma_top_of(rest);
        assert forall|j: int| 0 <= j < bs.len() implies top_of(bs) <= (#[trigger] bs[j]).1 by {
            if j < bs.len() - 1 {
                assert(rest[j] == bs[j]);
            }
        }
        if bs.last().1 < top_of(rest) {
            assert(bs[bs.len() - 1].1 == top_of(bs));
        } else {
            let k = choose|j: int| 0 <= j < rest.len() && (#[trigger] rest[j]).1 == top_of(rest);
            assert(bs[k].1 == top_of(bs));
        }
    }
}

/// `bottom_of` is an upper bound on the `dy` values and is attained.
pub proof fn lemma_bottom_of(bs: Seq<(int, int)>)
    requires
        bs.len() > 0,
    ensures
        forall|j: int| 0 <= j < bs.len() ==> (#[trigger] bs[j]).1 <= bottom_of(bs),
        exists|j: int| 0 <= j < bs.len() && (#[trigger] bs[j]).1 == bottom_of(bs),
    decreases bs.len(),
{
    if bs.len() == 1 {
        assert(bs[0].1 == bottom_of(bs));
    } else {
        let rest = bs.drop_last();
        lemma_bottom_of(rest);
        assert forall|j: int| 0 <= j < bs.len() implies (#[trigger] bs[j]).1 <= bottom_of(bs) by {
            if j < bs.len() - 1 {
                assert(rest[j] == bs[j]);
            }
        }
        if bs.last().1 > bottom_of(rest) {
            assert(bs[bs.len() - 1].1 == bottom_of(bs));
        } else {
            let k = choose|j: int| 0 <= j < rest.len() && (#[trigger] rest[j]).1 == bottom_of(rest);
            assert(bs[k].1 == bottom_of(bs));
        }
    }
}

/// Clamp an anchor coordinate so a shape spanning `lo..=hi` around it stays
/// within `minb..maxb` (the upper bound exclusive): the anchor is pulled
/// right by `max(0, minb - (p + lo))` when the shape sticks out at the low
/// edge and pulled left by `max(0, p + hi - maxb + 1)` when it sticks out at
/// the high edge.
pub open spec fn repos_axis(p: int, lo: int, hi: int, minb: int, maxb: int) -> int {
    p + (if minb - (p + lo) > 0 {
        minb - (p + lo)
    } else {
        0
    }) - (if p + hi - maxb + 1 > 0 {
        p + hi - maxb + 1
    } else {
        0
    })
}

/// As long as the shape fits in the axis range and straddles its anchor on
/// the low side, the clamp puts it fully inside the range and leaves an
/// already-legal anchor unchanged.
pub proof fn lemma_repos_axis(p: int, lo: int, hi: int, minb: int, maxb: int)
    requires
        0 <= p,
        lo <= minb,
        hi - lo < maxb - minb,
    ensures
        minb <= repos_axis(p, lo, hi, minb, maxb) + lo,
        repos_axis(p, lo, hi, minb, maxb) + hi < maxb,
        minb <= p + lo && p + hi < maxb ==> repos_axis(p, lo, hi, minb, maxb) == p,
        0 <= repos_axis(p, lo, hi, minb, maxb),
        repos_axis(p, lo, hi, minb, maxb) <= p || repos_axis(p, lo, hi, minb, maxb) == minb - lo,
{
}

/// The rotation factor `turn_val` as executable code.
fn rotate(rotation: u8) -> (r: i8)
    ensures
        r as int == turn_val(rotation as int),
{
    let m = rotation % 4;
    if m == 0 {
        1
    } else if m == 2 {
        -1
    } else {
        0
    }
}

/// The half-cell correction `shift_val` as executable code.
fn shift(rotation: u8) -> (r: i8)
    ensures
        r as int == shift_val(rotation as int),
{
    if rotation % 4 >= 2 {
        1
    } else {
        0
    }
}

/// One offset after `rotation` quarter turns; the intermediate sums are
/// taken in a wider type, and the result always fits an `i8` again.
fn rotate_cell(cell: (i8, i8), rotation: u8) -> (r: (i8, i8))
    ensures
        (r.0 as int, r.1 as int) == rot_cell((cell.0 as int, cell.1 as int), rotation as int),
{
    let m = rotation % 4;
    let x = cell.0 as i16;
    let y = cell.1 as i16;
    let (nx, ny): (i16, i16) = if m == 0 {
        (x, y)
    } else if m == 1 {
        (y, -x - 1)
    } else if m == 2 {
        (-x - 1, -y - 1)
    } else {
        (-y - 1, x)
    };
    (nx as i8, ny as i8)
}

/// All four offsets of a shape after `rotation` clockwise quarter turns.
pub fn rotate_prototype(prototype: TetronimoPrototype, rotation: u8) -> (r: TetronimoPrototype)
    ensures
        blocks_view(r) == rot_seq(blocks_view(prototype), rotation as int),
{
    let r = [
        rotate_cell(prototype[0], rotation),
        rotate_cell(prototype[1], rotation),
        rotate_cell(prototype[2], rotation),
        rotate_cell(prototype[3], rotation),
    ];
    proof {
        assert(blocks_view(r) =~= rot_seq(blocks_view(prototype), rotation as int));
    }
    r
}

/// The leftmost rotated offset of a shape.
pub fn left(prototype: TetronimoPrototype, rotation: u8) -> (r: i8)
    ensures
        r as int == left_of(rot_seq(blocks_view(prototype), rotation as int)),
{
    let rotated = rotate_prototype(prototype, rotation);
    let ghost bs = rot_seq(blocks_view(prototype), rotation as int);
    let mut m = rotated[0].0;
    assert(m as int == left_of(bs.take(1)));
    let mut i: usize = 1;
    while i < 4
        invariant
            1 <= i <= 4,
            blocks_view(rotated) == bs,
            m as int == left_of(bs.take(i as int)),
        decreases 4 - i,
    {
        if rotated[i].0 < m {
            m = rotated[i].0;
        }
        proof {
            assert(bs.take(i + 1).drop_last() =~= bs.take(i as int));
        }
        i = i + 1;
    }
    proof {
        assert(bs.take(4) =~= bs);
    }
    m
}

/// The rightmost rotated offset of a shape.
pub fn right(prototype: TetronimoPrototype, rotation: u8) -> (r: i8)
    ensures
        r as int == right_of(rot_seq(blocks_view(prototype), rotation as int)),
{
    let rotated = rotate_prototype(prototype, rotation);
    let ghost bs = rot_seq(blocks_view(prototype), rotation as int);
    let mut m = rotated[0].0;
    assert(m as int == right_of(bs.take(1)));
    let mut i: usize = 1;
    while i < 4
        invariant
            1 <= i <= 4,
            blocks_view(rotated) == bs,
            m as int == right_of(bs.take(i as int)),
        decreases 4 - i,
    {
        if rotated[i].0 > m {
            m = rotated[i].0;
        }
        proof {
            assert(bs.take(i + 1).drop_last() =~= bs.take(i as int));
        }
        i = i + 1;
    }
    proof {
        assert(bs.take(4) =~= bs);
    }
    m
}

/// The topmost rotated offset of a shape.
pub fn top(prototype: TetronimoPrototype, rotation: u8) -> (r: i8)
    ensures
        r as int == top_of(rot_seq(blocks_view(prototype), rotation as int)),
{
    let rotated = rotate_prototype(prototype, rotation);
    let ghost bs = rot_seq(blocks_view(prototype), rotation as int);
    let mut m = rotated[0].1;
    assert(m as int == top_of(bs.take(1)));
    let mut i: usize = 1;
    while i < 4
        invariant
            1 <= i <= 4,
            blocks_view(rotated) == bs,
            m as int == top_of(bs.take(i as int)),
        decreases 4 - i,
    {
        if rotated[i].1 < m {
            m = rotated[i].1;
        }
        proof {
            assert(bs.take(i + 1).drop_last() =~= bs.take(i as int));
        }
        i = i + 1;
    }
    proof {
        assert(bs.take(4) =~= bs);
    }
    m
}

/// The bottommost rotated offset of a shape.
pub fn bottom(prototype: TetronimoPrototype, rotation: u8) -> (r: i8)
    ensures
        r as int == bottom_of(rot_seq(blocks_view(prototype), rotation as int)),
{
    let rotated = rotate_prototype(prototype, rotation);
    let ghost bs = rot_seq(blocks_view(prototype), rotation as int);
    let mut m = rotated[0].1;
    assert(m as int == bottom_of(bs.take(1)));
    let mut i: usize = 1;
    while i < 4
        invariant
            1 <= i <= 4,
            blocks_view(rotated) == bs,
            m as int == bottom_of(bs.take(i as int)),
        decreases 4 - i,
    {
        if rotated[i].1 > m {
            m = rotated[i].1;
        }
        proof {
            assert(bs.take(i + 1).drop_last() =~= bs.take(i as int));
        }
        i = i + 1;
    }
    proof {
        assert(bs.take(4) =~= bs);
    }
    m
}

/// Whether a rotated shape can be clamped into `area` at all: it must span
/// less than the area on both axes, reach at most as far as the low edges,
/// and the clamped anchor must fit the coordinate type.
pub open spec fn fix_position_ok(bs: Seq<(int, int)>, area: crate::geometry::Area) -> bool {
    &&& left_of(bs) <= area.min_x
    &&& top_of(bs) <= area.min_y
    &&& right_of(bs) - left_of(bs) < area.max_x - area.min_x
    &&& bottom_of(bs) - top_of(bs) < area.max_y - area.min_y
    &&& area.min_x - left_of(bs) <= u8::MAX
    &&& area.min_y - top_of(bs) <= u8::MAX
}

/// Clamp an anchor position so that every rotated offset of the shape lands
/// inside `area`: at least the inclusive minima, strictly below the maxima.
/// An anchor that is already legal comes back unchanged.
pub fn fix_position(
    prototype: TetronimoPrototype,
    rotation: u8,
    position: crate::geometry::Block,
    area: crate::geometry::Area,
) -> (r: crate::geometry::Block)
    requires
        fix_position_ok(rot_seq(blocks_view(prototype), rotation as int), area),
    ensures
        ({
            let bs = rot_seq(blocks_view(prototype), rotation as int);
            &&& r.x as int == repos_axis(
                position.x as int,
                left_of(bs),
                right_of(bs),
                area.min_x as int,
                area.max_x as int,
            )
            &&& r.y as int == repos_axis(
                position.y as int,
                top_of(bs),
                bottom_of(bs),
                area.min_y as int,
                area.max_y as int,
            )
            &&& forall|j: int|
                0 <= j < bs.len() ==> area.min_x <= r.x + (#[trigger] bs[j]).0 < area.max_x
                    && area.min_y <= r.y + bs[j].1 < area.max_y
            &&& (area.min_x <= position.x + left_of(bs) && position.x + right_of(bs) < area.max_x)
                ==> r.x == position.x
            &&& (area.min_y <= position.y + top_of(bs) && position.y + bottom_of(bs) < area.max_y)
                ==> r.y == position.y
        }),
{
    let ghost bs = rot_seq(blocks_view(prototype), rotation as int);
    let lo_x = left(prototype, rotation) as i32;
    let hi_x = right(prototype, rotation) as i32;
    let lo_y = top(prototype, rotation) as i32;
    let hi_y = bottom(prototype, rotation) as i32;
    let px = position.x as i32;
    let py = position.y as i32;
    proof {
        lemma_repos_axis(px as int, lo_x as int, hi_x as int, area.min_x as int, area.max_x as int);
        lemma_repos_axis(py as int, lo_y as int, hi_y as int, area.min_y as int, area.max_y as int);
        lemma_left_of(bs);
        lemma_right_of(bs);
        lemma_top_of(bs);
        lemma_bottom_of(bs);
    }
    let lc_x = if area.min_x as i32 - (px + lo_x) > 0 {
        area.min_x as i32 - (px + lo_x)
    } else {
        0
    };
    let rc_x = if px + hi_x - area.max_x as i32 + 1 > 0 {
        px + hi_x - area.max_x as i32 + 1
    } else {
        0
    };
    let lc_y = if area.min_y as i32 - (py + lo_y) > 0 {
        area.min_y as i32 - (py + lo_y)
    } else {
        0
    };
    let rc_y = if py + hi_y - area.max_y as i32 + 1 > 0 {
        py + hi_y - area.max_y as i32 + 1
    } else {
        0
    };
    crate::geometry::Block { x: (px + lc_x - rc_x) as u8, y: (py + lc_y - rc_y) as u8 }
}

} // verus!
